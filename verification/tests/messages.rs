use llm::config::ConfigError;
use llm::error::{LoadError, LoadSource, Report};
use llm::json::parse;
use llm::safetensors::{Shard, ShardError};
use llm::text::list_string;
use llm::weights::ModelError;

#[test]
fn report_lists_each_cause_on_its_own_line() {
    let report = Report::new(vec![
        "could not load models/x".to_string(),
        "could not load models/x/a.safetensors".to_string(),
        "header is not json".to_string(),
    ]);
    assert_eq!(
        report.text(),
        "could not load models/x\ncaused by: could not load models/x/a.safetensors\ncaused by: header is not json"
    );
    assert_eq!(Report::new(vec!["alone".to_string()]).text(), "alone");
    assert_eq!(Report::new(Vec::new()).text(), "");
}

#[test]
fn load_error_names_the_file() {
    let e = LoadError::new("models/config.json", LoadSource::Config(ConfigError::RopeScaling));
    assert_eq!(e.message(), "could not load models/config.json");
    assert_eq!(e.path_str(), "models/config.json");
    let outer = LoadError::new("models", LoadSource::File(Box::new(e)));
    match outer.cause() {
        LoadSource::File(inner) => assert_eq!(inner.path_str(), "models/config.json"),
        _ => panic!("the cause should be the inner file"),
    }
}

#[test]
fn parse_error_message_gives_what_and_where() {
    let e = parse("[1 2]").unwrap_err();
    assert_eq!(e.message(), "expected ',' or ']' at byte 3");
}

#[test]
fn shard_error_messages() {
    assert_eq!(ShardError::Format("file too short").message(), "file too short");
    assert_eq!(
        ShardError::Entry("w".to_string(), "dtype should be BF16").message(),
        "w: dtype should be BF16"
    );
    let Err(utf8) = Shard::parse({
        let mut b = 2u64.to_le_bytes().to_vec();
        b.extend_from_slice(&[0xff, 0xfe]);
        b
    }) else {
        panic!("should be rejected")
    };
    assert_eq!(utf8.message(), "header is not utf-8");
    let Err(json) = Shard::parse({
        let mut b = 1u64.to_le_bytes().to_vec();
        b.extend_from_slice(b"{");
        b
    }) else {
        panic!("should be rejected")
    };
    assert_eq!(json.message(), "header is not json");
}

#[test]
fn model_error_messages() {
    assert_eq!(ModelError::WeightMap.message(), "weight_map should be an object");
    assert_eq!(
        ModelError::NotInShard("w".to_string(), "a.st".to_string()).message(),
        "w should be in a.st"
    );
    assert_eq!(ModelError::MissingTensor("w".to_string()).message(), "missing tensor w");
    assert_eq!(
        ModelError::Shape("w".to_string(), vec![4], vec![2, 2]).message(),
        "w: shape [4] should be [2, 2]"
    );
    assert_eq!(ModelError::Unused("w".to_string()).message(), "unused tensor w");
}

#[test]
fn lists_print_like_debug() {
    for v in [vec![], vec![7usize], vec![151936, 2560], vec![0, 10, usize::MAX]] {
        assert_eq!(list_string(&v), format!("{v:?}"));
    }
}
