use llm::config::{Config, ConfigError};
use llm::error::LoadSource;
use llm::json::parse;

const QWEN3_4B: &str = r#"{"architectures":["Qwen3ForCausalLM"],"attention_bias":false,"attention_dropout":0.0,"bos_token_id":151643,"eos_token_id":151643,"head_dim":128,"hidden_act":"silu","hidden_size":2560,"initializer_range":0.02,"intermediate_size":9728,"max_position_embeddings":32768,"max_window_layers":36,"model_type":"qwen3","num_attention_heads":32,"num_hidden_layers":36,"num_key_value_heads":8,"rms_norm_eps":0.000001,"rope_scaling":null,"rope_theta":1000000,"sliding_window":null,"tie_word_embeddings":true,"torch_dtype":"bfloat16","transformers_version":"4.51.0","use_cache":true,"use_sliding_window":false,"vocab_size":151936}"#;

#[test]
fn from_json_qwen3_4b() {
    let config = Config::from_json(&parse(QWEN3_4B).unwrap());
    assert_eq!(config.hidden_size, 2560);
    assert_eq!(config.eos_token_id, 151643);
    assert!(config.tie_word_embeddings);
    assert_eq!(config.rms_norm_eps.parse::<f64>().unwrap(), 1e-6);
}

#[test]
#[should_panic(expected = "unsupported model_type")]
fn from_json_panics_on_unknown_model() {
    let text = r#"{"model_type":"qwen2","rope_scaling":null}"#;
    let json = parse(text).unwrap();
    // `from_json` accepts only what `try_from_json` reads; a caller checks
    // first and panics with the reason, as reading it without the check did.
    if let Err(e) = Config::try_from_json(&json) {
        panic!("{}", e.message());
    }
    Config::from_json(&json);
}

#[test]
fn from_json_reads_every_setting() {
    let config = Config::from_json(&parse(QWEN3_4B).unwrap());
    assert_eq!(config.intermediate_size, 9728);
    assert_eq!(config.num_hidden_layers, 36);
    assert_eq!(config.num_attention_heads, 32);
    assert_eq!(config.num_key_value_heads, 8);
    assert_eq!(config.head_dim, 128);
    assert_eq!(config.vocab_size, 151936);
    assert_eq!(config.max_position_embeddings, 32768);
    assert_eq!(config.rope_theta, "1000000");
    assert_eq!(config.rms_norm_eps, "0.000001");
}

fn rejected(text: &str) -> String {
    match Config::try_from_json(&parse(text).unwrap()) {
        Err(e) => e.message(),
        Ok(_) => panic!("{text} should be rejected"),
    }
}

#[test]
fn from_json_names_the_first_bad_setting() {
    let with = |key: &str, value: &str| {
        let mut doc = QWEN3_4B.replacen(&format!("\"{key}\":"), &format!("\"{key}\":{value},\"old_{key}\":"), 1);
        if value.is_empty() {
            doc = QWEN3_4B.replacen(&format!("\"{key}\":"), &format!("\"old_{key}\":"), 1);
        }
        rejected(&doc)
    };
    assert_eq!(with("model_type", ""), "config: missing model_type");
    assert_eq!(with("model_type", "\"llama\""), "config: unsupported model_type");
    assert_eq!(with("rope_scaling", ""), "config: missing rope_scaling");
    assert_eq!(with("rope_scaling", "{}"), "config: rope_scaling should be null");
    assert_eq!(with("hidden_size", ""), "config: missing hidden_size");
    assert_eq!(with("hidden_size", "2560.0"), "config: hidden_size should be an integer");
    assert_eq!(with("head_dim", "-1"), "config: head_dim should be an integer");
    assert_eq!(with("eos_token_id", "4294967296"), "config: eos_token_id should fit u32");
    assert_eq!(with("rope_theta", "\"big\""), "config: rope_theta should be a number");
    assert_eq!(with("tie_word_embeddings", "1"), "config: tie_word_embeddings should be a bool");
    assert_eq!(with("vocab_size", "true"), "config: vocab_size should be an integer");
}

#[test]
fn from_json_reports_errors_in_reading_order() {
    let text = r#"{"model_type":"qwen3","rope_scaling":null,"hidden_size":"x","vocab_size":"y"}"#;
    assert!(matches!(
        Config::try_from_json(&parse(text).unwrap()),
        Err(ConfigError::NotInteger("hidden_size"))
    ));
}

#[test]
fn load_wraps_config_errors_with_the_path() {
    match Config::load("config.json", Ok(r#"{"model_type":"qwen2"}"#.to_string())) {
        Err(e) => {
            assert_eq!(e.path_str(), "config.json");
            assert!(matches!(e.cause(), LoadSource::Config(ConfigError::UnsupportedModelType)));
        }
        Ok(_) => panic!("should fail"),
    }
    match Config::load("config.json", Err("gone".to_string())) {
        Err(e) => assert!(matches!(e.cause(), LoadSource::Io(m) if m == "gone")),
        Ok(_) => panic!("should fail"),
    }
    let config = Config::load("config.json", Ok(QWEN3_4B.to_string())).unwrap();
    assert_eq!(config.head_dim, 128);
}
