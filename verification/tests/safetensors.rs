use llm::error::LoadSource;
use llm::safetensors::{Shard, ShardError};

fn synthetic(header: &[u8], data: &[u8]) -> Vec<u8> {
    let mut bytes = (header.len() as u64).to_le_bytes().to_vec();
    bytes.extend_from_slice(header);
    bytes.extend_from_slice(data);
    bytes
}

/// The value of a bf16 bit pattern: the upper half of an f32.
fn bf16_value(bits: u16) -> f32 {
    f32::from_bits(u32::from(bits) << 16)
}

#[test]
fn parses_synthetic_shard() {
    let bytes = synthetic(
        br#"{"t":{"dtype":"BF16","shape":[2,2],"data_offsets":[0,8]}}"#,
        &[0x80, 0x3F, 0x00, 0x40, 0x00, 0xBF, 0x80, 0x3E],
    );
    let shard = Shard::parse(bytes).unwrap();
    let t = shard.tensor("t").unwrap();
    assert_eq!(t.shape, [2, 2]);
    let data: Vec<f32> = t.bf16.iter().map(|&b| bf16_value(b)).collect();
    assert_eq!(data, [1.0, 2.0, -0.5, 0.25]);
    assert!(shard.tensor("missing").is_none());
}

#[test]
fn parse_rejects_malformed_shards() {
    let headers: [&[u8]; 6] = [
        br#"[]"#,
        br#"{"t":{"dtype":"F32","shape":[2],"data_offsets":[0,8]}}"#,
        br#"{"t":{"dtype":"BF16","shape":[2],"data_offsets":[0]}}"#,
        br#"{"t":{"dtype":"BF16","shape":[2],"data_offsets":[4,0]}}"#,
        br#"{"t":{"dtype":"BF16","shape":[2],"data_offsets":[0,999]}}"#,
        br#"{"t":{"dtype":"BF16","shape":[3],"data_offsets":[0,8]}}"#,
    ];
    for header in headers {
        let bytes = synthetic(header, &[0; 8]);
        assert!(
            Shard::parse(bytes).is_err(),
            "{}",
            str::from_utf8(header).unwrap()
        );
    }
    assert!(Shard::parse(b"ab".to_vec()).is_err());
}

#[test]
fn parse_names_each_problem() {
    let entry = |header: &[u8], msg: &str| {
        match Shard::parse(synthetic(header, &[0; 8])) {
            Err(ShardError::Entry(name, m)) => {
                assert_eq!(name, "t");
                assert_eq!(m, msg);
            }
            Err(e) => panic!("{e:?}"),
            Ok(_) => panic!("should be rejected"),
        }
    };
    entry(br#"{"t":{"dtype":"F32","shape":[2],"data_offsets":[0,8]}}"#, "dtype should be BF16");
    entry(br#"{"t":{"dtype":"BF16","shape":2,"data_offsets":[0,4]}}"#, "shape should be an array");
    entry(br#"{"t":{"dtype":"BF16","shape":[-2],"data_offsets":[0,4]}}"#, "shape should be integers");
    entry(br#"{"t":{"dtype":"BF16","shape":[2],"data_offsets":0}}"#, "data_offsets should be an array");
    entry(br#"{"t":{"dtype":"BF16","shape":[2],"data_offsets":[0]}}"#, "data_offsets should be a pair");
    entry(br#"{"t":{"dtype":"BF16","shape":[2],"data_offsets":[true,4]}}"#, "start should be an integer");
    entry(br#"{"t":{"dtype":"BF16","shape":[2],"data_offsets":[0,4.5]}}"#, "end should be an integer");
    entry(br#"{"t":{"dtype":"BF16","shape":[2],"data_offsets":[4,0]}}"#, "data_offsets should be in bounds");
    entry(br#"{"t":{"dtype":"BF16","shape":[2],"data_offsets":[0,999]}}"#, "data_offsets should be in bounds");
    entry(br#"{"t":{"dtype":"BF16","shape":[3],"data_offsets":[0,8]}}"#, "byte size should match shape");
    assert!(matches!(
        Shard::parse(b"ab".to_vec()),
        Err(ShardError::Format("file too short"))
    ));
    let mut long = 100u64.to_le_bytes().to_vec();
    long.extend_from_slice(b"{}");
    assert!(matches!(
        Shard::parse(long),
        Err(ShardError::Format("header extends past end of file"))
    ));
    assert!(matches!(
        Shard::parse(synthetic(b"[]", &[])),
        Err(ShardError::Format("header should be an object"))
    ));
    assert!(matches!(
        Shard::parse(synthetic(&[0xff, 0xfe], &[])),
        Err(ShardError::Utf8(_))
    ));
    assert!(matches!(
        Shard::parse(synthetic(b"{", &[])),
        Err(ShardError::Json(_))
    ));
}

#[test]
fn parse_skips_metadata_and_keeps_the_last_entry_of_a_name() {
    let bytes = synthetic(
        br#"{"__metadata__":{"format":"pt"},"t":{"dtype":"BF16","shape":[1],"data_offsets":[0,2]},"t":{"dtype":"BF16","shape":[2],"data_offsets":[2,6]}}"#,
        &[0x80, 0x3F, 0x00, 0x40, 0x00, 0xBF],
    );
    let shard = Shard::parse(bytes).unwrap();
    assert!(shard.tensor("__metadata__").is_none());
    let t = shard.tensor("t").unwrap();
    assert_eq!(t.shape, [2]);
    assert_eq!(t.bf16, [0x4000, 0xBF00]);
}

#[test]
fn tensor_reads_little_endian_pairs() {
    let bytes = synthetic(
        br#"{"a":{"dtype":"BF16","shape":[],"data_offsets":[2,4]}}"#,
        &[0x00, 0x00, 0x34, 0x12],
    );
    let shard = Shard::parse(bytes).unwrap();
    let t = shard.tensor("a").unwrap();
    assert!(t.shape.is_empty());
    assert_eq!(t.bf16, [0x1234]);
}

#[test]
fn load_wraps_read_and_parse_errors_with_the_path() {
    match Shard::load("m.safetensors", Err("denied".to_string())) {
        Err(e) => {
            assert_eq!(e.path_str(), "m.safetensors");
            assert!(matches!(e.cause(), LoadSource::Io(m) if m == "denied"));
        }
        Ok(_) => panic!("should fail"),
    }
    match Shard::load("m.safetensors", Ok(b"ab".to_vec())) {
        Err(e) => assert!(matches!(
            e.cause(),
            LoadSource::Shard(ShardError::Format("file too short"))
        )),
        Ok(_) => panic!("should fail"),
    }
    let good = synthetic(br#"{"x":{"dtype":"BF16","shape":[1],"data_offsets":[0,2]}}"#, &[1, 2]);
    let shard = Shard::load("m.safetensors", Ok(good)).unwrap();
    assert_eq!(shard.tensor("x").unwrap().bf16, [0x0201]);
}
