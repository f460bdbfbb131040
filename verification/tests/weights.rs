use llm::config::Config;
use llm::json::parse;
use llm::safetensors::Shard;
use llm::text::decimal_text;
use llm::weights::{
    assemble, collect_shard, shard_files, str_less, weight_map, ModelError,
    ModelWeights, TensorStore,
};

fn tiny_config(layers: usize) -> Config {
    Config {
        hidden_size: 2,
        intermediate_size: 3,
        num_hidden_layers: layers,
        num_attention_heads: 2,
        num_key_value_heads: 1,
        head_dim: 1,
        vocab_size: 4,
        max_position_embeddings: 16,
        eos_token_id: 0,
        rope_theta: "10000".to_string(),
        rms_norm_eps: "1e-6".to_string(),
        tie_word_embeddings: true,
    }
}

/// The tensors of a model with the tiny configuration, each filled with one
/// distinct value.
fn tiny_tensors(layers: usize) -> Vec<(String, Vec<usize>)> {
    let mut out = Vec::new();
    for n in 0..layers {
        let p = format!("model.layers.{n}");
        out.push((format!("{p}.input_layernorm.weight"), vec![2]));
        out.push((format!("{p}.self_attn.q_proj.weight"), vec![2, 2]));
        out.push((format!("{p}.self_attn.k_proj.weight"), vec![1, 2]));
        out.push((format!("{p}.self_attn.v_proj.weight"), vec![1, 2]));
        out.push((format!("{p}.self_attn.o_proj.weight"), vec![2, 2]));
        out.push((format!("{p}.self_attn.q_norm.weight"), vec![1]));
        out.push((format!("{p}.self_attn.k_norm.weight"), vec![1]));
        out.push((format!("{p}.post_attention_layernorm.weight"), vec![2]));
        out.push((format!("{p}.mlp.gate_proj.weight"), vec![3, 2]));
        out.push((format!("{p}.mlp.up_proj.weight"), vec![3, 2]));
        out.push((format!("{p}.mlp.down_proj.weight"), vec![2, 3]));
    }
    out.push(("model.embed_tokens.weight".to_string(), vec![4, 2]));
    out.push(("model.norm.weight".to_string(), vec![2]));
    out
}

/// A safetensors file holding the tensors, the `k`th filled with the value `k`.
fn shard_bytes(tensors: &[(String, Vec<usize>, u16)]) -> Vec<u8> {
    let mut header = String::from("{");
    let mut data = Vec::new();
    for (i, (name, shape, fill)) in tensors.iter().enumerate() {
        let count: usize = shape.iter().product();
        let start = data.len();
        for _ in 0..count {
            data.extend_from_slice(&fill.to_le_bytes());
        }
        let dims: Vec<String> = shape.iter().map(|d| d.to_string()).collect();
        if i > 0 {
            header.push(',');
        }
        header.push_str(&format!(
            "\"{name}\":{{\"dtype\":\"BF16\",\"shape\":[{}],\"data_offsets\":[{start},{}]}}",
            dims.join(","),
            data.len()
        ));
    }
    header.push('}');
    let mut bytes = (header.len() as u64).to_le_bytes().to_vec();
    bytes.extend_from_slice(header.as_bytes());
    bytes.extend_from_slice(&data);
    bytes
}

/// Loads a model whose tensors are spread over two shard files, the way a
/// loader reads them: index, files in order, then the assembly of the whole.
fn load(
    config: &Config,
    index: &str,
    files: &[(&str, Vec<(String, Vec<usize>, u16)>)],
) -> Result<ModelWeights, ModelError> {
    let index = parse(index).unwrap();
    let map = weight_map(&index)?;
    let mut store = TensorStore::new();
    for file in shard_files(map) {
        let (_, tensors) = files.iter().find(|(f, _)| *f == file).unwrap();
        let shard = Shard::parse(shard_bytes(tensors)).unwrap();
        store = collect_shard(map, &file, &shard, store)?;
    }
    assemble(config, store)
}

fn index_of(tensors: &[(String, Vec<usize>)], split: usize) -> String {
    let entries: Vec<String> = tensors
        .iter()
        .enumerate()
        .map(|(i, (name, _))| {
            let file = if i < split { "b.safetensors" } else { "a.safetensors" };
            format!("\"{name}\":\"{file}\"")
        })
        .collect();
    format!("{{\"metadata\":{{}},\"weight_map\":{{{}}}}}", entries.join(","))
}

fn files_of(
    tensors: &[(String, Vec<usize>)],
    split: usize,
) -> Vec<(&'static str, Vec<(String, Vec<usize>, u16)>)> {
    let filled: Vec<(String, Vec<usize>, u16)> = tensors
        .iter()
        .enumerate()
        .map(|(i, (n, s))| (n.clone(), s.clone(), i as u16))
        .collect();
    vec![
        ("b.safetensors", filled[..split].to_vec()),
        ("a.safetensors", filled[split..].to_vec()),
    ]
}

#[test]
fn assemble_takes_every_tensor_in_order() {
    let config = tiny_config(2);
    let tensors = tiny_tensors(2);
    let weights = load(&config, &index_of(&tensors, 10), &files_of(&tensors, 10)).unwrap();
    assert_eq!(weights.layers.len(), 2);
    assert_eq!(weights.layers[0].input_layernorm, [0, 0]);
    assert_eq!(weights.layers[0].q_proj, [1; 4]);
    assert_eq!(weights.layers[0].down_proj, [10; 6]);
    assert_eq!(weights.layers[1].input_layernorm, [11, 11]);
    assert_eq!(weights.layers[1].gate_proj, [19; 6]);
    assert_eq!(weights.layers[1].up_proj, [20; 6]);
    assert_eq!(weights.layers[1].down_proj, [21; 6]);
    assert_eq!(weights.embed_tokens, [22; 8]);
    assert_eq!(weights.norm, [23, 23]);
}

#[test]
fn assemble_reports_a_missing_tensor() {
    let config = tiny_config(1);
    let mut tensors = tiny_tensors(1);
    tensors.remove(3);
    match load(&config, &index_of(&tensors, 5), &files_of(&tensors, 5)) {
        Err(ModelError::MissingTensor(name)) => {
            assert_eq!(name, "model.layers.0.self_attn.v_proj.weight")
        }
        other => panic!("{:?}", other.err()),
    }
}

#[test]
fn assemble_reports_a_wrong_shape() {
    let config = tiny_config(1);
    let mut tensors = tiny_tensors(1);
    tensors[1].1 = vec![4];
    match load(&config, &index_of(&tensors, 5), &files_of(&tensors, 5)) {
        Err(ModelError::Shape(name, found, asked)) => {
            assert_eq!(name, "model.layers.0.self_attn.q_proj.weight");
            assert_eq!(found, [4]);
            assert_eq!(asked, [2, 2]);
        }
        other => panic!("{:?}", other.err()),
    }
}

#[test]
fn assemble_reports_the_least_unused_tensor() {
    let config = tiny_config(1);
    let mut tensors = tiny_tensors(1);
    tensors.push(("z.extra".to_string(), vec![1]));
    tensors.push(("lm_head.weight".to_string(), vec![1]));
    match load(&config, &index_of(&tensors, 5), &files_of(&tensors, 5)) {
        Err(ModelError::Unused(name)) => assert_eq!(name, "lm_head.weight"),
        other => panic!("{:?}", other.err()),
    }
}

#[test]
fn collect_reports_a_tensor_its_shard_lacks() {
    let config = tiny_config(1);
    let tensors = tiny_tensors(1);
    let mut files = files_of(&tensors, 5);
    files[1].1.remove(0);
    match load(&config, &index_of(&tensors, 5), &files) {
        Err(ModelError::NotInShard(name, file)) => {
            assert_eq!(name, "model.layers.0.self_attn.q_norm.weight");
            assert_eq!(file, "a.safetensors");
        }
        other => panic!("{:?}", other.err()),
    }
}

#[test]
fn weight_map_must_be_an_object() {
    for index in [r#"{}"#, r#"{"weight_map":[]}"#, r#"[]"#] {
        let doc = parse(index).unwrap();
        assert!(matches!(weight_map(&doc), Err(ModelError::WeightMap)), "{index}");
    }
}

#[test]
fn shard_files_are_sorted_without_repeats() {
    let index = parse(
        r#"{"weight_map":{"x":"m-2.st","y":"m-1.st","z":"m-2.st","w":7,"v":"m-10.st"}}"#,
    )
    .unwrap();
    let map = weight_map(&index).unwrap();
    assert_eq!(shard_files(map), ["m-1.st", "m-10.st", "m-2.st"]);
}

#[test]
fn names_are_ordered_like_strings() {
    for (a, b) in [("a", "b"), ("", "a"), ("ab", "abc"), ("Z", "a"), ("é", "€"), ("model.layers.10", "model.layers.2")] {
        assert!(str_less(a, b), "{a} < {b}");
        assert!(!str_less(b, a), "{b} < {a}");
        assert_eq!(str_less(a, b), a < b);
    }
    assert!(!str_less("same", "same"));
}

#[test]
fn decimal_text_writes_digits() {
    for n in [0usize, 7, 10, 36, 12345, usize::MAX] {
        assert_eq!(decimal_text(n), n.to_string());
    }
}

#[test]
fn store_keeps_one_tensor_per_name_and_gives_the_least_name() {
    let bytes = shard_bytes(&[
        ("b".to_string(), vec![1], 1),
        ("a".to_string(), vec![1], 2),
        ("c".to_string(), vec![1], 3),
    ]);
    let shard = Shard::parse(bytes).unwrap();
    let mut store = TensorStore::new();
    assert!(store.first_name().is_none());
    store.insert("b".to_string(), shard.tensor("b").unwrap());
    store.insert("c".to_string(), shard.tensor("c").unwrap());
    store.insert("a".to_string(), shard.tensor("a").unwrap());
    store.insert("b".to_string(), shard.tensor("c").unwrap());
    assert_eq!(store.first_name(), Some("a"));
    assert_eq!(store.take("b").unwrap().bf16, [3]);
    assert!(store.take("b").is_none());
    assert_eq!(store.take("a").unwrap().bf16, [2]);
    assert_eq!(store.first_name(), Some("c"));
}

#[test]
fn assembled_weights_hold_as_many_values_as_their_shapes() {
    let config = tiny_config(2);
    let tensors = tiny_tensors(2);
    let weights = load(&config, &index_of(&tensors, 13), &files_of(&tensors, 13)).unwrap();
    assert_eq!(weights.embed_tokens.len(), 4 * 2);
    assert_eq!(weights.norm.len(), 2);
    for layer in &weights.layers {
        assert_eq!(layer.input_layernorm.len(), 2);
        assert_eq!(layer.q_proj.len(), 2 * 2);
        assert_eq!(layer.k_proj.len(), 2);
        assert_eq!(layer.v_proj.len(), 2);
        assert_eq!(layer.o_proj.len(), 2 * 2);
        assert_eq!(layer.q_norm.len(), 1);
        assert_eq!(layer.k_norm.len(), 1);
        assert_eq!(layer.post_attention_layernorm.len(), 2);
        assert_eq!(layer.gate_proj.len(), 3 * 2);
        assert_eq!(layer.up_proj.len(), 3 * 2);
        assert_eq!(layer.down_proj.len(), 2 * 3);
    }
}

#[test]
fn members_that_name_no_file_are_ignored() {
    let config = tiny_config(1);
    let tensors = tiny_tensors(1);
    let index = index_of(&tensors, 5).replacen("\"weight_map\":{", "\"weight_map\":{\"note\":7,", 1);
    let weights = load(&config, &index, &files_of(&tensors, 5)).unwrap();
    assert_eq!(weights.layers.len(), 1);
    assert_eq!(weights.norm, [12, 12]);
}

#[test]
fn a_name_placed_twice_is_taken_from_the_last_file_read() {
    let config = tiny_config(1);
    let tensors = tiny_tensors(1);
    let index = index_of(&tensors, 5).replacen(
        "\"weight_map\":{",
        "\"weight_map\":{\"model.norm.weight\":\"b.safetensors\",",
        1,
    );
    let mut files = files_of(&tensors, 5);
    files[0].1.push(("model.norm.weight".to_string(), vec![2], 99));
    let weights = load(&config, &index, &files).unwrap();
    assert_eq!(weights.norm, [99, 99]);

    files[0].1.pop();
    files[0].1.push(("model.norm.weight".to_string(), vec![3], 99));
    match load(&config, &index, &files) {
        Err(ModelError::Shape(name, found, asked)) => {
            assert_eq!(name, "model.norm.weight");
            assert_eq!(found, [3]);
            assert_eq!(asked, [2]);
        }
        other => panic!("{:?}", other.err()),
    }
}
