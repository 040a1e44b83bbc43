use half::f16;
use rullm::huggingface::awq::awq_wording;
use rullm::huggingface::chat::{
    load_qwen_chat_template, render_qwen2_chat_messages, validate_qwen2_chat_template,
};
use rullm::huggingface::checkpoint::{checkpoint_wording, Checkpoint};
use rullm::huggingface::config::{
    convert_config, convert_qwen2_config, convert_token_ids, load_generation_eos_token_ids,
    HuggingFaceLlamaConfig, HuggingFaceTokenIds,
};
use rullm::huggingface::directory::{LlamaSteps, Qwen2Steps, ShardFailure, Supplied};
use rullm::huggingface::files::{
    check_shard_location, check_shard_name, discover_weight_files, shard_names, ShardLookup,
};
use rullm::huggingface::keys::parameter_path;
use rullm::huggingface::loading::{
    expected_qwen2_tensor_paths, expected_tensor_paths, rotary_plan, Family, RotaryPlan,
};
use rullm::huggingface::tensors::{DType, Inventory, TensorInfo};
use rullm::names::NameMap;
use rullm::{
    load_huggingface_llama, load_huggingface_qwen2, AwqCheckpoint, AwqQuantizationConfig,
    HuggingFaceLoadError, LlamaConfig, LlamaForCausalLm, LoadedHuggingFaceLlama,
    LoadedHuggingFaceQwen2, Qwen2ChatMessage, Qwen2ChatRole,
};
use serde_json::Value;
use std::path::PathBuf;

const QWEN_05B_CONFIG: &str = r#"{
    "architectures": ["Qwen2ForCausalLM"],
    "attention_dropout": 0.0,
    "eos_token_id": 151643,
    "hidden_act": "silu",
    "hidden_size": 896,
    "intermediate_size": 4864,
    "max_position_embeddings": 32768,
    "model_type": "qwen2",
    "num_attention_heads": 14,
    "num_hidden_layers": 24,
    "num_key_value_heads": 2,
    "rms_norm_eps": 1e-6,
    "rope_theta": 1000000.0,
    "tie_word_embeddings": true,
    "use_mrope": false,
    "use_sliding_window": false,
    "vocab_size": 151936
}"#;

fn parsed(text: &str) -> Value {
    serde_json::from_str(text).unwrap()
}

fn text_field(value: &Value, name: &str) -> Option<String> {
    value.get(name).and_then(Value::as_str).map(str::to_string)
}

fn number_field(value: &Value, name: &str) -> Option<usize> {
    value.get(name).and_then(Value::as_u64).map(|number| number as usize)
}

fn flag_field(value: &Value, name: &str) -> Option<bool> {
    value.get(name).and_then(Value::as_bool)
}

fn float_field(value: &Value, name: &str) -> Option<f64> {
    value.get(name).and_then(Value::as_f64)
}

fn source(value: &Value) -> HuggingFaceLlamaConfig {
    HuggingFaceLlamaConfig {
        model_type: text_field(value, "model_type"),
        architectures: value.get("architectures").and_then(Value::as_array).map(|names| {
            names.iter().map(|name| name.as_str().unwrap().to_string()).collect()
        }),
        vocab_size: number_field(value, "vocab_size").unwrap(),
        hidden_size: number_field(value, "hidden_size").unwrap(),
        intermediate_size: number_field(value, "intermediate_size").unwrap(),
        num_hidden_layers: number_field(value, "num_hidden_layers").unwrap(),
        num_attention_heads: number_field(value, "num_attention_heads").unwrap(),
        num_key_value_heads: number_field(value, "num_key_value_heads"),
        max_position_embeddings: number_field(value, "max_position_embeddings").unwrap(),
        rms_norm_eps: float_field(value, "rms_norm_eps").unwrap().to_bits(),
        rope_theta: float_field(value, "rope_theta").map(|theta| (theta as f32).to_bits()),
        rope_scaling: value.get("rope_scaling").is_some_and(|field| !field.is_null()),
        rope_parameters: value.get("rope_parameters").is_some_and(|field| !field.is_null()),
        hidden_act: text_field(value, "hidden_act"),
        attention_bias: flag_field(value, "attention_bias"),
        mlp_bias: flag_field(value, "mlp_bias"),
        attention_dropout: float_field(value, "attention_dropout").map(f64::to_bits),
        tie_word_embeddings: flag_field(value, "tie_word_embeddings"),
        head_dim: number_field(value, "head_dim"),
        eos_token_id: value.get("eos_token_id").map(|field| match field.as_array() {
            Some(ids) => HuggingFaceTokenIds::Many(
                ids.iter().map(|id| id.as_i64().unwrap()).collect(),
            ),
            None => HuggingFaceTokenIds::One(field.as_i64().unwrap()),
        }),
        use_sliding_window: flag_field(value, "use_sliding_window"),
        use_mrope: flag_field(value, "use_mrope"),
    }
}

#[test]
fn qwen_05b_config_maps_exact_geometry_and_bias_paths() {
    let (config, tied, eos) = convert_qwen2_config(source(&parsed(QWEN_05B_CONFIG))).unwrap();
    assert_eq!(config.vocab_size, 151936);
    assert_eq!(config.d_model, 896);
    assert_eq!(config.d_ff, 4864);
    assert_eq!(config.num_hidden_layers, 24);
    assert_eq!(config.num_query_heads, 14);
    assert_eq!(config.num_kv_heads, 2);
    assert_eq!(config.head_dimension(), 64);
    assert_eq!(f32::from_bits(config.rope_theta), 1_000_000.0);
    assert!(tied);
    assert_eq!(eos, vec![151643]);
    let expected = expected_qwen2_tensor_paths(24, tied);
    assert!(expected.contains("layers.0.self_attn.q_proj.bias"));
    assert!(expected.contains("layers.23.self_attn.k_proj.bias"));
    assert!(expected.contains("layers.23.self_attn.v_proj.bias"));
    assert!(!expected.contains("lm_head.weight"));
}

#[test]
fn qwen_adapter_rejects_unimplemented_sliding_attention() {
    let mut value = parsed(QWEN_05B_CONFIG);
    value["use_sliding_window"] = Value::Bool(true);
    let error = convert_qwen2_config(source(&value)).unwrap_err();
    assert!(error.0.contains("sliding-window"));
}

#[test]
fn qwen_chat_renders_official_no_tools_branch() {
    let prompt =
        render_qwen2_chat_messages(&[Qwen2ChatMessage::new(Qwen2ChatRole::User, "你好")], true)
            .unwrap();
    assert_eq!(
        prompt,
        "<|im_start|>system\nYou are a helpful assistant.<|im_end|>\n<|im_start|>user\n你好<|im_end|>\n<|im_start|>assistant\n"
    );
}

#[test]
fn qwen_adapter_requires_qkv_bias_declaration() {
    let mut value = parsed(QWEN_05B_CONFIG);
    value["attention_bias"] = Value::Bool(false);
    let error = convert_qwen2_config(source(&value)).unwrap_err();
    assert!(error.0.contains("attention_bias=true"));
}

#[test]
fn other_architectures_are_refused_by_name() {
    let message = |name: &str, field: Value| {
        let mut value = parsed(QWEN_05B_CONFIG);
        value[name] = field;
        convert_qwen2_config(source(&value)).unwrap_err().to_string()
    };
    assert_eq!(
        message("model_type", Value::from("llama")),
        "model_type Some(\"llama\") is not Qwen2"
    );
    assert_eq!(
        message("architectures", Value::from(vec!["A", "B"])),
        "architectures Some([\"A\", \"B\"]) do not contain Qwen2ForCausalLM"
    );
    assert_eq!(
        message("hidden_act", Value::from("gelu")),
        "Ruda Qwen2 requires hidden_act=silu, got Some(\"gelu\")"
    );
}

#[test]
fn llama_configurations_are_converted_without_biases() {
    let mut value = parsed(QWEN_05B_CONFIG);
    value["model_type"] = Value::from("llama");
    value["architectures"] = Value::from(vec!["LlamaForCausalLM"]);
    let (config, _, _) = convert_config(source(&value)).unwrap();
    assert_eq!(config.num_kv_heads, 2);
    value["attention_bias"] = Value::Bool(true);
    assert_eq!(
        convert_config(source(&value)).unwrap_err().to_string(),
        "Ruda Llama does not implement attention or MLP projection biases"
    );
    value["attention_bias"] = Value::Bool(false);
    value["rope_scaling"] = Value::from(vec![1]);
    assert!(convert_config(source(&value)).is_err());
}

#[test]
fn end_tokens_come_from_the_generation_configuration_first() {
    let many = || Some(HuggingFaceTokenIds::Many(vec![7, 2, 7]));
    assert_eq!(convert_token_ids(many(), 24).unwrap(), vec![2, 7]);
    assert_eq!(convert_token_ids(None, 24).unwrap(), Vec::<i32>::new());
    assert!(convert_token_ids(Some(HuggingFaceTokenIds::One(24)), 24).is_err());
    assert!(convert_token_ids(Some(HuggingFaceTokenIds::One(-1)), 24).is_err());
    assert_eq!(
        load_generation_eos_token_ids(Some(many()), 24, vec![23]).unwrap(),
        vec![2, 7]
    );
    assert_eq!(load_generation_eos_token_ids(Some(None), 24, vec![23]).unwrap(), vec![23]);
    assert_eq!(load_generation_eos_token_ids(None, 24, vec![23]).unwrap(), vec![23]);
}

#[test]
fn chat_keeps_a_system_message_that_is_given() {
    let messages = [
        Qwen2ChatMessage::new(Qwen2ChatRole::System, "s"),
        Qwen2ChatMessage::new(Qwen2ChatRole::User, "u"),
        Qwen2ChatMessage::new(Qwen2ChatRole::Assistant, "a"),
    ];
    assert_eq!(
        render_qwen2_chat_messages(&messages, false).unwrap(),
        "<|im_start|>system\ns<|im_end|>\n<|im_start|>user\nu<|im_end|>\n<|im_start|>assistant\na<|im_end|>\n"
    );
    assert!(render_qwen2_chat_messages(&[], true).is_err());
}

#[test]
fn templates_of_another_form_are_refused() {
    let template = "{% for message in messages %}{{ '<|im_start|>' + message.role + '\\n' + message.content + '<|im_end|>\\n' }}{% endfor %}{% if add_generation_prompt %}{{ '<|im_start|>assistant\\n' }}{% endif %}";
    assert_eq!(
        load_qwen_chat_template("t.json", None).unwrap_err().to_string(),
        "Qwen tokenizer config t.json does not contain chat_template"
    );
    assert!(validate_qwen2_chat_template("unsupported")
        .unwrap_err()
        .0
        .contains("supported plain-message ChatML"));
    assert_eq!(
        load_qwen_chat_template("t.json", Some(template.to_string())).unwrap(),
        template
    );
}

#[test]
fn shard_names_stay_in_the_model_directory() {
    for name in ["a.safetensors", "deep/b.safetensors", "./c.safetensors"] {
        assert!(check_shard_name(name).is_ok(), "{name}");
    }
    for name in ["../a.safetensors", "a/../../b", "/etc/passwd"] {
        assert!(check_shard_name(name).is_err(), "{name}");
    }
    let part = |text: &str| text.as_bytes().to_vec();
    let directory = vec![part("/"), part("model")];
    let inside = vec![part("/"), part("model"), part("a")];
    let outside = vec![part("/"), part("models"), part("a")];
    assert!(check_shard_location(&directory, &inside, "/model/a").is_ok());
    assert_eq!(
        check_shard_location(&directory, &outside, "/models/a").unwrap_err().to_string(),
        "Safetensors shard resolves outside the model directory: /models/a"
    );
    let entry = |tensor: &str, shard: &str| (tensor.to_string(), shard.to_string());
    let map = vec![entry("x", "b"), entry("y", "a"), entry("z", "b")];
    assert_eq!(shard_names("index", &map).unwrap(), vec!["a", "b"]);
    assert!(shard_names("index", &vec![]).is_err());
}

fn names(values: &[&str]) -> Vec<String> {
    values.iter().map(|value| value.to_string()).collect()
}

fn tiny() -> LlamaConfig {
    LlamaConfig {
        vocab_size: 16,
        d_model: 8,
        d_ff: 16,
        num_hidden_layers: 1,
        num_query_heads: 2,
        num_kv_heads: 1,
        max_sequence_length: 8,
        rms_norm_epsilon: 1.0e-6_f64.to_bits(),
        rope_theta: 10_000.0_f32.to_bits(),
    }
}

fn all_names(family: Family, tied: bool) -> Vec<String> {
    family.expected(1, tied).entries.into_iter().map(|(name, _)| name).collect()
}

fn tiny_source(family: Family, tied: bool) -> HuggingFaceLlamaConfig {
    let config = tiny();
    let (model_type, architecture) = match family {
        Family::Llama => ("llama", "LlamaForCausalLM"),
        Family::Qwen2 => ("qwen2", "Qwen2ForCausalLM"),
    };
    HuggingFaceLlamaConfig {
        model_type: Some(model_type.into()),
        architectures: Some(names(&[architecture])),
        vocab_size: config.vocab_size,
        hidden_size: config.d_model,
        intermediate_size: config.d_ff,
        num_hidden_layers: config.num_hidden_layers,
        num_attention_heads: config.num_query_heads,
        num_key_value_heads: Some(config.num_kv_heads),
        max_position_embeddings: config.max_sequence_length,
        rms_norm_eps: config.rms_norm_epsilon,
        rope_theta: Some(config.rope_theta),
        rope_scaling: false,
        rope_parameters: false,
        hidden_act: None,
        attention_bias: None,
        mlp_bias: None,
        attention_dropout: None,
        tie_word_embeddings: Some(tied),
        head_dim: None,
        eos_token_id: Some(HuggingFaceTokenIds::One(3)),
        use_sliding_window: None,
        use_mrope: None,
    }
}

/// What happened to a model, step by step.
type Log = Vec<String>;

fn noted(mut log: Log, step: &str) -> Log {
    log.push(step.to_string());
    log
}

/// Weight files by their names: what each supplies, or why it cannot be loaded.
fn load_from(
    shards: Vec<(&str, Result<(Vec<String>, Vec<String>), &str>)>,
) -> impl Fn(Log, &PathBuf) -> (Log, Result<Supplied, ShardFailure>) {
    let shards: Vec<(String, Result<(Vec<String>, Vec<String>), String>)> = shards
        .into_iter()
        .map(|(name, answer)| (name.to_string(), answer.map_err(str::to_string)))
        .collect();
    move |log, file| {
        let shown = file.display().to_string();
        let (_, answer) = shards.iter().find(|(name, _)| *name == shown).unwrap();
        let answer = match answer.clone() {
            Ok((applied, unused)) => Ok(Supplied { applied, unused }),
            Err(reason) => Err(ShardFailure { shown: shown.clone(), reason }),
        };
        (noted(log, &shown), answer)
    }
}

fn load_llama(
    tied: bool,
    files: &[&str],
    shards: Vec<(&str, Result<(Vec<String>, Vec<String>), &str>)>,
    synced: Result<(), String>,
) -> Result<LoadedHuggingFaceLlama<Log>, HuggingFaceLoadError> {
    load_huggingface_llama(
        PathBuf::from("config.json"),
        tiny_source(Family::Llama, tied),
        LlamaSteps {
            find_files: || Ok(files.iter().map(PathBuf::from).collect()),
            build: |shape: LlamaForCausalLm| vec![format!("{} layers", shape.layers.len())],
            load: load_from(shards),
            tie: |log: Log| noted(log, "tied"),
            sync: || synced,
        },
    )
}

#[test]
fn every_expected_tensor_is_loaded_once() {
    assert!(expected_tensor_paths(2, false).contains("lm_head.weight"));
    assert!(!expected_tensor_paths(2, false).contains("layers.0.self_attn.q_proj.bias"));

    let all = all_names(Family::Llama, false);
    let (first, second) = all.split_at(4);
    let halves = || {
        vec![
            ("a", Ok((first.to_vec(), vec![]))),
            ("b", Ok((second.to_vec(), vec![]))),
        ]
    };
    let loaded = load_llama(false, &["a", "b"], halves(), Ok(())).unwrap();
    assert_eq!(loaded.model, ["1 layers", "a", "b"]);
    assert_eq!(loaded.config, tiny());
    assert_eq!(loaded.default_eos_token_ids, vec![3]);
    assert_eq!(loaded.report.config_path, PathBuf::from("config.json"));
    assert_eq!(loaded.report.weight_files, ["a", "b"].map(PathBuf::from));
    assert_eq!(loaded.report.applied_tensors, all.len());
    assert!(!loaded.report.tied_word_embeddings);

    let tied = all_names(Family::Llama, true);
    let head = names(&["lm_head.weight"]);
    let loaded = load_llama(true, &["a"], vec![("a", Ok((tied, head)))], Ok(())).unwrap();
    assert_eq!(loaded.model, ["1 layers", "a", "tied"]);
    assert!(loaded.report.tied_word_embeddings);

    let message = |files: &[&str], shards| load_llama(false, files, shards, Ok(())).unwrap_err().0;
    assert_eq!(
        message(&["a", "c"], vec![("a", Ok((first.to_vec(), vec![]))), ("c", Err("short read"))]),
        "cannot load Hugging Face shard c: short read"
    );
    assert_eq!(
        message(&["a", "a"], halves()),
        format!("tensor {} was supplied by more than one Safetensors shard", first[0])
    );
    assert_eq!(
        message(&["b"], halves()),
        format!("Hugging Face model is missing Ruda Llama tensors: {}", first.join(", "))
    );
    assert_eq!(
        message(&["a"], vec![("a", Ok((all.clone(), names(&["surplus"]))))]),
        "Hugging Face model contains tensors not represented by Ruda Llama: surplus"
    );
    assert_eq!(
        load_llama(false, &["a", "b"], halves(), Err("lost".into())).unwrap_err().0,
        "Ruda weight upload did not complete: lost"
    );
    let mut wrong = tiny_source(Family::Llama, false);
    wrong.hidden_act = Some("gelu".into());
    let error = load_huggingface_llama(
        PathBuf::new(),
        wrong,
        LlamaSteps {
            find_files: || panic!("nothing is read for a variant that is not supported"),
            build: |_: LlamaForCausalLm| -> Log { vec![] },
            load: load_from(vec![]),
            tie: |log: Log| log,
            sync: || Ok(()),
        },
    )
    .unwrap_err();
    assert!(error.0.contains("hidden_act=silu"));
}

fn load_qwen2(
    generation: Result<Option<Option<HuggingFaceTokenIds>>, HuggingFaceLoadError>,
    applied: Vec<String>,
    synced: Result<(), String>,
) -> Result<LoadedHuggingFaceQwen2<Log>, HuggingFaceLoadError> {
    load_huggingface_qwen2(
        PathBuf::from("config.json"),
        tiny_source(Family::Qwen2, false),
        Qwen2Steps {
            read_generation: || generation,
            find_files: || Ok(vec![PathBuf::from("a")]),
            build: |shape: LlamaForCausalLm| {
                vec![format!("bias {:?}", shape.layers[0].self_attn.q_proj.bias)]
            },
            load: load_from(vec![("a", Ok((applied, vec![])))]),
            tie: |log: Log| noted(log, "tied"),
            layer_types: |_: &Log| vec![(DType::BF16, DType::F32)],
            set_tables: |log: Log, plan: RotaryPlan| {
                noted(log, &format!("{:?} {:?}", plan.build, plan.layers))
            },
            sync: || synced,
        },
    )
}

#[test]
fn qwen2_directories_have_biases_end_tokens_and_tables_of_their_own() {
    let all = all_names(Family::Qwen2, false);
    let loaded = load_qwen2(Ok(None), all.clone(), Ok(())).unwrap();
    assert_eq!(loaded.model, ["bias Some(8)", "a", "[BF16] [Some(0)]"]);
    assert_eq!(loaded.default_eos_token_ids, vec![3]);
    let ids = Some(Some(HuggingFaceTokenIds::Many(vec![9, 5])));
    let loaded = load_qwen2(Ok(ids), all.clone(), Ok(())).unwrap();
    assert_eq!(loaded.default_eos_token_ids, vec![5, 9]);
    let without: Vec<String> =
        all.iter().filter(|name| !name.ends_with("q_proj.bias")).cloned().collect();
    assert_eq!(
        load_qwen2(Ok(None), without, Ok(())).unwrap_err().0,
        "Hugging Face model is missing Ruda Qwen2 tensors: layers.0.self_attn.q_proj.bias"
    );
    let refused = load_qwen2(Err(HuggingFaceLoadError("cannot parse".into())), vec![], Ok(()));
    assert_eq!(refused.unwrap_err().0, "cannot parse");
    let outside = Some(Some(HuggingFaceTokenIds::One(16)));
    assert_eq!(
        load_qwen2(Ok(outside), all.clone(), Ok(())).unwrap_err().0,
        "eos_token_id 16 is outside vocabulary [0, 16)"
    );
    assert_eq!(
        load_qwen2(Ok(None), all, Err("lost".into())).unwrap_err().0,
        "Ruda Qwen2 weight upload did not complete: lost"
    );
}

#[test]
fn one_rotary_table_serves_layers_of_one_type() {
    let plan = rotary_plan(&[
        (DType::BF16, DType::F32),
        (DType::F32, DType::F32),
        (DType::BF16, DType::F32),
    ]);
    assert_eq!(plan.build, vec![DType::BF16]);
    assert_eq!(plan.layers, vec![Some(0), None, Some(0)]);
}

fn quantization() -> AwqQuantizationConfig {
    AwqQuantizationConfig {
        quant_method: "awq".into(),
        bits: 4,
        group_size: -1,
        zero_point: true,
        version: "GEMM".into(),
        modules_to_not_convert: Some(vec!["lm_head".into()]),
    }
}

#[test]
fn awq_configuration_rejects_other_formats_and_keeps_full_channel_groups() {
    let mut config = AwqQuantizationConfig {
        quant_method: "awq".into(),
        bits: 4,
        group_size: -1,
        zero_point: true,
        version: "GEMM".into(),
        modules_to_not_convert: None,
    };
    assert_eq!(config.layout(128, 16).unwrap().group_size, 128);
    config.group_size = 0;
    assert!(config.validate().is_err());
    config.group_size = 32;
    config.version = "gemv".into();
    assert!(config.validate().is_err());
    config.version = "gemm".into();
    config.bits = 8;
    assert!(config.validate().is_err());
    config.bits = 4;
    config.zero_point = false;
    assert!(config.validate().is_err());
}

type Stored = (String, TensorInfo);

fn stored(name: &str, dtype: DType, shape: &[usize]) -> Stored {
    (name.to_string(), TensorInfo { dtype, shape: shape.to_vec() })
}

fn projection() -> Vec<Stored> {
    vec![
        stored("model.proj.qweight", DType::I32, &[2, 1]),
        stored("model.proj.qzeros", DType::I32, &[1, 1]),
        stored("model.proj.scales", DType::F16, &[1, 8]),
    ]
}

fn single_file(tensors: Vec<Stored>) -> Inventory {
    let mut inventory = Inventory::new(None);
    inventory.add_shard(b"model.safetensors", tensors, &awq_wording()).unwrap();
    inventory
}

fn open(inventory: Inventory) -> Result<AwqCheckpoint, HuggingFaceLoadError> {
    AwqCheckpoint::open(PathBuf::from("model"), quantization(), vec![], inventory)
}

#[test]
fn awq_checkpoint_keeps_packed_bytes_and_executes_native_projection() {
    let checkpoint = open(single_file(projection())).unwrap();
    let words = vec![0x75316420_u32, 0xfdb9eca8_u32];
    let packed = checkpoint.tensor_data("model.proj.qweight", Ok(words)).unwrap();
    assert_eq!(checkpoint.tensor_info("model.proj.qweight").unwrap().dtype, DType::I32);
    assert_eq!(packed, vec![0x75316420, 0xfdb9eca8]);
    let linear = checkpoint.load_linear("model.proj", 2, 8, false, &Ok(1)).unwrap();
    assert_eq!(linear.qweight, "model.proj.qweight");
    assert_eq!(linear.qzeros, "model.proj.qzeros");
    assert_eq!(linear.scales, "model.proj.scales");
    assert_eq!(linear.bias, None);
    assert_eq!(linear.group_size, 2);
    let zeros = 0x11111111_u32;
    let scale = f16::from_f32(0.5);
    let input = [f16::from_f32(1.0), f16::from_f32(2.0)];
    let nibble = |word: u32, column: usize| {
        let position = [0, 4, 1, 5, 2, 6, 3, 7][column];
        ((word >> (4 * position)) & 15) as f32
    };
    let actual: Vec<f16> = (0..8)
        .map(|column| {
            let total: f32 = (0..2)
                .map(|row| {
                    input[row].to_f32()
                        * (nibble(packed[row], column) - nibble(zeros, column))
                        * scale.to_f32()
                })
                .sum();
            f16::from_f32(total)
        })
        .collect();
    let expected: Vec<f16> =
        (0..8).map(|column| f16::from_f32(1.5 * column as f32 + 6.5)).collect();
    assert_eq!(actual, expected);
}

#[test]
fn awq_checkpoint_loads_split_projection_and_checks_index_ownership() {
    let index = |qweight: &str| {
        let mut map: NameMap<Vec<u8>> = NameMap::new();
        map.insert("model.proj.qweight".to_string(), qweight.as_bytes().to_vec());
        map.insert("model.proj.qzeros".to_string(), b"b.safetensors".to_vec());
        map.insert("model.proj.scales".to_string(), b"b.safetensors".to_vec());
        Some(map)
    };
    let words = awq_wording();
    let mut second = projection();
    let first = vec![second.remove(0)];
    let mut inventory = Inventory::new(index("a.safetensors"));
    inventory.add_shard(b"a.safetensors", first, &words).unwrap();
    inventory.add_shard(b"b.safetensors", second, &words).unwrap();
    let files = vec![PathBuf::from("a.safetensors"), PathBuf::from("b.safetensors")];
    let checkpoint =
        AwqCheckpoint::open(PathBuf::from("model"), quantization(), files, inventory).unwrap();
    assert_eq!(checkpoint.weight_files().len(), 2);
    assert_eq!(checkpoint.tensor_names().len(), 3);
    let mut misplaced = Inventory::new(index("b.safetensors"));
    let first = vec![projection().remove(0)];
    assert!(misplaced.add_shard(b"a.safetensors", first, &words).is_err());
}

#[test]
fn awq_checkpoint_rejects_missing_or_malformed_projection_before_upload() {
    let mut tensors = projection();
    tensors[2].1.shape = vec![2, 4];
    let checkpoint = open(single_file(tensors)).unwrap();
    assert!(checkpoint.load_linear("model.proj", 2, 8, false, &Ok(1)).is_err());
    assert!(checkpoint.load_linear("absent", 2, 8, false, &Ok(1)).is_err());
    assert_eq!(
        checkpoint.tensor_data::<()>("absent", Ok(())).unwrap_err().to_string(),
        "missing checkpoint tensor: absent"
    );
    assert_eq!(
        checkpoint
            .tensor_data::<()>("model.proj.qzeros", Err("cut short".to_string()))
            .unwrap_err()
            .to_string(),
        "model.proj.qzeros: cut short"
    );
    assert_eq!(
        checkpoint
            .load_linear("model.proj", 2, 8, false, &Ok(1))
            .unwrap_err()
            .to_string(),
        "model.proj.scales: expected F16 [1, 8], found F16 [2, 4]"
    );
}

#[test]
fn inventories_report_absent_and_repeated_tensors() {
    let words = checkpoint_wording();
    let mut map: NameMap<Vec<u8>> = NameMap::new();
    map.insert("x".to_string(), b"a".to_vec());
    map.insert("y".to_string(), b"a".to_vec());
    let mut inventory = Inventory::new(Some(map));
    inventory.add_shard(b"a", vec![stored("y", DType::F32, &[1])], &words).unwrap();
    assert_eq!(
        inventory
            .add_shard(b"a", vec![stored("y", DType::F32, &[1])], &words)
            .unwrap_err()
            .to_string(),
        "duplicate tensor y"
    );
    assert_eq!(
        inventory
            .add_shard(b"a", vec![stored("z", DType::F32, &[1])], &words)
            .unwrap_err()
            .to_string(),
        "unindexed tensor z"
    );
    assert_eq!(
        inventory
            .add_shard(b"b", vec![stored("x", DType::F32, &[1])], &words)
            .unwrap_err()
            .to_string(),
        "wrong shard for x"
    );
    match Checkpoint::open(vec![], inventory) {
        Ok(_) => panic!("x is absent"),
        Err(error) => assert_eq!(error.to_string(), "missing indexed tensor x"),
    }
}

#[test]
fn checkpoint_tensors_have_the_expected_shape_and_floating_elements() {
    let mut inventory = Inventory::new(None);
    let tensors = vec![
        stored("weight", DType::BF16, &[2, 3]),
        stored("count", DType::I64, &[2, 3]),
    ];
    inventory.add_shard(b"a", tensors, &checkpoint_wording()).unwrap();
    let mut checkpoint = match Checkpoint::open(vec![], inventory) {
        Ok(checkpoint) => checkpoint,
        Err(error) => panic!("{}", error.to_string()),
    };
    assert_eq!(
        checkpoint.tensor("weight", &[2, 3], Ok(vec![1, 2])).unwrap(),
        (vec![1, 2], DType::BF16)
    );
    assert!(checkpoint.consumed.contains("weight"));
    assert_eq!(
        checkpoint.tensor("count", &[2, 3], Ok(())).unwrap_err().to_string(),
        "count: expected floating [2, 3], found I64 [2, 3]"
    );
    assert_eq!(
        checkpoint.tensor("weight", &[6], Ok(())).unwrap_err().to_string(),
        "weight: expected floating [6], found BF16 [2, 3]"
    );
    assert_eq!(
        checkpoint.tensor("other", &[6], Ok(())).unwrap_err().to_string(),
        "missing tensor other"
    );
    assert_eq!(
        checkpoint
            .tensor::<()>("weight", &[2, 3], Err("truncated".to_string()))
            .unwrap_err()
            .to_string(),
        "weight: truncated"
    );
    assert!(!checkpoint.consumed.contains("count"));
}

#[test]
fn checkpoint_names_become_model_paths() {
    for (name, path) in [
        ("model.embed_tokens.weight", "embed_tokens.weight"),
        ("lm_head.weight", "lm_head.weight"),
        ("model.norm.weight", "norm.gamma"),
        ("norm.weight", "norm.gamma"),
        ("model.layers.12.input_layernorm.weight", "layers.12.input_layernorm.gamma"),
        (
            "model.layers.3.post_attention_layernorm.weight",
            "layers.3.post_attention_layernorm.gamma",
        ),
        ("model.layers.0.self_attn.q_proj.weight", "layers.0.self_attn.q_proj.weight"),
        ("model.model.norm.weight", "model.norm.weight"),
        ("input_layernorm.weight", "input_layernorm.weight"),
        ("model.a\nb.input_layernorm.weight", "a\nb.input_layernorm.weight"),
        ("visual.norm.weight", "visual.norm.weight"),
    ] {
        assert_eq!(parameter_path(name), path);
    }
}

#[test]
fn weight_files_are_found_alone_or_by_their_index() {
    let directory = vec![b"/".to_vec(), b"models".to_vec()];
    let index = |pairs: &[(&str, &str)]| -> Vec<(String, String)> {
        pairs.iter().map(|(tensor, shard)| (tensor.to_string(), shard.to_string())).collect()
    };
    let found = |name: &String| match name.as_str() {
        "gone" => ShardLookup::Missing("/models/gone".into()),
        "locked" => ShardLookup::Failed("permission denied".into()),
        "link" => ShardLookup::Found {
            components: vec![b"/".to_vec(), b"tmp".to_vec()],
            shown: "/tmp/link".into(),
            path: PathBuf::from("/tmp/link"),
        },
        name => ShardLookup::Found {
            components: vec![b"/".to_vec(), b"models".to_vec(), name.as_bytes().to_vec()],
            shown: format!("/models/{name}"),
            path: PathBuf::from("/models").join(name),
        },
    };
    let discover = |pairs: &[(&str, &str)]| {
        let weight_map = index(pairs);
        discover_weight_files(None, "/models/index", &directory, || Ok(weight_map), found)
    };
    let single = PathBuf::from("/models/model.safetensors");
    let unread = || -> Result<Vec<(String, String)>, HuggingFaceLoadError> {
        panic!("the index is not read where there is a single file")
    };
    assert_eq!(
        discover_weight_files(Some(single.clone()), "index", &directory, unread, found).unwrap(),
        vec![single]
    );
    assert_eq!(
        discover(&[("x", "b"), ("y", "a"), ("z", "b")]).unwrap(),
        vec![PathBuf::from("/models/a"), PathBuf::from("/models/b")]
    );
    let message = |pairs: &[(&str, &str)]| discover(pairs).unwrap_err().0;
    assert_eq!(message(&[]), "/models/index contains an empty weight_map");
    assert_eq!(
        message(&[("x", "../a")]),
        "Safetensors index contains an unsafe shard path: ../a"
    );
    assert_eq!(message(&[("x", "gone")]), "Safetensors shard does not exist: /models/gone");
    assert_eq!(message(&[("x", "locked")]), "permission denied");
    assert_eq!(
        message(&[("x", "link"), ("y", "gone2")]),
        "Safetensors shard resolves outside the model directory: /tmp/link"
    );
    let broken = || Err(HuggingFaceLoadError("cannot read /models/index".into()));
    assert_eq!(
        discover_weight_files(None, "/models/index", &directory, broken, found).unwrap_err().0,
        "cannot read /models/index"
    );
}
