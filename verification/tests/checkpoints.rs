//! Checkpoints: their files, configuration, tensors, temperatures and devices.

use laya::agent::{head_count, layer_indices, remap_key, verify, verify_layout};
use laya::calibration::{clamp_temperature, temp_bucket, Calibration, TEMP_MAX, TEMP_MIN};
use laya::checkpoint::{
    cache_place, choose_token, hub_label, Assembly, CachePlace, Checkpoint, Fetched, HubOptions,
    Source, Step, FILES, TOKENIZER_CONFIG, WEIGHTS,
};
use laya::config::{encoder_config, AgentConfig};
use laya::device::{DeviceChoice, Opening};
use laya::error::Error;
use laya::float::Float;
use laya::json::{Decimal, Number, Value};
use laya::question::QType;

fn text(s: &str) -> Value {
    Value::String(s.to_string())
}

fn object(fields: Vec<(&str, Value)>) -> Value {
    Value::Object(fields.into_iter().map(|(k, v)| (k.to_string(), v)).collect())
}

fn whole(n: u64) -> Value {
    Value::Number(Number::PosInt(n))
}

fn float(digits: &str, exponent: i32) -> Value {
    Value::Number(Number::Float(Decimal {
        negative: false,
        digits: digits.to_string(),
        exponent,
    }))
}

/// A number as a JSON reader would see it.
fn number(n: &Number) -> f64 {
    match n {
        Number::PosInt(n) => *n as f64,
        Number::NegInt(n) => *n as f64,
        Number::Float(d) => {
            format!("{}{}.{}e{}", if d.negative { "-" } else { "" }, &d.digits[..1], &d.digits[1..], d.exponent)
                .replace(".e", ".0e")
                .parse()
                .unwrap()
        }
    }
}

fn bits(v: f32) -> Float {
    Float::from_bits(v.to_bits())
}

fn keys(names: &[&str]) -> Vec<String> {
    names.iter().map(|k| k.to_string()).collect()
}

#[test]
fn a_file_without_the_decision_head_is_refused_at_load() {
    let complete = [
        "encoder.embeddings.weight",
        "type_emb.weight",
        "scorer.1.weight",
        "act_head.0.weight",
    ];
    assert!(verify(&keys(&complete), "cp").is_ok());

    let err = verify(&keys(&complete[..3]), "cp").unwrap_err();
    assert!(
        matches!(err, Error::Checkpoint(ref m) if m.starts_with("cp:") && m.contains("act_head.")),
        "{err:?}"
    );
}

#[test]
fn layers_the_config_does_not_describe_are_refused() {
    let names = [
        "encoder.layers.0.attn.Wqkv.weight",
        "encoder.layers.1.attn.Wqkv.weight",
        "head.layers.0.linear1.weight",
        "head.layers.1.linear1.weight",
        "head.layers.2.linear1.weight",
        "type_emb.weight",
        "temperature",
    ];
    assert!(verify_layout(&keys(&names), "cp", 3, 2).is_ok());

    let err = verify_layout(&keys(&names), "cp", 2, 2).unwrap_err();
    assert!(matches!(err, Error::Checkpoint(ref m) if m.contains("head_layers")), "{err:?}");
    assert_eq!(
        err.to_string(),
        "cp: head_layers in rl_agent_config.json says 2 layers, but model.safetensors has \
         head.layers.* layers [0, 1, 2]"
    );
    let err = verify_layout(&keys(&names), "cp", 3, 3).unwrap_err();
    assert!(matches!(err, Error::Checkpoint(ref m) if m.contains("num_hidden_layers")), "{err:?}");

    let mut extra = names.to_vec();
    extra.push("pooler.weight");
    let err = verify_layout(&keys(&extra), "cp", 3, 2).unwrap_err();
    assert!(matches!(err, Error::Checkpoint(ref m) if m.contains("pooler.weight")), "{err:?}");
    extra.push("lm_head.bias");
    assert_eq!(
        verify_layout(&keys(&extra), "cp", 3, 2).unwrap_err().to_string(),
        "cp: model.safetensors holds tensors no part of the model reads: [\"lm_head.bias\", \
         \"pooler.weight\"]"
    );
}

#[test]
fn layer_indices_are_sorted_and_distinct() {
    let names = keys(&["h.10.a", "h.2.b", "h.2.c", "x.3", "h.z.1", "h.", "h.+4.q", "h.0"]);
    assert_eq!(layer_indices(&names, "h."), vec![0, 2, 4, 10]);
    assert_eq!(layer_indices(&names, "y."), Vec::<usize>::new());
}

#[test]
fn tensors_are_looked_up_where_the_backbone_expects_them() {
    assert_eq!(remap_key("encoder.layers.0.attn.Wo.weight"), "encoder.model.layers.0.attn.Wo.weight");
    assert_eq!(remap_key("encoder."), "encoder.model.");
    assert_eq!(remap_key("encoders.x"), "encoders.x");
    assert_eq!(remap_key("scorer.1.weight"), "scorer.1.weight");
    assert_eq!([head_count(16), head_count(64), head_count(1024), head_count(127)], [1, 1, 16, 1]);
}

#[test]
fn a_sharpening_temperature_is_refused() {
    assert_eq!(clamp_temperature(bits(0.1006)), Float::from_bits(TEMP_MIN));
    assert_eq!(clamp_temperature(bits(1.9063)), bits(1.9063));
    assert_eq!(clamp_temperature(bits(42.0)), Float::from_bits(TEMP_MAX));
    assert_eq!(clamp_temperature(bits(f32::NAN)), bits(1.0));
    assert_eq!(clamp_temperature(bits(f32::INFINITY)), bits(1.0));
    assert_eq!(clamp_temperature(bits(-3.0)), bits(0.5));
    assert_eq!((f32::from_bits(TEMP_MIN), f32::from_bits(TEMP_MAX)), (0.5, 5.0));
}

#[test]
fn buckets_match_the_reference_names() {
    assert_eq!(temp_bucket(QType::Noul, 2), "noul:2");
    assert_eq!(temp_bucket(QType::Choice, 4), "choice:3-5");
    assert_eq!(temp_bucket(QType::Choice, 7), "choice:6-10");
    assert_eq!(temp_bucket(QType::Choice, 20), "choice:11+");
    assert_eq!(temp_bucket(QType::Score, 3), "score:3-5");
}

#[test]
fn a_bucket_goes_before_its_type() {
    let mut config = AgentConfig::default();
    config.temperature = vec![bits(2.0), bits(9.0), bits(1.5)];
    config.temperature_by_options =
        vec![("choice:11+".to_string(), bits(0.1006)), ("noul:2".to_string(), bits(3.0))];
    let c = Calibration::from_config(&config);
    assert_eq!(c.temperature(QType::Choice, 20), bits(0.5));
    assert_eq!(c.temperature(QType::Choice, 3), bits(2.0));
    assert_eq!(c.temperature(QType::Score, 3), bits(5.0));
    assert_eq!(c.temperature(QType::Noul, 2), bits(3.0));
    assert_eq!(c.clamped, vec!["score", "choice:11+"]);
    assert_eq!(
        c.warning("org/laya").unwrap(),
        "[laya] org/laya: this checkpoint ships temperatures outside [0.5, 5] which would distort \
         confidence; clamping score, choice:11+. Treat confidence from the affected buckets as \
         uncalibrated."
    );

    config.temperature = vec![];
    config.temperature_by_options = vec![];
    let c = Calibration::from_config(&config);
    assert_eq!(c.temperature(QType::Noul, 2), bits(1.0));
    assert!(c.clamped.is_empty());
    assert!(c.warning("org/laya").is_none());
}

#[test]
fn missing_fields_take_the_documented_defaults() {
    let cfg = AgentConfig {
        encoder: "answerdotai/ModernBERT-large".to_string(),
        ..AgentConfig::default()
    };
    assert_eq!(cfg.encoder, "answerdotai/ModernBERT-large");
    assert_eq!((cfg.head_layers, cfg.max_len, cfg.head_max_len), (2, 512, 192));
    assert_eq!(cfg.temperature, vec![bits(1.0); 3]);
    assert_eq!(cfg.n_act(), 1);
}

fn shape() -> Vec<(&'static str, Value)> {
    vec![
        ("model_type", text("modernbert")),
        ("vocab_size", whole(100)),
        ("hidden_size", whole(16)),
        ("num_hidden_layers", whole(2)),
        ("num_attention_heads", whole(2)),
        ("intermediate_size", whole(32)),
        ("max_position_embeddings", whole(64)),
    ]
}

#[test]
fn rope_bases_are_read_from_either_layout() {
    let mut nested = shape();
    nested.push((
        "rope_parameters",
        object(vec![
            ("full_attention", object(vec![("rope_theta", float("123", 2))])),
            ("sliding_attention", object(vec![("rope_theta", float("45", 1))])),
        ]),
    ));
    let cfg = encoder_config("config.json", &object(nested)).unwrap();
    assert_eq!((number(&cfg.global_rope_theta), number(&cfg.local_rope_theta)), (123.0, 45.0));

    let mut flat = shape();
    flat.push(("global_rope_theta", float("7", 0)));
    let cfg = encoder_config("config.json", &object(flat)).unwrap();
    assert_eq!((number(&cfg.global_rope_theta), number(&cfg.local_rope_theta)), (7.0, 10_000.0));
    assert_eq!(
        (cfg.hidden_size, cfg.local_attention, cfg.global_attn_every_n_layers),
        (16, 128, 3)
    );
    assert_eq!((number(&cfg.layer_norm_eps), cfg.pad_token_id), (1e-5, 0));
}

#[test]
fn other_architectures_and_missing_shape_keys_are_rejected() {
    let mut bert = shape();
    bert[0] = ("model_type", text("bert"));
    let err = encoder_config("config.json", &object(bert)).unwrap_err();
    assert!(matches!(err, Error::Checkpoint(ref m) if m.contains("unsupported")), "{err:?}");
    assert_eq!(
        err.to_string(),
        "config.json: unsupported encoder architecture \"bert\"; this crate implements the \
         ModernBERT backbone only"
    );

    let mut headless = shape();
    headless.remove(2);
    let err = encoder_config("config.json", &object(headless)).unwrap_err();
    assert!(matches!(err, Error::Checkpoint(ref m) if m.contains("hidden_size")), "{err:?}");
    assert_eq!(err.to_string(), "config.json: missing or invalid \"hidden_size\"");
}

#[test]
fn an_epsilon_under_its_longer_name_hides_the_shorter() {
    let mut both = shape();
    both.push(("norm_eps", float("2", -6)));
    let cfg = encoder_config("c", &object(both.clone())).unwrap();
    assert_eq!(number(&cfg.layer_norm_eps), 2e-6);
    both.push(("layer_norm_eps", text("tiny")));
    let cfg = encoder_config("c", &object(both)).unwrap();
    assert_eq!(number(&cfg.layer_norm_eps), 1e-5);
}

#[test]
fn a_missing_directory_is_rejected() {
    let err = Checkpoint::from_dir("/definitely/not/here", false, [false; 5]).unwrap_err();
    assert!(matches!(err, Error::Checkpoint(ref m) if m.contains("not a directory")), "{err:?}");
}

#[test]
fn the_first_missing_file_is_named() {
    let err = Checkpoint::from_dir("cp", true, [true, false, false, false, false]).unwrap_err();
    assert!(matches!(err, Error::Checkpoint(ref m) if m.contains(WEIGHTS)), "{err:?}");
    assert_eq!(
        err.to_string(),
        "cp: missing model.safetensors. A laya checkpoint ships rl_agent_config.json, \
         model.safetensors, encoder/config.json, tokenizer/tokenizer.json, \
         tokenizer/tokenizer_config.json."
    );
}

#[test]
fn the_tokenizer_config_is_optional() {
    let cp = Checkpoint::from_dir("cp", true, [true, true, true, true, false]).unwrap();
    assert_eq!(cp.weights, format!("cp/{WEIGHTS}"));
    assert_eq!(cp.label, "cp");
    assert!(cp.tokenizer_config.is_none());

    let cp = Checkpoint::from_dir("cp", true, [true; 5]).unwrap();
    assert_eq!(cp.tokenizer_config, Some(format!("cp/{TOKENIZER_CONFIG}")));
}

#[test]
fn hub_checkpoints_are_labelled_repo_slash_subfolder() {
    assert_eq!(hub_label("org/laya", &None), "org/laya");
    assert_eq!(hub_label("org/laya", &Some("multilingual".to_string())), "org/laya/multilingual");
}

/// Answer every file of a Hub checkpoint by its place among the files.
fn drive(subfolder: Option<&str>, reply: impl Fn(usize, &str) -> Fetched) -> Result<Checkpoint, Error> {
    let source =
        Source::Hub { repo: "org/laya".to_string(), subfolder: subfolder.map(str::to_string) };
    let mut assembly = Assembly::new(source.clone());
    for i in 0..FILES.len() {
        let file = assembly.next_file();
        assert_eq!(file, FILES[i]);
        match assembly.advance(reply(i, &source.request(file))) {
            Step::More(next) => assembly = next,
            Step::Done(cp) => return Ok(cp),
            Step::Failed(e) => return Err(e),
        }
    }
    panic!("a checkpoint is done or has failed after its last file")
}

#[test]
fn hub_files_are_asked_for_in_order() {
    let cp = drive(Some("ml"), |_, name| Fetched::Found(format!("/cache/{name}"))).unwrap();
    assert_eq!(cp.agent_config, "/cache/ml/rl_agent_config.json");
    assert_eq!(cp.tokenizer, "/cache/ml/tokenizer/tokenizer.json");
    assert_eq!(cp.label, "org/laya/ml");

    let cp = drive(None, |i, name| {
        if i < 4 { Fetched::Found(name.to_string()) } else { Fetched::Absent }
    })
    .unwrap();
    assert_eq!(cp.weights, "model.safetensors");
    assert!(cp.tokenizer_config.is_none());

    let err = drive(Some("ml"), |_, _| Fetched::Absent).unwrap_err();
    assert_eq!(
        err.to_string(),
        "hugging face hub: org/laya/ml: ml/rl_agent_config.json is not in the repository"
    );
    // A failure to fetch the optional file is a failure all the same.
    let err = drive(None, |i, name| {
        if i < 4 { Fetched::Found(name.to_string()) } else { Fetched::Failed("timeout".to_string()) }
    })
    .unwrap_err();
    assert_eq!(
        err.to_string(),
        "hugging face hub: org/laya: could not fetch tokenizer/tokenizer_config.json: timeout"
    );
    let mut dir = Assembly::new(Source::Dir { path: "cp".to_string() });
    dir = match dir.advance(Fetched::Found("x".to_string())) {
        Step::More(next) => next,
        other => panic!("{other:?}"),
    };
    assert!(matches!(dir.advance(Fetched::Failed("no".to_string())), Step::Failed(Error::Io { .. })));
}

#[test]
fn the_hub_cache_and_token_are_chosen_in_order() {
    assert_eq!(cache_place(true, true, true).unwrap(), CachePlace::HubCache);
    assert_eq!(cache_place(false, true, true).unwrap(), CachePlace::HfHome);
    assert_eq!(cache_place(false, false, true).unwrap(), CachePlace::Home);
    assert!(matches!(cache_place(false, false, false), Err(Error::Hub(_))));

    let t = |s: &str| Some(s.to_string());
    assert_eq!(choose_token(t("a"), t("b")), t("a"));
    assert_eq!(choose_token(None, t("b")), t("b"));
    assert_eq!(choose_token(t(""), t("b")), None);
    assert_eq!(choose_token(None, None), None);
    let opts = HubOptions::default();
    assert!(opts.token.is_none() && !opts.progress);
}

#[test]
fn device_names_parse() {
    for (s, want) in [
        ("auto", DeviceChoice::Auto),
        ("CPU", DeviceChoice::Cpu),
        ("cuda", DeviceChoice::Cuda(0)),
        ("cuda:1", DeviceChoice::Cuda(1)),
        ("gpu", DeviceChoice::Cuda(0)),
        ("metal", DeviceChoice::Metal(0)),
        ("mps:2", DeviceChoice::Metal(2)),
    ] {
        assert_eq!(s.parse::<DeviceChoice>().unwrap(), want, "{s}");
    }
    for bad in ["tpu", "cuda:x", "cpu:1", ""] {
        assert!(bad.parse::<DeviceChoice>().is_err(), "{bad}");
    }
    assert_eq!(DeviceChoice::Cuda(1).to_string(), "cuda:1");
}

#[test]
fn a_device_is_parsed_back_from_its_name() {
    for d in [
        DeviceChoice::Auto,
        DeviceChoice::Cpu,
        DeviceChoice::Cuda(0),
        DeviceChoice::Cuda(usize::MAX),
        DeviceChoice::Metal(12),
    ] {
        assert_eq!(DeviceChoice::parse(&d.to_string()).unwrap(), d);
    }
    assert_eq!(
        DeviceChoice::parse("cuda:x").unwrap_err().to_string(),
        "\"cuda:x\": the device index must be a number"
    );
    assert_eq!(
        DeviceChoice::from_plain("tpu", "TPU").unwrap_err().to_string(),
        "unknown device \"TPU\"; choose auto, cpu, cuda, cuda:N, metal or metal:N"
    );
    assert_eq!(DeviceChoice::default(), DeviceChoice::Auto);
}

#[test]
fn the_environment_names_a_device() {
    assert_eq!(DeviceChoice::from_setting(None).unwrap(), DeviceChoice::Auto);
    assert_eq!(DeviceChoice::from_setting(Some("  ")).unwrap(), DeviceChoice::Auto);
    assert_eq!(DeviceChoice::from_setting(Some("gpu:3")).unwrap(), DeviceChoice::Cuda(3));
    assert_eq!(
        DeviceChoice::from_setting(Some("gpu:z")).unwrap_err().to_string(),
        "LAYA_DEVICE: \"gpu:z\": the device index must be a number"
    );
}

#[test]
fn an_explicit_gpu_without_its_feature_is_an_error_not_a_cpu_run() {
    let err = DeviceChoice::Cuda(0).without_feature("cuda");
    assert!(matches!(err, Error::Device(ref m) if m.contains("--features cuda")), "{err:?}");
    assert_eq!(
        DeviceChoice::Metal(1).without_feature("metal").to_string(),
        "metal:1 was asked for, but this build has the `metal` feature off; rebuild with \
         `--features metal`"
    );
    let err = DeviceChoice::Cuda(0).opening(false, true).unwrap_err();
    assert!(matches!(err, Error::Device(ref m) if m.contains("--features cuda")), "{err:?}");
    assert!(DeviceChoice::Metal(0).opening(true, false).is_err());
    assert_eq!(
        DeviceChoice::Cuda(2).not_opened("no driver").to_string(),
        "cannot open cuda:2: no driver"
    );
}

#[test]
fn an_open_choice_takes_the_first_device_that_is_there() {
    assert_eq!(DeviceChoice::Cpu.opening(true, true).unwrap(), Opening::Cpu);
    assert_eq!(DeviceChoice::Cuda(3).opening(true, false).unwrap(), Opening::Cuda(3));
    assert_eq!(DeviceChoice::Metal(1).opening(false, true).unwrap(), Opening::Metal(1));
    assert_eq!(DeviceChoice::Auto.opening(true, true).unwrap(), Opening::Cuda(0));
    assert_eq!(DeviceChoice::Auto.opening(false, true).unwrap(), Opening::Metal(0));
    assert_eq!(DeviceChoice::Auto.opening(false, false).unwrap(), Opening::Cpu);
}

#[test]
fn case_and_blanks_do_not_matter_to_devices() {
    assert_eq!(" CUDA:1 ".parse::<DeviceChoice>().unwrap(), DeviceChoice::Cuda(1));
    assert_eq!("\tMps".parse::<DeviceChoice>().unwrap(), DeviceChoice::Metal(0));
    assert!("cu da".parse::<DeviceChoice>().is_err());
}

#[test]
fn a_directory_that_ends_in_a_slash_gets_no_other() {
    let all = [true; 5];
    let cp = Checkpoint::from_dir("cp/", true, all).unwrap();
    assert_eq!(cp.weights, "cp/model.safetensors");
    let cp = Checkpoint::from_dir("cp", true, all).unwrap();
    assert_eq!(cp.weights, "cp/model.safetensors");
    let cp = Checkpoint::from_dir("/", true, all).unwrap();
    assert_eq!(cp.tokenizer_config.as_deref(), Some("/tokenizer/tokenizer_config.json"));
}
