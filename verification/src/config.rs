//! The model configuration read from `config.json`.
use vstd::prelude::*;

use crate::error::{LoadError, LoadSource};
use crate::json::{field, parse, spec_parse, str_eq, usize_value, Json, JsonModel};
use vstd::utf8::encode_utf8;
use vstd::string::StringExecFns;

verus! {

/// The hyperparameters of a Qwen3 model. The two real-valued settings keep
/// the text of their JSON number literals.
#[derive(Debug)]
pub struct Config {
    pub hidden_size: usize,
    pub intermediate_size: usize,
    pub num_hidden_layers: usize,
    pub num_attention_heads: usize,
    pub num_key_value_heads: usize,
    pub head_dim: usize,
    pub vocab_size: usize,
    pub max_position_embeddings: usize,
    pub eos_token_id: u32,
    pub rope_theta: String,
    pub rms_norm_eps: String,
    pub tie_word_embeddings: bool,
}

/// Why a configuration was refused.
#[derive(Debug)]
pub enum ConfigError {
    /// A required key is missing.
    Missing(&'static str),
    /// `model_type` is not `"qwen3"`.
    UnsupportedModelType,
    /// `rope_scaling` is set: only `null` is supported.
    RopeScaling,
    /// The value of the key is not a number.
    NotNumber(&'static str),
    /// The value of the key is not a nonnegative integer that fits `usize`.
    NotInteger(&'static str),
    /// The value of the key is not a bool.
    NotBool(&'static str),
    /// `eos_token_id` does not fit `u32`.
    EosTokenIdRange,
}

impl ConfigError {
    /// The text that reports the error.
    pub open spec fn spec_message(&self) -> Seq<char> {
        match self {
            ConfigError::Missing(key) => "config: missing "@ + key@,
            ConfigError::UnsupportedModelType => "config: unsupported model_type"@,
            ConfigError::RopeScaling => "config: rope_scaling should be null"@,
            ConfigError::NotNumber(key) => "config: "@ + key@ + " should be a number"@,
            ConfigError::NotInteger(key) => "config: "@ + key@ + " should be an integer"@,
            ConfigError::NotBool(key) => "config: "@ + key@ + " should be a bool"@,
            ConfigError::EosTokenIdRange => "config: eos_token_id should fit u32"@,
        }
    }

    /// The text that reports the error.
    pub fn message(&self) -> (s: String)
        ensures
            s@ == self.spec_message(),
    {
        match self {
            ConfigError::Missing(key) => {
                let mut s = String::from_str("config: missing ");
                s.append(key);
                s
            },
            ConfigError::UnsupportedModelType => String::from_str("config: unsupported model_type"),
            ConfigError::RopeScaling => String::from_str("config: rope_scaling should be null"),
            ConfigError::NotNumber(key) => {
                let mut s = String::from_str("config: ");
                s.append(key);
                s.append(" should be a number");
                s
            },
            ConfigError::NotInteger(key) => {
                let mut s = String::from_str("config: ");
                s.append(key);
                s.append(" should be an integer");
                s
            },
            ConfigError::NotBool(key) => {
                let mut s = String::from_str("config: ");
                s.append(key);
                s.append(" should be a bool");
                s
            },
            ConfigError::EosTokenIdRange => String::from_str("config: eos_token_id should fit u32"),
        }
    }
}

/// A configuration as plain values.
pub struct ConfigModel {
    pub hidden_size: nat,
    pub intermediate_size: nat,
    pub num_hidden_layers: nat,
    pub num_attention_heads: nat,
    pub num_key_value_heads: nat,
    pub head_dim: nat,
    pub vocab_size: nat,
    pub max_position_embeddings: nat,
    pub eos_token_id: nat,
    pub rope_theta: Seq<char>,
    pub rms_norm_eps: Seq<char>,
    pub tie_word_embeddings: bool,
}

impl View for Config {
    type V = ConfigModel;

    open spec fn view(&self) -> ConfigModel {
        ConfigModel {
            hidden_size: self.hidden_size as nat,
            intermediate_size: self.intermediate_size as nat,
            num_hidden_layers: self.num_hidden_layers as nat,
            num_attention_heads: self.num_attention_heads as nat,
            num_key_value_heads: self.num_key_value_heads as nat,
            head_dim: self.head_dim as nat,
            vocab_size: self.vocab_size as nat,
            max_position_embeddings: self.max_position_embeddings as nat,
            eos_token_id: self.eos_token_id as nat,
            rope_theta: self.rope_theta@,
            rms_norm_eps: self.rms_norm_eps@,
            tie_word_embeddings: self.tie_word_embeddings,
        }
    }
}

/// The integer under `key`.
pub open spec fn int_setting(j: JsonModel, key: &'static str) -> Result<nat, ConfigError> {
    match field(j, key@) {
        None => Err(ConfigError::Missing(key)),
        Some(v) => match usize_value(v) {
            Some(n) => Ok(n),
            None => Err(ConfigError::NotInteger(key)),
        },
    }
}

/// The text of the number under `key`.
pub open spec fn number_setting(j: JsonModel, key: &'static str) -> Result<Seq<char>, ConfigError> {
    match field(j, key@) {
        None => Err(ConfigError::Missing(key)),
        Some(JsonModel::Number(n)) => Ok(n),
        Some(_) => Err(ConfigError::NotNumber(key)),
    }
}

/// The bool under `key`.
pub open spec fn bool_setting(j: JsonModel, key: &'static str) -> Result<bool, ConfigError> {
    match field(j, key@) {
        None => Err(ConfigError::Missing(key)),
        Some(JsonModel::Bool(b)) => Ok(b),
        Some(_) => Err(ConfigError::NotBool(key)),
    }
}

/// The configuration a `config.json` document describes, or the first
/// problem met when its settings are read in order.
pub open spec fn spec_config(j: JsonModel) -> Result<ConfigModel, ConfigError> {
    let model_type = field(j, "model_type"@);
    let rope_scaling = field(j, "rope_scaling"@);
    let hidden_size = int_setting(j, "hidden_size");
    let intermediate_size = int_setting(j, "intermediate_size");
    let num_hidden_layers = int_setting(j, "num_hidden_layers");
    let num_attention_heads = int_setting(j, "num_attention_heads");
    let num_key_value_heads = int_setting(j, "num_key_value_heads");
    let head_dim = int_setting(j, "head_dim");
    let vocab_size = int_setting(j, "vocab_size");
    let max_position_embeddings = int_setting(j, "max_position_embeddings");
    let eos_token_id = int_setting(j, "eos_token_id");
    let rope_theta = number_setting(j, "rope_theta");
    let rms_norm_eps = number_setting(j, "rms_norm_eps");
    let tie_word_embeddings = bool_setting(j, "tie_word_embeddings");
    if model_type is None {
        Err(ConfigError::Missing("model_type"))
    } else if model_type != Some(JsonModel::String("qwen3"@)) {
        Err(ConfigError::UnsupportedModelType)
    } else if rope_scaling is None {
        Err(ConfigError::Missing("rope_scaling"))
    } else if rope_scaling != Some(JsonModel::Null) {
        Err(ConfigError::RopeScaling)
    } else if hidden_size is Err {
        Err(hidden_size->Err_0)
    } else if intermediate_size is Err {
        Err(intermediate_size->Err_0)
    } else if num_hidden_layers is Err {
        Err(num_hidden_layers->Err_0)
    } else if num_attention_heads is Err {
        Err(num_attention_heads->Err_0)
    } else if num_key_value_heads is Err {
        Err(num_key_value_heads->Err_0)
    } else if head_dim is Err {
        Err(head_dim->Err_0)
    } else if vocab_size is Err {
        Err(vocab_size->Err_0)
    } else if max_position_embeddings is Err {
        Err(max_position_embeddings->Err_0)
    } else if eos_token_id is Err {
        Err(eos_token_id->Err_0)
    } else if eos_token_id->Ok_0 > u32::MAX {
        Err(ConfigError::EosTokenIdRange)
    } else if rope_theta is Err {
        Err(rope_theta->Err_0)
    } else if rms_norm_eps is Err {
        Err(rms_norm_eps->Err_0)
    } else if tie_word_embeddings is Err {
        Err(tie_word_embeddings->Err_0)
    } else {
        Ok(
            ConfigModel {
                hidden_size: hidden_size->Ok_0,
                intermediate_size: intermediate_size->Ok_0,
                num_hidden_layers: num_hidden_layers->Ok_0,
                num_attention_heads: num_attention_heads->Ok_0,
                num_key_value_heads: num_key_value_heads->Ok_0,
                head_dim: head_dim->Ok_0,
                vocab_size: vocab_size->Ok_0,
                max_position_embeddings: max_position_embeddings->Ok_0,
                eos_token_id: eos_token_id->Ok_0,
                rope_theta: rope_theta->Ok_0,
                rms_norm_eps: rms_norm_eps->Ok_0,
                tie_word_embeddings: tie_word_embeddings->Ok_0,
            },
        )
    }
}

/// The value under `key`.
fn setting<'a>(json: &'a Json, key: &'static str) -> (r: Result<&'a Json, ConfigError>)
    ensures
        match field(json.model(), key@) {
            Some(v) => r matches Ok(j) && j.model() == v,
            None => r == Err::<&Json, ConfigError>(ConfigError::Missing(key)),
        },
{
    match json.get(key) {
        Some(v) => Ok(v),
        None => Err(ConfigError::Missing(key)),
    }
}

/// The integer under `key`.
fn integer(json: &Json, key: &'static str) -> (r: Result<usize, ConfigError>)
    ensures
        match int_setting(json.model(), key) {
            Ok(n) => r == Ok::<usize, ConfigError>(n as usize),
            Err(e) => r == Err::<usize, ConfigError>(e),
        },
{
    let v = match setting(json, key) {
        Ok(v) => v,
        Err(e) => return Err(e),
    };
    match v.as_usize() {
        Some(n) => Ok(n),
        None => Err(ConfigError::NotInteger(key)),
    }
}

/// The text of the number under `key`.
fn num(json: &Json, key: &'static str) -> (r: Result<String, ConfigError>)
    ensures
        match number_setting(json.model(), key) {
            Ok(n) => r matches Ok(s) && s@ == n,
            Err(e) => r == Err::<String, ConfigError>(e),
        },
{
    let v = match setting(json, key) {
        Ok(v) => v,
        Err(e) => return Err(e),
    };
    match v.as_number() {
        Some(n) => Ok(n.to_owned()),
        None => Err(ConfigError::NotNumber(key)),
    }
}

/// The bool under `key`.
fn flag(json: &Json, key: &'static str) -> (r: Result<bool, ConfigError>)
    ensures
        match bool_setting(json.model(), key) {
            Ok(b) => r == Ok::<bool, ConfigError>(b),
            Err(e) => r == Err::<bool, ConfigError>(e),
        },
{
    let v = match setting(json, key) {
        Ok(v) => v,
        Err(e) => return Err(e),
    };
    match v.as_bool() {
        Some(b) => Ok(b),
        None => Err(ConfigError::NotBool(key)),
    }
}

impl Config {
    /// Loads a `config.json` file from what reading it gave: its text, or the
    /// message of the error that reading it met.
    pub fn load(path: &str, text: Result<String, String>) -> (r: Result<Config, LoadError>)
        ensures
            match text {
                Err(msg) => r matches Err(e) && e.path()@ == path@ && e.source() == LoadSource::Io(msg),
                Ok(t) => match spec_parse(encode_utf8(t@)) {
                    Err(pe) => r matches Err(e) && e.path()@ == path@ && e.source() == LoadSource::Json(pe),
                    Ok(j) => match spec_config(j) {
                        Err(ce) => r matches Err(e) && e.path()@ == path@ && e.source() == LoadSource::Config(ce),
                        Ok(m) => r matches Ok(c) && c@ == m,
                    },
                },
            },
    {
        match text {
            Err(msg) => Err(LoadError::new(path, LoadSource::Io(msg))),
            Ok(t) => match parse(t.as_str()) {
                Err(pe) => Err(LoadError::new(path, LoadSource::Json(pe))),
                Ok(j) => match Config::try_from_json(&j) {
                    Err(ce) => Err(LoadError::new(path, LoadSource::Config(ce))),
                    Ok(c) => Ok(c),
                },
            },
        }
    }

    /// Reads the configuration of a Qwen3 model from its `config.json`
    /// document, which must describe one: a document that `try_from_json`
    /// refuses is not accepted.
    pub fn from_json(json: &Json) -> (c: Config)
        requires
            spec_config(json.model()) is Ok,
        ensures
            c@ == spec_config(json.model())->Ok_0,
    {
        match Config::try_from_json(json) {
            Ok(c) => c,
            Err(_) => vstd::pervasive::unreached(),
        }
    }

    /// Reads the configuration of a Qwen3 model from its `config.json`
    /// document, or tells the first setting that is missing or wrong.
    pub fn try_from_json(json: &Json) -> (r: Result<Config, ConfigError>)
        ensures
            match spec_config(json.model()) {
                Ok(m) => r matches Ok(c) && c@ == m,
                Err(e) => r matches Err(x) && x == e,
            },
    {
        let model_type = match setting(json, "model_type") {
            Ok(v) => v,
            Err(e) => return Err(e),
        };
        let qwen3 = match model_type.as_str() {
            Some(s) => str_eq(s, "qwen3"),
            None => false,
        };
        if !qwen3 {
            return Err(ConfigError::UnsupportedModelType);
        }
        let rope_scaling = match setting(json, "rope_scaling") {
            Ok(v) => v,
            Err(e) => return Err(e),
        };
        match rope_scaling {
            Json::Null => {},
            _ => return Err(ConfigError::RopeScaling),
        }
        let hidden_size = match integer(json, "hidden_size") {
            Ok(n) => n,
            Err(e) => return Err(e),
        };
        let intermediate_size = match integer(json, "intermediate_size") {
            Ok(n) => n,
            Err(e) => return Err(e),
        };
        let num_hidden_layers = match integer(json, "num_hidden_layers") {
            Ok(n) => n,
            Err(e) => return Err(e),
        };
        let num_attention_heads = match integer(json, "num_attention_heads") {
            Ok(n) => n,
            Err(e) => return Err(e),
        };
        let num_key_value_heads = match integer(json, "num_key_value_heads") {
            Ok(n) => n,
            Err(e) => return Err(e),
        };
        let head_dim = match integer(json, "head_dim") {
            Ok(n) => n,
            Err(e) => return Err(e),
        };
        let vocab_size = match integer(json, "vocab_size") {
            Ok(n) => n,
            Err(e) => return Err(e),
        };
        let max_position_embeddings = match integer(json, "max_position_embeddings") {
            Ok(n) => n,
            Err(e) => return Err(e),
        };
        let eos = match integer(json, "eos_token_id") {
            Ok(n) => n,
            Err(e) => return Err(e),
        };
        if eos > 0xffff_ffff {
            return Err(ConfigError::EosTokenIdRange);
        }
        let rope_theta = match num(json, "rope_theta") {
            Ok(n) => n,
            Err(e) => return Err(e),
        };
        let rms_norm_eps = match num(json, "rms_norm_eps") {
            Ok(n) => n,
            Err(e) => return Err(e),
        };
        let tie_word_embeddings = match flag(json, "tie_word_embeddings") {
            Ok(b) => b,
            Err(e) => return Err(e),
        };
        Ok(
            Config {
                hidden_size,
                intermediate_size,
                num_hidden_layers,
                num_attention_heads,
                num_key_value_heads,
                head_dim,
                vocab_size,
                max_position_embeddings,
                eos_token_id: eos as u32,
                rope_theta,
                rms_norm_eps,
                tie_word_embeddings,
            },
        )
    }
}

/// Law: a configuration that reads takes each setting from the member of
/// that name: the integers as the document writes them, the two real
/// numbers as the text of their literals, and the flag as the document's
/// bool; the document describes a Qwen3 model without rope scaling.
pub proof fn law_config_settings(j: JsonModel)
    ensures
        spec_config(j) matches Ok(c) ==> {
            &&& field(j, "model_type"@) == Some(JsonModel::String("qwen3"@))
            &&& field(j, "rope_scaling"@) == Some(JsonModel::Null)
            &&& field(j, "hidden_size"@) matches Some(v) && usize_value(v) == Some(c.hidden_size)
            &&& field(j, "intermediate_size"@) matches Some(v) && usize_value(v) == Some(c.intermediate_size)
            &&& field(j, "num_hidden_layers"@) matches Some(v) && usize_value(v) == Some(c.num_hidden_layers)
            &&& field(j, "num_attention_heads"@) matches Some(v) && usize_value(v) == Some(
                c.num_attention_heads,
            )
            &&& field(j, "num_key_value_heads"@) matches Some(v) && usize_value(v) == Some(
                c.num_key_value_heads,
            )
            &&& field(j, "head_dim"@) matches Some(v) && usize_value(v) == Some(c.head_dim)
            &&& field(j, "vocab_size"@) matches Some(v) && usize_value(v) == Some(c.vocab_size)
            &&& field(j, "max_position_embeddings"@) matches Some(v) && usize_value(v) == Some(
                c.max_position_embeddings,
            )
            &&& field(j, "eos_token_id"@) matches Some(v) && usize_value(v) == Some(c.eos_token_id)
            &&& c.eos_token_id <= u32::MAX
            &&& field(j, "rope_theta"@) == Some(JsonModel::Number(c.rope_theta))
            &&& field(j, "rms_norm_eps"@) == Some(JsonModel::Number(c.rms_norm_eps))
            &&& field(j, "tie_word_embeddings"@) == Some(JsonModel::Bool(c.tie_word_embeddings))
        },
{
}

} // verus!
