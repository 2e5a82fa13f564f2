//! Checkpoint configuration: `rl_agent_config.json` and the encoder's `config.json`.

use vstd::prelude::*;
use vstd::string::*;

use crate::error::{concat3, Error, Failure};
use crate::float::Float;
use crate::json::{field, number_of, unsigned_of, Decimal, Json, Number, Numeral, Value};
use crate::text::same_text;
use crate::unicode::{quote, quoted};

verus! {

// ----------------------------------------------------------------------- the decision head

/// The decision-model side of a checkpoint, as stored in `rl_agent_config.json`.
///
/// Every field falls back to its default when the file leaves it out.
#[derive(Debug)]
pub struct AgentConfig {
    /// Hub id of the backbone the checkpoint was trained on, for provenance only.
    pub encoder: String,
    pub head_layers: usize,
    /// Total sequence budget, including the question head and the state.
    pub max_len: usize,
    /// Token budget for the question head (instructions plus every option).
    pub head_max_len: usize,
    /// Named actions the auxiliary head can recommend; its output width is one more.
    pub act_costs: Vec<(String, Number)>,
    /// Per-type calibration temperature, indexed by the type.
    pub temperature: Vec<Float>,
    /// Finer calibration, keyed by `"<type>:<option-count bucket>"`.
    pub temperature_by_options: Vec<(String, Float)>,
}

/// The number one.
pub const ONE: u32 = 0x3f80_0000;

impl Default for AgentConfig {
    /// The documented defaults.
    fn default() -> (r: Self)
        ensures
            r.encoder@ == Seq::<char>::empty(),
            r.head_layers == 2,
            r.max_len == 512,
            r.head_max_len == 192,
            r.act_costs@.len() == 0,
            r.temperature@ == seq![Float { bits: ONE }, Float { bits: ONE }, Float { bits: ONE }],
            r.temperature_by_options@.len() == 0,
    {
        let one = Float { bits: ONE };
        let mut temperature: Vec<Float> = Vec::new();
        temperature.push(one);
        temperature.push(one);
        temperature.push(one);
        AgentConfig {
            encoder: String::new(),
            head_layers: 2,
            max_len: 512,
            head_max_len: 192,
            act_costs: Vec::new(),
            temperature,
            temperature_by_options: Vec::new(),
        }
    }
}

impl AgentConfig {
    /// Width of the auxiliary action head.
    pub fn n_act(&self) -> (r: usize)
        requires
            self.act_costs@.len() < usize::MAX,
        ensures
            r == self.act_costs@.len() + 1,
    {
        self.act_costs.len() + 1
    }
}

// ----------------------------------------------------------------------- the encoder

/// The shape of the ModernBERT backbone, as its `config.json` gives it.
#[derive(Debug)]
pub struct EncoderConfig {
    pub vocab_size: usize,
    pub hidden_size: usize,
    pub num_hidden_layers: usize,
    pub num_attention_heads: usize,
    pub intermediate_size: usize,
    pub max_position_embeddings: usize,
    pub layer_norm_eps: Number,
    pub pad_token_id: u32,
    pub global_attn_every_n_layers: usize,
    pub global_rope_theta: Number,
    pub local_attention: usize,
    pub local_rope_theta: Number,
}

/// The mathematical content of an [`EncoderConfig`].
pub struct Shape {
    pub vocab_size: usize,
    pub hidden_size: usize,
    pub num_hidden_layers: usize,
    pub num_attention_heads: usize,
    pub intermediate_size: usize,
    pub max_position_embeddings: usize,
    pub layer_norm_eps: Numeral,
    pub pad_token_id: u32,
    pub global_attn_every_n_layers: usize,
    pub global_rope_theta: Numeral,
    pub local_attention: usize,
    pub local_rope_theta: Numeral,
}

impl View for EncoderConfig {
    type V = Shape;

    open spec fn view(&self) -> Shape {
        Shape {
            vocab_size: self.vocab_size,
            hidden_size: self.hidden_size,
            num_hidden_layers: self.num_hidden_layers,
            num_attention_heads: self.num_attention_heads,
            intermediate_size: self.intermediate_size,
            max_position_embeddings: self.max_position_embeddings,
            layer_norm_eps: self.layer_norm_eps@,
            pad_token_id: self.pad_token_id,
            global_attn_every_n_layers: self.global_attn_every_n_layers,
            global_rope_theta: self.global_rope_theta@,
            local_attention: self.local_attention,
            local_rope_theta: self.local_rope_theta@,
        }
    }
}

/// A non-negative integer under `key`, if there is one.
pub open spec fn unsigned_at(v: Json, key: Seq<char>) -> Option<u64> {
    match field(v, key) {
        Some(x) => unsigned_of(x),
        None => None,
    }
}

/// A non-negative integer under `key`, or else `fallback`.
pub open spec fn unsigned_or(v: Json, key: Seq<char>, fallback: u64) -> u64 {
    match unsigned_at(v, key) {
        Some(n) => n,
        None => fallback,
    }
}

/// A number under `key`, if there is one.
pub open spec fn number_at(v: Json, key: Seq<char>) -> Option<Numeral> {
    match field(v, key) {
        Some(x) => number_of(x),
        None => None,
    }
}

/// The field under `key` of an optional value.
pub open spec fn field_of(v: Option<Json>, key: Seq<char>) -> Option<Json> {
    match v {
        Some(x) => field(x, key),
        None => None,
    }
}

/// The architecture a config names.
pub open spec fn model_type_of(v: Json) -> Seq<char> {
    match field(v, "model_type"@) {
        Some(Json::Text(s)) => s,
        _ => Seq::empty(),
    }
}

/// A RoPE base: nested under `rope_parameters`, or else flat, or else `fallback`.
pub open spec fn rope_of(
    v: Json,
    kind: Seq<char>,
    flat: Seq<char>,
    fallback: Numeral,
) -> Numeral {
    let nested = field_of(field_of(field(v, "rope_parameters"@), kind), "rope_theta"@);
    let base = match nested {
        Some(x) => number_of(x),
        None => None,
    };
    match base {
        Some(n) => n,
        None => match number_at(v, flat) {
            Some(n) => n,
            None => fallback,
        },
    }
}

/// The layer-norm epsilon: under its longer name if that is there at all, or else its shorter one.
pub open spec fn eps_of(v: Json) -> Numeral {
    let given = match field(v, "layer_norm_eps"@) {
        Some(x) => Some(x),
        None => field(v, "norm_eps"@),
    };
    let eps = match given {
        Some(x) => number_of(x),
        None => None,
    };
    match eps {
        Some(n) => n,
        None => Numeral::Float { negative: false, digits: "1"@, exponent: -5 },
    }
}

/// The complaint about an architecture other than ModernBERT.
pub open spec fn unsupported(path: Seq<char>, model_type: Seq<char>) -> Failure {
    Failure::Checkpoint(
        path + ": unsupported encoder architecture "@ + quoted(model_type)
            + "; this crate implements the ModernBERT backbone only"@,
    )
}

/// The complaint about a size that is not there.
pub open spec fn no_size(path: Seq<char>, key: Seq<char>) -> Failure {
    Failure::Checkpoint(path + ": missing or invalid "@ + quoted(key))
}

/// The sizes a config must give, in the order they are looked for.
pub open spec fn size_key(i: int) -> Seq<char> {
    if i == 0 {
        "vocab_size"@
    } else if i == 1 {
        "hidden_size"@
    } else if i == 2 {
        "num_hidden_layers"@
    } else if i == 3 {
        "num_attention_heads"@
    } else if i == 4 {
        "intermediate_size"@
    } else {
        "max_position_embeddings"@
    }
}

/// The first size from the `i`-th on that is not there.
pub open spec fn missing_from(v: Json, i: int) -> Option<Seq<char>>
    decreases 6 - i,
{
    if i >= 6 {
        None
    } else if unsigned_at(v, size_key(i)) is None {
        Some(size_key(i))
    } else {
        missing_from(v, i + 1)
    }
}

/// The shape of the backbone that a `config.json` describes.
///
/// Transformers 5 moved the RoPE bases into a nested `rope_parameters` block; both that shape and
/// the older flat `global_rope_theta` / `local_rope_theta` are accepted.
pub open spec fn shape_of(path: Seq<char>, v: Json) -> Result<Shape, Failure> {
    if model_type_of(v) != "modernbert"@ {
        Err(unsupported(path, model_type_of(v)))
    } else {
        match missing_from(v, 0) {
            Some(key) => Err(no_size(path, key)),
            None => Ok(
                Shape {
                    vocab_size: unsigned_or(v, "vocab_size"@, 0) as usize,
                    hidden_size: unsigned_or(v, "hidden_size"@, 0) as usize,
                    num_hidden_layers: unsigned_or(v, "num_hidden_layers"@, 0) as usize,
                    num_attention_heads: unsigned_or(v, "num_attention_heads"@, 0) as usize,
                    intermediate_size: unsigned_or(v, "intermediate_size"@, 0) as usize,
                    max_position_embeddings: unsigned_or(
                        v,
                        "max_position_embeddings"@,
                        0,
                    ) as usize,
                    layer_norm_eps: eps_of(v),
                    pad_token_id: unsigned_or(v, "pad_token_id"@, 0) as u32,
                    global_attn_every_n_layers: unsigned_or(
                        v,
                        "global_attn_every_n_layers"@,
                        3,
                    ) as usize,
                    global_rope_theta: rope_of(
                        v,
                        "full_attention"@,
                        "global_rope_theta"@,
                        Numeral::PosInt(160_000),
                    ),
                    local_attention: unsigned_or(v, "local_attention"@, 128) as usize,
                    local_rope_theta: rope_of(
                        v,
                        "sliding_attention"@,
                        "local_rope_theta"@,
                        Numeral::PosInt(10_000),
                    ),
                },
            ),
        }
    }
}

fn get_unsigned(v: &Value, key: &str) -> (r: Option<u64>)
    ensures
        r == unsigned_at(v@, key@),
{
    match v.get(key) {
        Some(x) => x.as_u64(),
        None => None,
    }
}

fn get_unsigned_or(v: &Value, key: &str, fallback: u64) -> (r: u64)
    ensures
        r == unsigned_or(v@, key@, fallback),
{
    match get_unsigned(v, key) {
        Some(n) => n,
        None => fallback,
    }
}

fn get_size(v: &Value, key: &str, path: &str) -> (r: Result<usize, Error>)
    ensures
        match r {
            Ok(n) => unsigned_at(v@, key@) is Some && n == unsigned_or(v@, key@, 0) as usize,
            Err(e) => unsigned_at(v@, key@) is None && e@ == no_size(path@, key@),
        },
{
    match get_unsigned(v, key) {
        Some(n) => Ok(
            #[verifier::truncate]
            (n as usize),
        ),
        None => Err(
            Error::Checkpoint(concat3(path, ": missing or invalid ", quote(key).as_str())),
        ),
    }
}

fn get_rope(v: &Value, kind: &str, flat: &str, fallback: u64) -> (r: Number)
    ensures
        r@ == rope_of(v@, kind@, flat@, Numeral::PosInt(fallback)),
{
    let block = match v.get("rope_parameters") {
        Some(x) => x.get(kind),
        None => None,
    };
    let theta = match block {
        Some(x) => x.get("rope_theta"),
        None => None,
    };
    let base = match theta {
        Some(x) => x.as_number(),
        None => None,
    };
    match base {
        Some(n) => n.clone(),
        None => {
            let old = match v.get(flat) {
                Some(x) => x.as_number(),
                None => None,
            };
            match old {
                Some(n) => n.clone(),
                None => Number::PosInt(fallback),
            }
        },
    }
}

fn get_eps(v: &Value) -> (r: Number)
    ensures
        r@ == eps_of(v@),
{
    let given = match v.get("layer_norm_eps") {
        Some(x) => Some(x),
        None => v.get("norm_eps"),
    };
    let eps = match given {
        Some(x) => x.as_number(),
        None => None,
    };
    match eps {
        Some(n) => n.clone(),
        None => Number::Float(
            Decimal { negative: false, digits: "1".to_owned(), exponent: -5 },
        ),
    }
}

/// Turn an encoder's `config.json` into the shape of its backbone. `path` names the file in errors.
pub fn encoder_config(path: &str, v: &Value) -> (r: Result<EncoderConfig, Error>)
    ensures
        match r {
            Ok(c) => shape_of(path@, v@) == Ok::<Shape, Failure>(c@),
            Err(e) => shape_of(path@, v@) == Err::<Shape, Failure>(e@),
        },
{
    reveal_with_fuel(missing_from, 7);
    let given = match v.get("model_type") {
        Some(x) => x.as_str(),
        None => None,
    };
    let model_type = match given {
        Some(s) => s.to_owned(),
        None => String::new(),
    };
    assert(model_type@ =~= model_type_of(v@));
    if !same_text(model_type.as_str(), "modernbert") {
        let mut message = concat3(
            path,
            ": unsupported encoder architecture ",
            quote(model_type.as_str()).as_str(),
        );
        message.append("; this crate implements the ModernBERT backbone only");
        return Err(Error::Checkpoint(message));
    }
    let vocab_size: usize = get_size(v, "vocab_size", path)?;
    let hidden_size: usize = get_size(v, "hidden_size", path)?;
    let num_hidden_layers: usize = get_size(v, "num_hidden_layers", path)?;
    let num_attention_heads: usize = get_size(v, "num_attention_heads", path)?;
    let intermediate_size: usize = get_size(v, "intermediate_size", path)?;
    let max_position_embeddings: usize = get_size(v, "max_position_embeddings", path)?;
    Ok(
        EncoderConfig {
            vocab_size,
            hidden_size,
            num_hidden_layers,
            num_attention_heads,
            intermediate_size,
            max_position_embeddings,
            layer_norm_eps: get_eps(v),
            pad_token_id: #[verifier::truncate]
            (get_unsigned_or(v, "pad_token_id", 0) as u32),
            global_attn_every_n_layers: #[verifier::truncate]
            (get_unsigned_or(v, "global_attn_every_n_layers", 3) as usize),
            global_rope_theta: get_rope(v, "full_attention", "global_rope_theta", 160_000),
            local_attention: #[verifier::truncate]
            (get_unsigned_or(v, "local_attention", 128) as usize),
            local_rope_theta: get_rope(v, "sliding_attention", "local_rope_theta", 10_000),
        },
    )
}

// ----------------------------------------------------------------------- laws

/// An encoder is described by its architecture and its six sizes: the description is accepted exactly
/// when the architecture is ModernBERT and every size is there as an unsigned number.
pub proof fn law_what_an_encoder_needs(path: Seq<char>, v: Json)
    ensures
        shape_of(path, v) is Ok <==> {
            &&& field(v, "model_type"@) == Some(Json::Text("modernbert"@))
            &&& unsigned_at(v, "vocab_size"@) is Some
            &&& unsigned_at(v, "hidden_size"@) is Some
            &&& unsigned_at(v, "num_hidden_layers"@) is Some
            &&& unsigned_at(v, "num_attention_heads"@) is Some
            &&& unsigned_at(v, "intermediate_size"@) is Some
            &&& unsigned_at(v, "max_position_embeddings"@) is Some
        },
        shape_of(path, v) is Err && field(v, "model_type"@) == Some(Json::Text("modernbert"@))
            ==> exists|i: int|
            0 <= i < 6 && unsigned_at(v, #[trigger] size_key(i)) is None && shape_of(path, v) == Err::<
                Shape,
                Failure,
            >(Failure::Checkpoint(path + ": missing or invalid "@ + quoted(size_key(i)))),
{
    reveal_with_fuel(missing_from, 7);
    reveal_strlit("modernbert");
    assert("modernbert"@.len() == 10);
    assert(size_key(0) == "vocab_size"@ && size_key(1) == "hidden_size"@ && size_key(2)
        == "num_hidden_layers"@);
    assert(size_key(3) == "num_attention_heads"@ && size_key(4) == "intermediate_size"@ && size_key(5)
        == "max_position_embeddings"@);
}

/// Every size of an encoder is the number under its own key, and what may be left out has its default:
/// padding 0, every third layer global, a window of 128.
pub proof fn law_sizes_stand_under_their_keys(path: Seq<char>, v: Json, n: u64)
    requires
        shape_of(path, v) is Ok,
    ensures
        ({
            let s = shape_of(path, v)->Ok_0;
            &&& unsigned_at(v, "vocab_size"@) == Some(n) ==> s.vocab_size == n as usize
            &&& unsigned_at(v, "hidden_size"@) == Some(n) ==> s.hidden_size == n as usize
            &&& unsigned_at(v, "num_hidden_layers"@) == Some(n) ==> s.num_hidden_layers == n as usize
            &&& unsigned_at(v, "num_attention_heads"@) == Some(n) ==> s.num_attention_heads == n as usize
            &&& unsigned_at(v, "intermediate_size"@) == Some(n) ==> s.intermediate_size == n as usize
            &&& unsigned_at(v, "max_position_embeddings"@) == Some(n) ==> s.max_position_embeddings == n as usize
            &&& unsigned_at(v, "pad_token_id"@) == Some(n) ==> s.pad_token_id == n as u32
            &&& unsigned_at(v, "global_attn_every_n_layers"@) == Some(n) ==> s.global_attn_every_n_layers == n as usize
            &&& unsigned_at(v, "local_attention"@) == Some(n) ==> s.local_attention == n as usize
            &&& unsigned_at(v, "pad_token_id"@) is None ==> s.pad_token_id == 0
            &&& unsigned_at(v, "global_attn_every_n_layers"@) is None
                ==> s.global_attn_every_n_layers == 3
            &&& unsigned_at(v, "local_attention"@) is None ==> s.local_attention == 128
        }),
{
}

/// The base of the rotary embedding is the one under the kind of attention, before the one on its own,
/// before the default: 160000 for full attention and 10000 for sliding. The number that keeps the norm
/// from dividing by zero stands under either of two keys, the longer one first, and is a hundred
/// thousandth by default.
pub proof fn law_where_the_other_numbers_stand(path: Seq<char>, v: Json, n: Numeral)
    requires
        shape_of(path, v) is Ok,
    ensures
        ({
            let s = shape_of(path, v)->Ok_0;
            let full = field_of(
                field_of(field(v, "rope_parameters"@), "full_attention"@),
                "rope_theta"@,
            );
            let sliding = field_of(
                field_of(field(v, "rope_parameters"@), "sliding_attention"@),
                "rope_theta"@,
            );
            &&& full == Some(Json::Number(n)) ==> s.global_rope_theta == n
            &&& !(full matches Some(x) && x is Number) && number_at(v, "global_rope_theta"@) == Some(
                n,
            ) ==> s.global_rope_theta == n
            &&& !(full matches Some(x) && x is Number) && number_at(v, "global_rope_theta"@) is None
                ==> s.global_rope_theta == Numeral::PosInt(160_000)
            &&& sliding == Some(Json::Number(n)) ==> s.local_rope_theta == n
            &&& !(sliding matches Some(x) && x is Number) && number_at(v, "local_rope_theta"@)
                == Some(n) ==> s.local_rope_theta == n
            &&& !(sliding matches Some(x) && x is Number) && number_at(v, "local_rope_theta"@) is None
                ==> s.local_rope_theta == Numeral::PosInt(10_000)
            &&& field(v, "layer_norm_eps"@) == Some(Json::Number(n)) ==> s.layer_norm_eps == n
            &&& field(v, "layer_norm_eps"@) is None && field(v, "norm_eps"@) == Some(
                Json::Number(n),
            ) ==> s.layer_norm_eps == n
            &&& field(v, "layer_norm_eps"@) is None && field(v, "norm_eps"@) is None
                ==> s.layer_norm_eps == (Numeral::Float {
                negative: false,
                digits: "1"@,
                exponent: -5,
            })
        }),
{
}

/// A caller is given the shape that a description has, or why it has none.
pub proof fn law_given_shapes(path: &str, v: &Value, r: Result<EncoderConfig, Error>)
    requires
        call_ensures(encoder_config, (path, v), r),
    ensures
        r matches Ok(c) ==> shape_of(path@, v@) == Ok::<Shape, Failure>(c@),
        r matches Err(e) ==> shape_of(path@, v@) == Err::<Shape, Failure>(e@),
{
}

} // verus!
