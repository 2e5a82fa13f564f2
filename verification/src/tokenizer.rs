//! The checkpoint tokenizer and the four special tokens the sequence format needs.

use serde_json::Value as Document;
use tokenizers::{NormalizedString, Normalizer, Tokenizer};
use vstd::prelude::*;
use vstd::string::*;

use crate::error::{concat2, concat3, Error, Failure};
use crate::json::{field, Json, Number, Value};
use crate::ordered::lookup;
use crate::pipeline::{blanks_matter, is_sound, is_token, minds_blanks, sound, token};
use crate::unicode::{quote, quoted};

verus! {

// ----------------------------------------------------------------------- the outside tokenizer

/// `tokenizers::Tokenizer`, carried through and never looked into.
#[verifier::external_type_specification]
#[verifier::external_body]
pub struct ExTokenizer(tokenizers::Tokenizer);

/// What `Tokenizer::token_to_id` says of a token.
pub uninterp spec fn token_id(tok: tokenizers::Tokenizer, token: Seq<char>) -> Option<u32>;

/// Whether `Tokenizer::get_truncation` gives parameters, that is, whether encodings are cut.
pub uninterp spec fn truncates(tok: tokenizers::Tokenizer) -> bool;

/// `serde_json::Value`, read as a whole by [`value_of`].
#[verifier::external_type_specification]
#[verifier::external_body]
pub struct ExDocument(Document);

/// What a `serde_json::Value` holds.
pub uninterp spec fn held(v: Document) -> Json;

/// What `serde_json::to_value` says of a tokenizer's parts but for its model: an array of the
/// normalizer, the pre-tokenizer, the post-processor, the padding and the added tokens; nothing when
/// it fails. A pattern is described by the text that it is compiled from.
pub uninterp spec fn description(tok: tokenizers::Tokenizer) -> Option<Json>;

/// The texts of a tokenizer's added tokens: the keys of what `AddedVocabulary::get_vocab` gives.
pub uninterp spec fn added_texts(tok: tokenizers::Tokenizer) -> Set<Seq<char>>;

/// What a tokenizer's normalizer makes of a text.
pub uninterp spec fn normal_form(tok: tokenizers::Tokenizer, text: Seq<char>) -> Seq<char>;

/// Whether `Tokenizer::add_tokens` ran after the last change of the normalizer and of the added
/// tokens, so that these are looked for in their normal form.
pub uninterp spec fn is_fresh(tok: tokenizers::Tokenizer) -> bool;

/// Whether a tokenizer can be run on every text: it cuts no encodings, looks for its added tokens in
/// their normal form, and is set up so that none of its parts panics.
pub open spec fn is_runnable(tok: tokenizers::Tokenizer) -> bool {
    !truncates(tok) && is_fresh(tok) && is_well_set_up(tok)
}

/// Whether a tokenizer has a description, one that is sound, and added tokens that are something to
/// look for.
pub open spec fn is_well_set_up(tok: tokenizers::Tokenizer) -> bool {
    match description(tok) {
        Some(d) => is_sound(d) && (forall|text: Seq<char>| #[trigger]
            added_texts(tok).contains(text) ==> is_token(
                text,
                normal_form(tok, text),
                minds_blanks(d),
            )),
        None => false,
    }
}

/// Whether `Tokenizer::encode_fast` can answer a text, encoded without special tokens, with these
/// token ids or this error message. A tokenizer may be configured to drop merges at random, so
/// one text can have several answers.
pub uninterp spec fn encodes(
    tok: tokenizers::Tokenizer,
    text: Seq<char>,
    answer: Result<Seq<u32>, Seq<char>>,
) -> bool;

/// The ids or the message of an answer.
pub open spec fn answer_of(r: Result<Vec<u32>, String>) -> Result<Seq<u32>, Seq<char>> {
    match r {
        Ok(ids) => Ok(ids@),
        Err(e) => Err(e@),
    }
}

/// `Tokenizer::token_to_id`: the id of a token in the added or the model's vocabulary, named
/// [`token_id`].
#[verifier::external_body]
fn token_to_id(tok: &Tokenizer, token: &str) -> (r: Option<u32>)
    ensures
        r == token_id(*tok, token@),
{
    tok.token_to_id(token)
}

/// `serde_json::to_value` on what `Tokenizer::get_normalizer`, `get_pre_tokenizer`,
/// `get_post_processor`, `get_padding` and `get_added_vocabulary` give: their description, named
/// [`description`].
#[verifier::external_body]
fn describe(tok: &Tokenizer) -> (r: Option<Document>)
    ensures
        match r {
            Some(v) => description(*tok) == Some(held(v)),
            None => description(*tok) is None,
        },
{
    serde_json::to_value((
        tok.get_normalizer(),
        tok.get_pre_tokenizer(),
        tok.get_post_processor(),
        tok.get_padding(),
        tok.get_added_vocabulary(),
    )).ok()
}

/// A `serde_json::Value` as a [`Value`], variant by variant; a number that is no unsigned integer
/// becomes its text. What it holds is named [`held`].
#[verifier::external_body]
fn value_of(v: &Document) -> (r: Value)
    ensures
        r@ == held(*v),
{
    match v {
        Document::Null => Value::Null,
        Document::Bool(b) => Value::Bool(*b),
        Document::Number(n) => match n.as_u64() {
            Some(u) => Value::Number(Number::PosInt(u)),
            None => Value::String(n.to_string()),
        },
        Document::String(s) => Value::String(s.clone()),
        Document::Array(a) => Value::Array(a.iter().map(value_of).collect()),
        Document::Object(m) => Value::Object(
            m.iter().map(|(k, x)| (k.clone(), value_of(x))).collect(),
        ),
    }
}

/// The keys of `AddedVocabulary::get_vocab`, in no particular order. They are named
/// [`added_texts`].
#[verifier::external_body]
fn texts_of_added(tok: &Tokenizer) -> (r: Vec<String>)
    ensures
        forall|text: Seq<char>| #[trigger]
            added_texts(*tok).contains(text) <==> among_texts(r@, text),
{
    tok.get_added_vocabulary().get_vocab().keys().cloned().collect()
}

/// `Normalizer::normalize` with the normalizer that `Tokenizer::get_normalizer` gives, if it gives
/// one: the normalized text, named [`normal_form`]. One that is set up in an unsound way can make
/// the call panic, so the description must be sound.
#[verifier::external_body]
fn normalized(tok: &Tokenizer, text: &str) -> (r: String)
    requires
        match description(*tok) {
            Some(d) => is_sound(d),
            None => false,
        },
    ensures
        r@ == normal_form(*tok, text@),
{
    let mut normalized = NormalizedString::from(text);
    if let Some(normalizer) = tok.get_normalizer() {
        let _ = normalizer.normalize(&mut normalized);
    }
    normalized.get().to_owned()
}

/// `Tokenizer::add_tokens` without a token: it changes no part and no vocabulary, and normalizes the
/// added tokens anew. One that is set up in an unsound way can make the call panic, so the
/// description must be sound.
#[verifier::external_body]
fn refreshed(tok: Tokenizer) -> (r: Tokenizer)
    requires
        match description(tok) {
            Some(d) => is_sound(d),
            None => false,
        },
    ensures
        is_fresh(r),
        truncates(r) == truncates(tok),
        description(r) == description(tok),
        added_texts(r) == added_texts(tok),
        forall|text: Seq<char>| #[trigger] normal_form(r, text) == normal_form(tok, text),
        forall|token: Seq<char>| #[trigger] token_id(r, token) == token_id(tok, token),
{
    let mut tok = tok;
    let _ = tok.add_tokens(&[]);
    tok
}

/// `Tokenizer::with_truncation(None)`: it stores the missing parameters, touches no vocabulary and
/// no other part, and cannot fail, since only given parameters are checked.
#[verifier::external_body]
fn without_truncation(tok: Tokenizer) -> (r: Tokenizer)
    ensures
        !truncates(r),
        description(r) == description(tok),
        added_texts(r) == added_texts(tok),
        is_fresh(r) == is_fresh(tok),
        forall|text: Seq<char>| #[trigger] normal_form(r, text) == normal_form(tok, text),
        forall|token: Seq<char>| #[trigger] token_id(r, token) == token_id(tok, token),
{
    let mut tok = tok;
    let _ = tok.with_truncation(None);
    tok
}

/// `Tokenizer::encode_fast` without special tokens: the ids of the encoding, or the message of the
/// error. The answer is one that the tokenizer can give this text, see [`encodes`]; which ids a
/// vocabulary gives a text is left unsaid. A truncation rule, or a part that is set up in an
/// unsound way, can make the call panic, so there must be none, see [`is_runnable`].
#[verifier::external_body]
pub(crate) fn encode_ids(tok: &Tokenizer, text: &str) -> (r: Result<Vec<u32>, String>)
    requires
        is_runnable(*tok),
    ensures
        encodes(*tok, text@, answer_of(r)),
{
    match tok.encode_fast(text, false) {
        Ok(encoding) => Ok(encoding.get_ids().to_vec()),
        Err(e) => Err(e.to_string()),
    }
}

// ----------------------------------------------------------------------- special tokens

/// The special tokens that frame a decision sequence.
#[derive(Debug)]
pub struct SpecialTokens {
    pub cls_id: u32,
    pub sep_id: u32,
    pub mask_id: u32,
    pub pad_id: u32,
    /// The literal mask token, stripped out of any user text so it cannot forge a marker.
    pub mask_token: String,
}

/// The text of a special token: a plain string in the config, the content of an added-token object,
/// or the fallback.
pub open spec fn token_text_of(config: Json, key: Seq<char>, fallback: Seq<char>) -> Seq<char> {
    match field(config, key) {
        Some(Json::Text(s)) => s,
        Some(added) => match field(added, "content"@) {
            Some(Json::Text(s)) => s,
            _ => fallback,
        },
        None => fallback,
    }
}

/// The complaint about a special token that the tokenizer does not know.
pub open spec fn no_id(label: Seq<char>, key: Seq<char>, token: Seq<char>) -> Failure {
    Failure::Tokenizer(
        label + ": the tokenizer has no id for "@ + key + " = "@ + quoted(token),
    )
}

/// The special tokens of a tokenizer under a config; the first one that has no id is an error.
pub open spec fn special_tokens_of(
    tok: Tokenizer,
    config: Json,
    label: Seq<char>,
) -> Result<(u32, u32, u32, u32), Failure> {
    let cls = token_text_of(config, "cls_token"@, "[CLS]"@);
    let sep = token_text_of(config, "sep_token"@, "[SEP]"@);
    let mask = token_text_of(config, "mask_token"@, "[MASK]"@);
    let pad = token_text_of(config, "pad_token"@, "[PAD]"@);
    match token_id(tok, cls) {
        None => Err(no_id(label, "cls_token"@, cls)),
        Some(c) => match token_id(tok, sep) {
            None => Err(no_id(label, "sep_token"@, sep)),
            Some(s) => match token_id(tok, mask) {
                None => Err(no_id(label, "mask_token"@, mask)),
                Some(m) => match token_id(tok, pad) {
                    None => Err(no_id(label, "pad_token"@, pad)),
                    Some(p) => Ok((c, s, m, p)),
                },
            },
        },
    }
}

/// The text of the special token `key`: stored either as a plain string or as an added-token
/// object.
pub fn token_text(config: &Value, key: &str, fallback: &str) -> (r: String)
    ensures
        r@ == token_text_of(config@, key@, fallback@),
{
    match config.get(key) {
        Some(Value::String(s)) => s.clone(),
        Some(added) => {
            let content = match added.get("content") {
                Some(v) => v.as_str(),
                None => None,
            };
            match content {
                Some(s) => s.to_owned(),
                None => fallback.to_owned(),
            }
        },
        None => fallback.to_owned(),
    }
}

/// The id of a special token, or the complaint that there is none.
pub fn resolved(label: &str, key: &str, token: &str, id: Option<u32>) -> (r: Result<u32, Error>)
    ensures
        match r {
            Ok(n) => id == Some(n),
            Err(e) => id is None && e@ == no_id(label@, key@, token@),
        },
{
    match id {
        Some(n) => Ok(n),
        None => {
            let mut message = concat3(label, ": the tokenizer has no id for ", key);
            message.append(" = ");
            message.append(quote(token).as_str());
            Err(Error::Tokenizer(message))
        },
    }
}

/// The complaint about a tokenizer that cannot be run on every text.
pub open spec fn not_runnable(label: Seq<char>) -> Failure {
    Failure::Tokenizer(label + ": the tokenizer is set up in a way that can make it panic"@)
}

/// Whether a text is one of some texts.
pub open spec fn among_texts(texts: Seq<String>, text: Seq<char>) -> bool {
    exists|i: int| 0 <= i < texts.len() && (#[trigger] texts[i])@ == text
}

/// Whether a tokenizer has a description, one that is sound, and added tokens that are something to
/// look for.
fn well_set_up(tok: &Tokenizer) -> (r: bool)
    ensures
        r == is_well_set_up(*tok),
{
    let d = match describe(tok) {
        Some(v) => value_of(&v),
        None => return false,
    };
    if !sound(&d) {
        return false;
    }
    let blanks = blanks_matter(&d);
    let texts = texts_of_added(tok);
    for i in 0..texts.len()
        invariant
            description(*tok) == Some(d@),
            is_sound(d@),
            blanks == minds_blanks(d@),
            forall|text: Seq<char>| #[trigger]
                added_texts(*tok).contains(text) <==> among_texts(texts@, text),
            forall|j: int|
                0 <= j < i ==> is_token(
                    (#[trigger] texts@[j])@,
                    normal_form(*tok, texts@[j]@),
                    blanks,
                ),
    {
        let form = normalized(tok, texts[i].as_str());
        if !token(texts[i].as_str(), form.as_str(), blanks) {
            assert(among_texts(texts@, texts@[i as int]@));
            assert(added_texts(*tok).contains(texts@[i as int]@));
            return false;
        }
    }
    true
}

/// Make a tokenizer ready: find its special tokens, as `tokenizer_config.json` names them, and
/// clear the truncation rule its file may carry. A tokenizer that could panic on some text is an
/// error. `label` names the tokenizer in errors.
pub fn prepare(tok: Tokenizer, config: &Value, label: &str) -> (r: Result<
    (Tokenizer, SpecialTokens),
    Error,
>)
    ensures
        match r {
            Ok((t, sp)) => {
                &&& special_tokens_of(tok, config@, label@) == Ok::<
                    (u32, u32, u32, u32),
                    Failure,
                >((sp.cls_id, sp.sep_id, sp.mask_id, sp.pad_id))
                &&& sp.mask_token@ == token_text_of(config@, "mask_token"@, "[MASK]"@)
                &&& is_well_set_up(tok)
                &&& is_runnable(t)
                &&& description(t) == description(tok)
                &&& forall|token: Seq<char>| #[trigger] token_id(t, token) == token_id(tok, token)
            },
            Err(e) => match special_tokens_of(tok, config@, label@) {
                Err(f) => e@ == f,
                Ok(_) => !is_well_set_up(tok) && e@ == not_runnable(label@),
            },
        },
{
    let cls = token_text(config, "cls_token", "[CLS]");
    let cls_id: u32 = match resolved(
        label,
        "cls_token",
        cls.as_str(),
        token_to_id(&tok, cls.as_str()),
    ) {
        Ok(n) => n,
        Err(e) => return Err(e),
    };
    let sep = token_text(config, "sep_token", "[SEP]");
    let sep_id: u32 = match resolved(
        label,
        "sep_token",
        sep.as_str(),
        token_to_id(&tok, sep.as_str()),
    ) {
        Ok(n) => n,
        Err(e) => return Err(e),
    };
    let mask_token = token_text(config, "mask_token", "[MASK]");
    let mask_id: u32 = match resolved(
        label,
        "mask_token",
        mask_token.as_str(),
        token_to_id(&tok, mask_token.as_str()),
    ) {
        Ok(n) => n,
        Err(e) => return Err(e),
    };
    let pad = token_text(config, "pad_token", "[PAD]");
    let pad_id: u32 = match resolved(
        label,
        "pad_token",
        pad.as_str(),
        token_to_id(&tok, pad.as_str()),
    ) {
        Ok(n) => n,
        Err(e) => return Err(e),
    };
    if !well_set_up(&tok) {
        return Err(
            Error::Tokenizer(
                concat2(label, ": the tokenizer is set up in a way that can make it panic"),
            ),
        );
    }
    Ok((without_truncation(refreshed(tok)), SpecialTokens { cls_id, sep_id, mask_id, pad_id, mask_token }))
}

// ----------------------------------------------------------------------- laws

/// A special token is the text that the configuration gives it, as a string or as the content of an
/// object, and the usual one where it gives none.
pub proof fn law_texts_of_special_tokens(
    config: Json,
    key: Seq<char>,
    fallback: Seq<char>,
    s: Seq<char>,
)
    ensures
        field(config, key) == Some(Json::Text(s)) ==> token_text_of(config, key, fallback) == s,
        field(config, key) is None ==> token_text_of(config, key, fallback) == fallback,
        field(config, key) matches Some(Json::Object(fields)) ==> {
            &&& lookup(fields, "content"@) == Some(Json::Text(s)) ==> token_text_of(
                config,
                key,
                fallback,
            ) == s
            &&& lookup(fields, "content"@) is None ==> token_text_of(config, key, fallback)
                == fallback
        },
{
}

/// Special tokens are resolved exactly when the tokenizer has an id for each of the four, and then each
/// has its own.
pub proof fn law_special_tokens_are_resolved(tok: Tokenizer, config: Json, label: Seq<char>)
    ensures
        ({
            let cls = token_id(tok, token_text_of(config, "cls_token"@, "[CLS]"@));
            let sep = token_id(tok, token_text_of(config, "sep_token"@, "[SEP]"@));
            let mask = token_id(tok, token_text_of(config, "mask_token"@, "[MASK]"@));
            let pad = token_id(tok, token_text_of(config, "pad_token"@, "[PAD]"@));
            &&& special_tokens_of(tok, config, label) is Ok <==> cls is Some && sep is Some
                && mask is Some && pad is Some
            &&& special_tokens_of(tok, config, label) matches Ok((c, s, m, p)) ==> cls == Some(c)
                && sep == Some(s) && mask == Some(m) && pad == Some(p)
        }),
{
}

/// A caller is given the text of a special token as the configuration has it, and its id or the complaint
/// that it has none.
pub proof fn law_given_special_tokens(
    config: &Value,
    key: &str,
    fallback: &str,
    text: String,
    label: &str,
    token: &str,
    id: Option<u32>,
    r: Result<u32, Error>,
)
    requires
        call_ensures(token_text, (config, key, fallback), text),
        call_ensures(resolved, (label, key, token, id), r),
    ensures
        text@ == token_text_of(config@, key@, fallback@),
        id matches Some(n) ==> r == Ok::<u32, Error>(n),
        id is None ==> (r matches Err(e) && e@ == no_id(label@, key@, token@)),
{
}

} // verus!
