//! The inference runtime around the model: check a checkpoint's tensors, turn a state and
//! questions into a batch, and read the answers off what the forward pass gives.

use vstd::prelude::*;
use vstd::string::*;

use crate::error::{concat2, concat3, Error, Failure};
use crate::text::{
    before_char, begins_with, chars_of, decimal, decimal_text, in_order, is_digit, join, joined,
    law_decimals_are_read_back, lemma_find_char_unique, lemma_precedes_chain, lemma_precedes_total, parse_u64, parsed_nat, position, precedes,
    same_text, stands_before, starts_with, string_of, texts,
};
use crate::unicode::{quote, quoted};

verus! {

// ----------------------------------------------------------------------- tensors of a checkpoint

/// Prefixes a usable checkpoint must define, so a mismatched file fails at load and not halfway
/// through a prediction.
pub const REQUIRED_PREFIXES: [&'static str; 4] = ["encoder.", "type_emb.", "scorer.", "act_head."];

/// A top-level tensor a checkpoint may hold besides [`REQUIRED_PREFIXES`] and `head.layers.*`: the
/// training-time temperature parameter, which inference reads from the config instead.
pub const OPTIONAL_KEY: &'static str = "temperature";

/// What the layers of the decision head begin with.
pub const HEAD_LAYERS: &'static str = "head.layers.";

/// What the layers of the encoder begin with.
pub const ENCODER_LAYERS: &'static str = "encoder.layers.";

/// Whether some key begins with a prefix.
pub open spec fn any_begins(keys: Seq<Seq<char>>, prefix: Seq<char>) -> bool {
    exists|i: int| 0 <= i < keys.len() && begins_with(#[trigger] keys[i], prefix)
}

/// The error for a file without the parameters of a prefix.
pub open spec fn no_parameters(label: Seq<char>, prefix: Seq<char>) -> Failure {
    Failure::Checkpoint(
        label + ": model.safetensors has no "@ + prefix
            + "* parameters, so it is not a laya decision checkpoint (expected a ModernBERT encoder plus the typed decision head)."@,
    )
}

/// The first required prefix from the `i`-th on that no key has.
pub open spec fn prefix_missing_from(keys: Seq<Seq<char>>, i: int) -> Option<Seq<char>>
    decreases 4 - i,
{
    if i >= 4 {
        None
    } else if !any_begins(keys, REQUIRED_PREFIXES@[i]@) {
        Some(REQUIRED_PREFIXES@[i]@)
    } else {
        prefix_missing_from(keys, i + 1)
    }
}

fn some_begins(keys: &Vec<String>, prefix: &str) -> (r: bool)
    ensures
        r == any_begins(texts(keys@), prefix@),
{
    for i in 0..keys.len()
        invariant
            forall|j: int| 0 <= j < i ==> !begins_with(#[trigger] texts(keys@)[j], prefix@),
    {
        if starts_with(keys[i].as_str(), prefix) {
            assert(begins_with(texts(keys@)[i as int], prefix@));
            return true;
        }
        assert(texts(keys@)[i as int] == keys@[i as int]@);
    }
    false
}

/// Fail early, and say what is actually wrong, when a file is not a decision checkpoint. `keys`
/// are the names of its tensors.
pub fn verify(keys: &Vec<String>, label: &str) -> (r: Result<(), Error>)
    ensures
        match r {
            Ok(_) => prefix_missing_from(texts(keys@), 0) is None,
            Err(e) => prefix_missing_from(texts(keys@), 0) is Some && e@ == no_parameters(
                label@,
                prefix_missing_from(texts(keys@), 0)->0,
            ),
        },
{
    for i in 0..4usize
        invariant
            prefix_missing_from(texts(keys@), 0) == prefix_missing_from(texts(keys@), i as int),
    {
        let prefix = REQUIRED_PREFIXES[i];
        if !some_begins(keys, prefix) {
            let mut message = concat3(label, ": model.safetensors has no ", prefix);
            message.append(
                "* parameters, so it is not a laya decision checkpoint (expected a ModernBERT encoder plus the typed decision head).",
            );
            return Err(Error::Checkpoint(message));
        }
    }
    Ok(())
}

// ----------------------------------------------------------------------- names and sizes

/// The name the backbone looks a tensor up by: what is under `encoder.` is under `encoder.model.`
/// there, anything else keeps its name.
pub open spec fn loaded_name(key: Seq<char>) -> Seq<char> {
    if begins_with(key, "encoder."@) {
        "encoder.model."@ + key.skip("encoder."@.len() as int)
    } else {
        key
    }
}

/// The name the backbone looks a tensor up by.
pub fn remap_key(key: &str) -> (r: String)
    ensures
        r@ == loaded_name(key@),
{
    if !starts_with(key, "encoder.") {
        return key.to_owned();
    }
    let chars = chars_of(key);
    let p: usize = chars_of("encoder.").len();
    let n: usize = chars.len();
    let mut tail: Vec<char> = Vec::new();
    for i in p..n
        invariant
            p <= n == chars@.len(),
            tail@ == chars@.subrange(p as int, i as int),
    {
        tail.push(chars[i]);
        assert(chars@.subrange(p as int, i + 1) =~= chars@.subrange(p as int, i as int).push(
            chars@[i as int],
        ));
    }
    assert(tail@ =~= key@.skip(p as int));
    concat2("encoder.model.", string_of(tail.as_slice()).as_str())
}

/// How many attention heads the decision head has: it follows from the width, not from the
/// encoder.
pub fn head_count(hidden: usize) -> (r: usize)
    ensures
        r == if hidden < 64 {
            1
        } else {
            hidden / 64
        },
        r > 0,
        hidden >= 64 ==> 64 * r <= hidden < 64 * r + 64,
        hidden < 64 ==> r == 1,
{
    if hidden < 64 {
        1
    } else {
        hidden / 64
    }
}

// ----------------------------------------------------------------------- layers

/// The layer index in a key: the `N` of `<prefix>N.*`, if the key has the prefix and that is a
/// number.
pub open spec fn layer_in(key: Seq<char>, prefix: Seq<char>) -> Option<nat> {
    if begins_with(key, prefix) {
        parsed_nat(before_char(key.skip(prefix.len() as int), '.'), usize::MAX as nat)
    } else {
        None
    }
}

/// A number put where it belongs among increasing ones, unless it is there.
pub open spec fn with_number(s: Seq<nat>, n: nat) -> Seq<nat>
    decreases s.len(),
{
    if s.len() == 0 || s.last() < n {
        s.push(n)
    } else if s.last() == n {
        s
    } else {
        with_number(s.drop_last(), n).push(s.last())
    }
}

/// The layer indices under a prefix, increasing, each once.
pub open spec fn layers_in(keys: Seq<Seq<char>>, prefix: Seq<char>) -> Seq<nat>
    decreases keys.len(),
{
    if keys.len() == 0 {
        Seq::empty()
    } else {
        let before = layers_in(keys.drop_last(), prefix);
        match layer_in(keys.last(), prefix) {
            Some(n) => with_number(before, n),
            None => before,
        }
    }
}

/// Numbers that fit, mathematically.
pub open spec fn naturals_of(v: Seq<usize>) -> Seq<nat> {
    Seq::new(v.len(), |i: int| v[i] as nat)
}

/// Whether numbers increase.
pub open spec fn increasing(s: Seq<nat>) -> bool {
    forall|i: int, j: int| 0 <= i < j < s.len() ==> #[trigger] s[i] < #[trigger] s[j]
}

/// Putting a number among increasing ones keeps them increasing and adds that number only.
proof fn lemma_with_number(s: Seq<nat>, n: nat)
    requires
        increasing(s),
    ensures
        increasing(with_number(s, n)),
        forall|k: nat| #[trigger] with_number(s, n).contains(k) <==> s.contains(k) || k == n,
    decreases s.len(),
{
    let t = with_number(s, n);
    if s.len() == 0 || s.last() < n {
        assert forall|k: nat| #[trigger] t.contains(k) <==> s.contains(k) || k == n by {
            if s.contains(k) {
                let i = choose|i: int| 0 <= i < s.len() && s[i] == k;
                assert(t[i] == k);
            }
            assert(t[s.len() as int] == n);
        }
    } else if s.last() == n {
        assert(s[s.len() - 1] == n);
    } else {
        let u = s.drop_last();
        lemma_with_number(u, n);
        let w = with_number(u, n);
        assert forall|k: nat| #[trigger] t.contains(k) <==> s.contains(k) || k == n by {
            assert(w.contains(k) <==> u.contains(k) || k == n);
            if t.contains(k) {
                let i = choose|i: int| 0 <= i < t.len() && t[i] == k;
                if i < w.len() {
                    assert(w[i] == k);
                    if u.contains(k) {
                        let j = choose|j: int| 0 <= j < u.len() && u[j] == k;
                        assert(s[j] == k);
                    }
                } else {
                    assert(s[s.len() - 1] == k);
                }
            }
            if s.contains(k) || k == n {
                if w.contains(k) {
                    let i = choose|i: int| 0 <= i < w.len() && w[i] == k;
                    assert(t[i] == k);
                } else {
                    let j = choose|j: int| 0 <= j < s.len() && s[j] == k;
                    if j < u.len() {
                        assert(u[j] == k);
                    }
                    assert(t[w.len() as int] == k);
                }
            }
        }
        assert forall|i: int, j: int| 0 <= i < j < t.len() implies #[trigger] t[i]
            < #[trigger] t[j] by {
            if j == w.len() {
                assert(w.contains(w[i]));
                if u.contains(w[i]) {
                    let k = choose|k: int| 0 <= k < u.len() && u[k] == w[i];
                    assert(s[k] < s[s.len() - 1]);
                }
            }
        }
    }
}

/// Whether keys hold a layer of this index.
pub open spec fn has_layer(keys: Seq<Seq<char>>, prefix: Seq<char>, n: nat) -> bool {
    exists|i: int| 0 <= i < keys.len() && layer_in(#[trigger] keys[i], prefix) == Some(n)
}

/// The layer indices are increasing, and are exactly those that some key holds.
pub proof fn law_layers_are_sorted_and_complete(keys: Seq<Seq<char>>, prefix: Seq<char>)
    ensures
        increasing(layers_in(keys, prefix)),
        forall|n: nat| #[trigger]
            layers_in(keys, prefix).contains(n) <==> has_layer(keys, prefix, n),
    decreases keys.len(),
{
    if keys.len() > 0 {
        let some = keys.drop_last();
        law_layers_are_sorted_and_complete(some, prefix);
        let last = layer_in(keys.last(), prefix);
        if last is Some {
            lemma_with_number(layers_in(some, prefix), last->0);
        }
        assert forall|n: nat| #[trigger]
            layers_in(keys, prefix).contains(n) <==> has_layer(keys, prefix, n) by {
            assert(layers_in(some, prefix).contains(n) <==> has_layer(some, prefix, n));
            if has_layer(some, prefix, n) {
                let i = choose|i: int|
                    0 <= i < some.len() && layer_in(#[trigger] some[i], prefix) == Some(n);
                assert(layer_in(keys[i], prefix) == Some(n));
            }
            if last == Some(n) {
                assert(layer_in(keys[keys.len() - 1], prefix) == Some(n));
            }
            if has_layer(keys, prefix, n) {
                let i = choose|i: int|
                    0 <= i < keys.len() && layer_in(#[trigger] keys[i], prefix) == Some(n);
                if i < some.len() {
                    assert(layer_in(some[i], prefix) == Some(n));
                }
            }
        }
    }
}

fn layer_of(key: &str, prefix: &str) -> (r: Option<usize>)
    ensures
        match r {
            Some(n) => layer_in(key@, prefix@) == Some(n as nat),
            None => layer_in(key@, prefix@) is None,
        },
{
    if !starts_with(key, prefix) {
        return None;
    }
    let chars = chars_of(key);
    let p: usize = chars_of(prefix).len();
    let n: usize = chars.len();
    let ghost rest = key@.skip(p as int);
    let mut tail: Vec<char> = Vec::new();
    for i in p..n
        invariant
            p <= n == chars@.len(),
            tail@ == chars@.subrange(p as int, i as int),
    {
        tail.push(chars[i]);
        assert(chars@.subrange(p as int, i + 1) =~= chars@.subrange(p as int, i as int).push(
            chars@[i as int],
        ));
    }
    assert(tail@ =~= rest);
    let at: usize = position(tail.as_slice(), '.');
    let mut segment: Vec<char> = Vec::new();
    for i in 0..at
        invariant
            at <= tail@.len(),
            segment@ == tail@.take(i as int),
    {
        segment.push(tail[i]);
        assert(tail@.take(i + 1) =~= tail@.take(i as int).push(tail@[i as int]));
    }
    let text = string_of(segment.as_slice());
    match parse_u64(text.as_str(), usize::MAX as u64) {
        Some(k) => Some(k as usize),
        None => None,
    }
}

fn put_number(found: &mut Vec<usize>, n: usize)
    ensures
        naturals_of(final(found)@) == with_number(naturals_of(old(found)@), n as nat),
{
    let ghost before = found@;
    let ghost s = naturals_of(before);
    let mut i: usize = found.len();
    assert(s.take(s.len() as int) =~= s);
    assert(s.skip(s.len() as int) =~= Seq::empty());
    assert(with_number(s, n as nat) + Seq::<nat>::empty() =~= with_number(s, n as nat));
    while i > 0 && found[i - 1] > n
        invariant
            found@ == before,
            s == naturals_of(before),
            i <= before.len(),
            with_number(s, n as nat) == with_number(s.take(i as int), n as nat) + s.skip(i as int),
        decreases i,
    {
        let ghost t = s.take(i as int);
        let ghost w = with_number(t.drop_last(), n as nat);
        assert(t.last() == s[i - 1]);
        assert(t.drop_last() =~= s.take(i - 1));
        assert(w.push(t.last()) + s.skip(i as int) =~= w + s.skip(i - 1));
        i = i - 1;
    }
    if i > 0 && found[i - 1] == n {
        assert(s.take(i as int) + s.skip(i as int) =~= s);
        return;
    }
    found.insert(i, n);
    assert(naturals_of(found@) =~= s.take(i as int).push(n as nat) + s.skip(i as int));
}

/// The layer indices under `prefix` (`"head.layers."` gives the `N` of `head.layers.N.*`).
pub fn layer_indices(keys: &Vec<String>, prefix: &str) -> (r: Vec<usize>)
    ensures
        naturals_of(r@) == layers_in(texts(keys@), prefix@),
{
    let ghost all = texts(keys@);
    let mut found: Vec<usize> = Vec::new();
    assert(naturals_of(found@) =~= layers_in(all.take(0), prefix@));
    for i in 0..keys.len()
        invariant
            all == texts(keys@),
            naturals_of(found@) == layers_in(all.take(i as int), prefix@),
    {
        assert(all.take(i + 1).drop_last() =~= all.take(i as int));
        if let Some(n) = layer_of(keys[i].as_str(), prefix) {
            put_number(&mut found, n);
        }
    }
    assert(all.take(all.len() as int) =~= all);
    found
}

// ----------------------------------------------------------------------- strays

/// A text put where it belongs in a dictionary.
pub open spec fn with_text(s: Seq<Seq<char>>, x: Seq<char>) -> Seq<Seq<char>>
    decreases s.len(),
{
    if s.len() == 0 || precedes(s.last(), x) {
        s.push(x)
    } else {
        with_text(s.drop_last(), x).push(s.last())
    }
}

/// Whether some part of the model reads a tensor of this name.
pub open spec fn is_read(key: Seq<char>) -> bool {
    ||| key == OPTIONAL_KEY@
    ||| begins_with(key, HEAD_LAYERS@)
    ||| begins_with(key, REQUIRED_PREFIXES@[0]@)
    ||| begins_with(key, REQUIRED_PREFIXES@[1]@)
    ||| begins_with(key, REQUIRED_PREFIXES@[2]@)
    ||| begins_with(key, REQUIRED_PREFIXES@[3]@)
}

/// The tensors that no part of the model reads, in dictionary order.
pub open spec fn strays_in(keys: Seq<Seq<char>>) -> Seq<Seq<char>>
    decreases keys.len(),
{
    if keys.len() == 0 {
        Seq::empty()
    } else {
        let before = strays_in(keys.drop_last());
        if is_read(keys.last()) {
            before
        } else {
            with_text(before, keys.last())
        }
    }
}

/// The numbers below `n`.
pub open spec fn count_up(n: nat) -> Seq<nat> {
    Seq::new(n, |i: int| i as nat)
}

/// Numbers in decimal.
pub open spec fn decimals(s: Seq<nat>) -> Seq<Seq<char>> {
    Seq::new(s.len(), |i: int| decimal(s[i]))
}

/// Texts in quotes.
pub open spec fn all_quoted(s: Seq<Seq<char>>) -> Seq<Seq<char>> {
    Seq::new(s.len(), |i: int| quoted(s[i]))
}

/// A list as it is shown.
pub open spec fn shown(parts: Seq<Seq<char>>) -> Seq<char> {
    "["@ + joined(parts, ", "@) + "]"@
}

/// The error for layers that the config does not describe.
pub open spec fn wrong_layers(
    label: Seq<char>,
    source: Seq<char>,
    expected: nat,
    prefix: Seq<char>,
    found: Seq<nat>,
) -> Failure {
    Failure::Checkpoint(
        label + ": "@ + source + " says "@ + decimal(expected)
            + " layers, but model.safetensors has "@ + prefix + "* layers "@ + shown(
            decimals(found),
        ),
    )
}

/// The error for tensors that no part of the model reads.
pub open spec fn unread(label: Seq<char>, strays: Seq<Seq<char>>) -> Failure {
    Failure::Checkpoint(
        label + ": model.safetensors holds tensors no part of the model reads: "@ + shown(
            all_quoted(strays),
        ),
    )
}

/// Whether the tensors of a checkpoint match its config: the decision head has as many layers as
/// the config says, so has the encoder, and some part of the model reads every tensor.
pub open spec fn layout_of(
    keys: Seq<Seq<char>>,
    label: Seq<char>,
    head_layers: nat,
    encoder_layers: nat,
) -> Result<(), Failure> {
    let head = layers_in(keys, HEAD_LAYERS@);
    let encoder = layers_in(keys, ENCODER_LAYERS@);
    let strays = strays_in(keys);
    if head != count_up(head_layers) {
        Err(
            wrong_layers(
                label,
                "head_layers in rl_agent_config.json"@,
                head_layers,
                HEAD_LAYERS@,
                head,
            ),
        )
    } else if encoder != count_up(encoder_layers) {
        Err(
            wrong_layers(
                label,
                "num_hidden_layers in encoder/config.json"@,
                encoder_layers,
                ENCODER_LAYERS@,
                encoder,
            ),
        )
    } else if strays.len() > 0 {
        Err(unread(label, strays))
    } else {
        Ok(())
    }
}

fn put_text(list: &mut Vec<String>, text: &str)
    ensures
        texts(final(list)@) == with_text(texts(old(list)@), text@),
{
    let ghost before = list@;
    let ghost s = texts(before);
    let mut i: usize = list.len();
    assert(s.take(s.len() as int) =~= s);
    assert(s.skip(s.len() as int) =~= Seq::empty());
    assert(with_text(s, text@) + Seq::<Seq<char>>::empty() =~= with_text(s, text@));
    while i > 0 && !stands_before(list[i - 1].as_str(), text)
        invariant
            list@ == before,
            s == texts(before),
            i <= before.len(),
            with_text(s, text@) == with_text(s.take(i as int), text@) + s.skip(i as int),
        decreases i,
    {
        let ghost t = s.take(i as int);
        let ghost w = with_text(t.drop_last(), text@);
        assert(t.last() == s[i - 1]);
        assert(t.drop_last() =~= s.take(i - 1));
        assert(w.push(t.last()) + s.skip(i as int) =~= w + s.skip(i - 1));
        i = i - 1;
    }
    list.insert(i, text.to_owned());
    assert(texts(list@) =~= s.take(i as int).push(text@) + s.skip(i as int));
}

fn reads(key: &str) -> (r: bool)
    ensures
        r == is_read(key@),
{
    same_text(key, OPTIONAL_KEY) || starts_with(key, HEAD_LAYERS) || starts_with(
        key,
        REQUIRED_PREFIXES[0],
    ) || starts_with(key, REQUIRED_PREFIXES[1]) || starts_with(key, REQUIRED_PREFIXES[2])
        || starts_with(key, REQUIRED_PREFIXES[3])
}

fn strays(keys: &Vec<String>) -> (r: Vec<String>)
    ensures
        texts(r@) == strays_in(texts(keys@)),
{
    let ghost all = texts(keys@);
    let mut found: Vec<String> = Vec::new();
    assert(texts(found@) =~= strays_in(all.take(0)));
    for i in 0..keys.len()
        invariant
            all == texts(keys@),
            texts(found@) == strays_in(all.take(i as int)),
    {
        assert(all.take(i + 1).drop_last() =~= all.take(i as int));
        if !reads(keys[i].as_str()) {
            put_text(&mut found, keys[i].as_str());
        }
    }
    assert(all.take(all.len() as int) =~= all);
    found
}

fn counts_up(found: &Vec<usize>, n: usize) -> (r: bool)
    ensures
        r == (naturals_of(found@) == count_up(n as nat)),
{
    if found.len() != n {
        assert(naturals_of(found@).len() != count_up(n as nat).len());
        return false;
    }
    for i in 0..n
        invariant
            found@.len() == n,
            forall|j: int| 0 <= j < i ==> #[trigger] found@[j] == j,
    {
        if found[i] != i {
            assert(naturals_of(found@)[i as int] != count_up(n as nat)[i as int]);
            return false;
        }
    }
    assert(naturals_of(found@) =~= count_up(n as nat));
    true
}

fn show(parts: &Vec<String>) -> (r: String)
    ensures
        r@ == shown(texts(parts@)),
{
    concat3("[", join(parts, ", ").as_str(), "]")
}

fn layers_error(
    label: &str,
    source: &str,
    expected: usize,
    prefix: &str,
    found: &Vec<usize>,
) -> (r: Error)
    ensures
        r@ == wrong_layers(label@, source@, expected as nat, prefix@, naturals_of(found@)),
{
    let mut parts: Vec<String> = Vec::new();
    for i in 0..found.len()
        invariant
            parts@.len() == i,
            forall|j: int| 0 <= j < i ==> (#[trigger] parts@[j])@ == decimal(found@[j] as nat),
    {
        parts.push(decimal_text(found[i] as u64));
    }
    assert(texts(parts@) =~= decimals(naturals_of(found@)));
    let mut message = concat3(label, ": ", source);
    message.append(" says ");
    message.append(decimal_text(expected as u64).as_str());
    message.append(" layers, but model.safetensors has ");
    message.append(prefix);
    message.append("* layers ");
    message.append(show(&parts).as_str());
    Error::Checkpoint(message)
}

/// Refuse a checkpoint whose tensors do not match its config: layers the model would never read,
/// or tensors of no known part, mean the config describes a different model than the weights.
/// `keys` are the names of its tensors.
pub fn verify_layout(
    keys: &Vec<String>,
    label: &str,
    head_layers: usize,
    encoder_layers: usize,
) -> (r: Result<(), Error>)
    ensures
        match r {
            Ok(_) => layout_of(
                texts(keys@),
                label@,
                head_layers as nat,
                encoder_layers as nat,
            ) is Ok,
            Err(e) => layout_of(
                texts(keys@),
                label@,
                head_layers as nat,
                encoder_layers as nat,
            ) == Err::<(), Failure>(e@),
        },
{
    let head = layer_indices(keys, HEAD_LAYERS);
    if !counts_up(&head, head_layers) {
        return Err(
            layers_error(
                label,
                "head_layers in rl_agent_config.json",
                head_layers,
                HEAD_LAYERS,
                &head,
            ),
        );
    }
    let encoder = layer_indices(keys, ENCODER_LAYERS);
    if !counts_up(&encoder, encoder_layers) {
        return Err(
            layers_error(
                label,
                "num_hidden_layers in encoder/config.json",
                encoder_layers,
                ENCODER_LAYERS,
                &encoder,
            ),
        );
    }
    let unexpected = strays(keys);
    assert(unexpected@.len() == texts(unexpected@).len());
    if unexpected.len() > 0 {
        let mut parts: Vec<String> = Vec::new();
        for i in 0..unexpected.len()
            invariant
                parts@.len() == i,
                forall|j: int| 0 <= j < i ==> (#[trigger] parts@[j])@ == quoted(unexpected@[j]@),
        {
            parts.push(quote(unexpected[i].as_str()));
        }
        assert(texts(parts@) =~= all_quoted(texts(unexpected@)));
        let message = concat3(
            label,
            ": model.safetensors holds tensors no part of the model reads: ",
            show(&parts).as_str(),
        );
        return Err(Error::Checkpoint(message));
    }
    Ok(())
}

proof fn lemma_with_text(s: Seq<Seq<char>>, x: Seq<char>)
    requires
        in_order(s),
    ensures
        in_order(with_text(s, x)),
        forall|k: Seq<char>| #[trigger] with_text(s, x).contains(k) <==> s.contains(k) || k == x,
    decreases s.len(),
{
    let t = with_text(s, x);
    if s.len() == 0 || precedes(s.last(), x) {
        assert forall|k: Seq<char>| #[trigger] t.contains(k) <==> s.contains(k) || k == x by {
            if s.contains(k) {
                let i = choose|i: int| 0 <= i < s.len() && s[i] == k;
                assert(t[i] == k);
            }
            assert(t[s.len() as int] == x);
        }
        assert forall|i: int, j: int| 0 <= i < j < t.len() implies precedes(
            #[trigger] t[i],
            #[trigger] t[j],
        ) by {
            if j == s.len() {
                if i < s.len() - 1 {
                    assert(precedes(s[i], s[s.len() - 1]));
                    lemma_precedes_chain(s[i], s.last(), x);
                }
            } else {
                assert(precedes(s[i], s[j]));
            }
        }
    } else {
        let u = s.drop_last();
        assert forall|i: int, j: int| 0 <= i < j < u.len() implies precedes(
            #[trigger] u[i],
            #[trigger] u[j],
        ) by {
            assert(precedes(s[i], s[j]));
        }
        lemma_with_text(u, x);
        let w = with_text(u, x);
        lemma_precedes_total(s.last(), x);
        assert forall|k: Seq<char>| #[trigger] t.contains(k) <==> s.contains(k) || k == x by {
            assert(w.contains(k) <==> u.contains(k) || k == x);
            if t.contains(k) {
                let i = choose|i: int| 0 <= i < t.len() && t[i] == k;
                if i < w.len() {
                    assert(w[i] == k);
                    if u.contains(k) {
                        let j = choose|j: int| 0 <= j < u.len() && u[j] == k;
                        assert(s[j] == k);
                    }
                } else {
                    assert(s[s.len() - 1] == k);
                }
            }
            if s.contains(k) || k == x {
                if w.contains(k) {
                    let i = choose|i: int| 0 <= i < w.len() && w[i] == k;
                    assert(t[i] == k);
                } else {
                    let j = choose|j: int| 0 <= j < s.len() && s[j] == k;
                    if j < u.len() {
                        assert(u[j] == k);
                    }
                    assert(t[w.len() as int] == k);
                }
            }
        }
        assert forall|i: int, j: int| 0 <= i < j < t.len() implies precedes(
            #[trigger] t[i],
            #[trigger] t[j],
        ) by {
            if j == w.len() {
                assert(w.contains(w[i]));
                if u.contains(w[i]) {
                    let k = choose|k: int| 0 <= k < u.len() && u[k] == w[i];
                    assert(precedes(s[k], s[s.len() - 1]));
                }
            } else {
                assert(precedes(w[i], w[j]));
            }
        }
    }
}

/// The stray tensors are listed in dictionary order, and they are exactly those that no part of
/// the model reads.
pub proof fn law_strays_are_sorted_and_complete(keys: Seq<Seq<char>>)
    ensures
        in_order(strays_in(keys)),
        forall|k: Seq<char>| #[trigger]
            strays_in(keys).contains(k) <==> keys.contains(k) && !is_read(k),
    decreases keys.len(),
{
    if keys.len() > 0 {
        let some = keys.drop_last();
        let last = keys.last();
        law_strays_are_sorted_and_complete(some);
        if !is_read(last) {
            lemma_with_text(strays_in(some), last);
        }
        assert forall|k: Seq<char>| #[trigger]
            strays_in(keys).contains(k) <==> keys.contains(k) && !is_read(k) by {
            assert(strays_in(some).contains(k) <==> some.contains(k) && !is_read(k));
            if some.contains(k) {
                let i = choose|i: int| 0 <= i < some.len() && some[i] == k;
                assert(keys[i] == k);
            }
            assert(keys[keys.len() - 1] == last);
            if keys.contains(k) && k != last {
                let i = choose|i: int| 0 <= i < keys.len() && keys[i] == k;
                assert(some[i] == k);
            }
        }
    }
}

/// A decision checkpoint has an encoder, the embedding of the types, a scorer and an action head: it is
/// one exactly when it has tensors of all four, and otherwise the first that is missing is named.
pub proof fn law_what_a_decision_checkpoint_has(keys: Seq<Seq<char>>)
    ensures
        prefix_missing_from(keys, 0) is None <==> any_begins(keys, "encoder."@) && any_begins(
            keys,
            "type_emb."@,
        ) && any_begins(keys, "scorer."@) && any_begins(keys, "act_head."@),
        !any_begins(keys, "encoder."@) ==> prefix_missing_from(keys, 0) == Some("encoder."@),
        any_begins(keys, "encoder."@) && !any_begins(keys, "type_emb."@) ==> prefix_missing_from(
            keys,
            0,
        ) == Some("type_emb."@),
        any_begins(keys, "encoder."@) && any_begins(keys, "type_emb."@) && !any_begins(
            keys,
            "scorer."@,
        ) ==> prefix_missing_from(keys, 0) == Some("scorer."@),
        prefix_missing_from(keys, 0) matches Some(p) ==> !any_begins(keys, p),
{
    reveal_with_fuel(prefix_missing_from, 5);
    assert(REQUIRED_PREFIXES@[0]@ == "encoder."@ && REQUIRED_PREFIXES@[1]@ == "type_emb."@);
    assert(REQUIRED_PREFIXES@[2]@ == "scorer."@ && REQUIRED_PREFIXES@[3]@ == "act_head."@);
}

/// The tensors of the encoder go by a longer name when they are loaded and all others by their own, and
/// no two are given the same name.
pub proof fn law_loaded_names(rest: Seq<char>, key: Seq<char>, other: Seq<char>)
    ensures
        loaded_name("encoder."@ + rest) == "encoder.model."@ + rest,
        !begins_with(key, "encoder."@) ==> loaded_name(key) == key,
        loaded_name(key) == loaded_name(other) ==> key == other,
{
    reveal_strlit("encoder.");
    reveal_strlit("encoder.model.");
    let p = "encoder."@;
    let s = p + rest;
    assert(s.take(p.len() as int) =~= p);
    assert(s.skip(p.len() as int) =~= rest);
    lemma_loaded_begins(key);
    lemma_loaded_begins(other);
    if loaded_name(key) == loaded_name(other) {
        if begins_with(key, p) {
            let n = "encoder.model."@.len() as int;
            assert(loaded_name(key).skip(n) =~= key.skip(8));
            assert(loaded_name(other).skip(n) =~= other.skip(8));
            assert(key =~= key.take(8) + key.skip(8));
            assert(other =~= other.take(8) + other.skip(8));
        }
    }
}

proof fn lemma_loaded_begins(key: Seq<char>)
    ensures
        begins_with(loaded_name(key), "encoder."@) <==> begins_with(key, "encoder."@),
{
    reveal_strlit("encoder.");
    reveal_strlit("encoder.model.");
    if begins_with(key, "encoder."@) {
        let n = loaded_name(key);
        assert(n.take(8) =~= "encoder."@);
    }
}

/// A tensor belongs to the layer whose number stands between the prefix and the next point.
pub proof fn law_layer_of_a_tensor(prefix: Seq<char>, n: usize, rest: Seq<char>, key: Seq<char>)
    ensures
        layer_in(prefix + decimal(n as nat) + seq!['.'] + rest, prefix) == Some(n as nat),
        !begins_with(key, prefix) ==> layer_in(key, prefix) is None,
{
    let d = decimal(n as nat);
    let s = prefix + d + seq!['.'] + rest;
    let t = d + seq!['.'] + rest;
    law_decimals_are_read_back(n as nat, usize::MAX as nat);
    assert(s.take(prefix.len() as int) =~= prefix);
    assert(s.skip(prefix.len() as int) =~= t);
    assert forall|j: int| 0 <= j < d.len() implies t[j] != '.' by {
        assert(is_digit(d[j]));
    }
    lemma_find_char_unique(t, '.', d.len() as int);
    assert(t.take(d.len() as int) =~= d);
}

proof fn lemma_count_up(s: Seq<nat>, n: nat)
    requires
        increasing(s),
    ensures
        s == count_up(n) <==> (forall|k: nat| #[trigger] s.contains(k) <==> k < n),
{
    if s == count_up(n) {
        assert forall|k: nat| #[trigger] s.contains(k) <==> k < n by {
            if k < n {
                assert(s[k as int] == k);
            }
        }
    }
    if forall|k: nat| #[trigger] s.contains(k) <==> k < n {
        lemma_counts_up(s, n);
    }
}

proof fn lemma_counts_up(s: Seq<nat>, n: nat)
    requires
        increasing(s),
        forall|k: nat| #[trigger] s.contains(k) <==> k < n,
    ensures
        s == count_up(n),
    decreases n,
{
    if n == 0 {
        if s.len() > 0 {
            assert(s.contains(s[0]));
        }
        assert(s =~= count_up(0));
    } else {
        let m = (n - 1) as nat;
        assert(s.contains(m));
        let p = choose|p: int| 0 <= p < s.len() && s[p] == m;
        if p < s.len() - 1 {
            assert(s[p] < s[p + 1]);
            assert(s.contains(s[p + 1]));
        }
        let t = s.drop_last();
        assert forall|k: nat| #[trigger] t.contains(k) <==> k < m by {
            if t.contains(k) {
                let i = choose|i: int| 0 <= i < t.len() && t[i] == k;
                assert(s[i] == k && s[i] < s[p]);
            }
            if k < m {
                assert(s.contains(k));
                let i = choose|i: int| 0 <= i < s.len() && s[i] == k;
                assert(i < p);
                assert(t[i] == k);
            }
        }
        lemma_counts_up(t, m);
        assert(t.len() == m);
        assert forall|i: int| 0 <= i < s.len() implies s[i] == count_up(n)[i] by {
            if i < t.len() {
                assert(t[i] == count_up(m)[i]);
            }
        }
        assert(s =~= count_up(n));
    }
}

/// The tensors of a checkpoint fit its configuration exactly when the head and the encoder have the
/// layers they should have, all of them and no others, and every tensor is one that is read: the
/// temperature, or one of the layers of the head, of the encoder, of the types' embedding, of the scorer
/// or of the action head.
pub proof fn law_what_a_layout_needs(
    keys: Seq<Seq<char>>,
    label: Seq<char>,
    head_layers: nat,
    encoder_layers: nat,
)
    ensures
        layout_of(keys, label, head_layers, encoder_layers) is Ok <==> {
            &&& forall|n: nat| #[trigger] has_layer(keys, "head.layers."@, n) <==> n < head_layers
            &&& forall|n: nat| #[trigger]
                has_layer(keys, "encoder.layers."@, n) <==> n < encoder_layers
            &&& forall|i: int|
                0 <= i < keys.len() ==> {
                    ||| (#[trigger] keys[i]) == "temperature"@
                    ||| begins_with(keys[i], "head.layers."@)
                    ||| begins_with(keys[i], "encoder."@)
                    ||| begins_with(keys[i], "type_emb."@)
                    ||| begins_with(keys[i], "scorer."@)
                    ||| begins_with(keys[i], "act_head."@)
                }
        },
{
    let head = layers_in(keys, "head.layers."@);
    let encoder = layers_in(keys, "encoder.layers."@);
    let strays = strays_in(keys);
    law_layers_are_sorted_and_complete(keys, "head.layers."@);
    law_layers_are_sorted_and_complete(keys, "encoder.layers."@);
    law_strays_are_sorted_and_complete(keys);
    lemma_count_up(head, head_layers);
    lemma_count_up(encoder, encoder_layers);
    assert(REQUIRED_PREFIXES@[0]@ == "encoder."@ && REQUIRED_PREFIXES@[1]@ == "type_emb."@);
    assert(REQUIRED_PREFIXES@[2]@ == "scorer."@ && REQUIRED_PREFIXES@[3]@ == "act_head."@);
    if head == count_up(head_layers) {
        assert forall|n: nat| #[trigger] has_layer(keys, "head.layers."@, n) <==> n < head_layers by {
            assert(head.contains(n) <==> n < head_layers);
        }
    }
    if forall|n: nat| #[trigger] has_layer(keys, "head.layers."@, n) <==> n < head_layers {
        assert forall|n: nat| #[trigger] head.contains(n) <==> n < head_layers by {
            assert(has_layer(keys, "head.layers."@, n) <==> n < head_layers);
        }
    }
    if encoder == count_up(encoder_layers) {
        assert forall|n: nat| #[trigger]
            has_layer(keys, "encoder.layers."@, n) <==> n < encoder_layers by {
            assert(encoder.contains(n) <==> n < encoder_layers);
        }
    }
    if forall|n: nat| #[trigger] has_layer(keys, "encoder.layers."@, n) <==> n < encoder_layers {
        assert forall|n: nat| #[trigger] encoder.contains(n) <==> n < encoder_layers by {
            assert(has_layer(keys, "encoder.layers."@, n) <==> n < encoder_layers);
        }
    }
    if strays.len() == 0 {
        assert forall|i: int| 0 <= i < keys.len() implies is_read(#[trigger] keys[i]) by {
            assert(keys.contains(keys[i]));
            assert(!strays.contains(keys[i]));
        }
    } else {
        assert(strays.contains(strays[0]));
        let i = choose|i: int| 0 <= i < keys.len() && keys[i] == strays[0];
        assert(!is_read(keys[i]));
    }
}

/// A caller is told that a checkpoint fits exactly when it does.
pub proof fn law_given_verdicts(
    keys: &Vec<String>,
    label: &str,
    head_layers: usize,
    encoder_layers: usize,
    complete: Result<(), Error>,
    fits: Result<(), Error>,
    key: &str,
    name: String,
)
    requires
        call_ensures(verify, (keys, label), complete),
        call_ensures(verify_layout, (keys, label, head_layers, encoder_layers), fits),
        call_ensures(remap_key, (key,), name),
    ensures
        complete is Ok <==> prefix_missing_from(texts(keys@), 0) is None,
        fits is Ok <==> layout_of(
            texts(keys@),
            label@,
            head_layers as nat,
            encoder_layers as nat,
        ) is Ok,
        name@ == loaded_name(key@),
{
}

} // verus!
