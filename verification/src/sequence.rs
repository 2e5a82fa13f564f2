//! Building the token sequence a decision is read from.
//!
//! The layout is fixed by training:
//!
//! ```text
//! [CLS] <type> question: <instructions> [SEP] [MASK] opt0 [MASK] opt1 ... [SEP] <state> [SEP]
//! ```
//!
//! Each `[MASK]` is a *marker*: the hidden state at that position is what the scorer reads, so
//! one marker per option and the model answers every option of every question in one pass.

use tokenizers::Tokenizer;
use vstd::prelude::*;
use vstd::string::*;
use vstd::utf8::*;

use crate::error::{concat2, concat3, Error, Failure};
use crate::question::{
    firsts, instructions_of, kind_index, kind_name, misfit, options_of, pair_texts, Asked, QType,
    Question,
};
use crate::text::{
    decimal, decimal_text, law_replacing, lemma_replaced_is_free, occurs_at, occurs_in, replace, replaced, texts,
};
use crate::tokenizer::{answer_of, encode_ids, encodes, is_runnable, SpecialTokens};

verus! {

/// At most this many tokens of any single option text.
pub const MAX_OPTION_TOKENS: usize = 48;

/// The question head never shrinks below this many instruction tokens.
pub const MIN_HEAD_TOKENS: usize = 8;

/// Where the options leave less of the head budget than this, they are cut.
pub const OPTION_RESERVE: usize = 16;

/// No option is cut below this many tokens, its marker among them.
pub const MIN_OPTION_TOKENS: usize = 4;

/// The state is first tokenised from a prefix of this many bytes per sequence slot, so a huge
/// state is not tokenised in full only to be cut. Ordinary text runs at a few bytes per token, but
/// a vocabulary may hold tokens of 128 bytes and more, so the prefix grows until it yields more
/// tokens than the sequence can hold.
pub const STATE_BYTES_PER_TOKEN: usize = 16;

// ----------------------------------------------------------------------- prefixes of a text

/// The bytes of a character in UTF-8.
pub open spec fn width(c: char) -> nat {
    if (c as int) < 0x80 {
        1
    } else if (c as int) < 0x800 {
        2
    } else if (c as int) < 0x10000 {
        3
    } else {
        4
    }
}

/// The bytes of a text in UTF-8.
pub open spec fn byte_len(s: Seq<char>) -> nat
    decreases s.len(),
{
    if s.len() == 0 {
        0
    } else {
        byte_len(s.drop_last()) + width(s.last())
    }
}

/// How many characters of `s` fit into `budget` bytes: no character is cut in two.
pub open spec fn fitting(s: Seq<char>, budget: nat) -> nat
    decreases s.len(),
{
    if byte_len(s) <= budget {
        s.len()
    } else {
        fitting(s.drop_last(), budget)
    }
}

/// The longest prefix of `s` that fits into `budget` bytes.
pub open spec fn prefix_of(s: Seq<char>, budget: nat) -> Seq<char> {
    s.take(fitting(s, budget) as int)
}

proof fn lemma_byte_len_front(s: Seq<char>)
    requires
        s.len() > 0,
    ensures
        byte_len(s) == width(s[0]) + byte_len(s.drop_first()),
    decreases s.len(),
{
    if s.len() == 1 {
        assert(s.drop_first() =~= Seq::empty());
        assert(s.drop_last() =~= Seq::empty());
    } else {
        lemma_byte_len_front(s.drop_last());
        assert(s.drop_last().drop_first() =~= s.drop_first().drop_last());
    }
}

/// The measure of a character is the length of its encoding.
proof fn lemma_width(c: char)
    ensures
        encode_scalar(c as u32).len() == width(c),
{
    char_is_scalar(c);
    assert(c as u32 as int == c as int);
}

/// The measure of a text is the length of its encoding.
pub proof fn lemma_byte_len_is_encoded_len(s: Seq<char>)
    ensures
        encode_utf8(s).len() == byte_len(s),
    decreases s.len(),
{
    if s.len() > 0 {
        lemma_byte_len_front(s);
        lemma_byte_len_is_encoded_len(s.drop_first());
        lemma_width(s[0]);
    }
}

proof fn lemma_byte_len_grows(s: Seq<char>, n: int)
    requires
        0 <= n <= s.len(),
    ensures
        byte_len(s.take(n)) <= byte_len(s),
        n < s.len() ==> byte_len(s.take(n)) < byte_len(s),
    decreases s.len(),
{
    if n == s.len() {
        assert(s.take(n) =~= s);
    } else {
        assert(s.drop_last().take(n) =~= s.take(n));
        lemma_byte_len_grows(s.drop_last(), n);
    }
}

/// What fits is determined: the prefix fits, and one character more does not.
proof fn lemma_fitting(s: Seq<char>, budget: nat, n: int)
    requires
        0 <= n <= s.len(),
        byte_len(s.take(n)) <= budget,
        n < s.len() ==> byte_len(s.take(n + 1)) > budget,
    ensures
        fitting(s, budget) == n,
    decreases s.len(),
{
    if n == s.len() {
        assert(s.take(n) =~= s);
    } else {
        lemma_byte_len_grows(s, n + 1);
        let t = s.drop_last();
        assert(t.take(n) =~= s.take(n));
        if n < t.len() {
            assert(t.take(n + 1) =~= s.take(n + 1));
        }
        lemma_fitting(t, budget, n);
    }
}

/// A prefix never has more characters than the text, and the whole text fits exactly when its
/// bytes do.
pub proof fn lemma_fitting_bounds(s: Seq<char>, budget: nat)
    ensures
        fitting(s, budget) <= s.len(),
        fitting(s, budget) == s.len() <==> byte_len(s) <= budget,
        byte_len(prefix_of(s, budget)) <= budget,
    decreases s.len(),
{
    if byte_len(s) <= budget {
        assert(s.take(s.len() as int) =~= s);
    } else if s.len() > 0 {
        lemma_fitting_bounds(s.drop_last(), budget);
        let n = fitting(s.drop_last(), budget) as int;
        assert(s.drop_last().take(n) =~= s.take(n));
    }
}

fn char_width(c: char) -> (r: usize)
    ensures
        r == width(c),
{
    let u: u32 = c as u32;
    if u < 0x80 {
        1
    } else if u < 0x800 {
        2
    } else if u < 0x10000 {
        3
    } else {
        4
    }
}

/// The longest prefix of `s` that fits into `budget` bytes, and whether that is all of `s`.
pub fn state_prefix(s: &str, budget: usize) -> (r: (String, bool))
    ensures
        r.0@ == prefix_of(s@, budget as nat),
        r.1 == (byte_len(s@) <= budget),
        r.1 == (r.0@ == s@),
{
    let mut out: String = String::new();
    let mut left: usize = budget;
    let ghost mut n: int = 0;
    for c in it: s.chars()
        invariant
            it.seq() == s@,
            n == it.index(),
            0 <= n <= s@.len(),
            out@ == s@.take(n),
            byte_len(s@.take(n)) + left == budget,
    {
        let w: usize = char_width(c);
        assert(s@.take(n + 1).drop_last() =~= s@.take(n));
        assert(c == s@[n]);
        if left < w {
            proof {
                lemma_fitting(s@, budget as nat, n);
                lemma_fitting_bounds(s@, budget as nat);
            }
            return (out, false);
        }
        left = left - w;
        out.push(c);
        proof {
            n = n + 1;
            assert(s@.take(n) =~= s@.take(n - 1).push(s@[n - 1]));
        }
    }
    proof {
        assert(s@.take(s@.len() as int) =~= s@);
        lemma_fitting(s@, budget as nat, s@.len() as int);
    }
    (out, true)
}

// ----------------------------------------------------------------------- laying out the tokens

/// At most the first `n` tokens.
pub open spec fn capped(s: Seq<u32>, n: nat) -> Seq<u32> {
    if s.len() <= n {
        s
    } else {
        s.take(n as int)
    }
}

/// Rows one after the other.
pub open spec fn run<T>(rows: Seq<Seq<T>>) -> Seq<T>
    decreases rows.len(),
{
    if rows.len() == 0 {
        Seq::empty()
    } else {
        run(rows.drop_last()) + rows.last()
    }
}

/// Every option as its marker and the tokens of its text.
pub open spec fn marked(mask: u32, bodies: Seq<Seq<u32>>) -> Seq<Seq<u32>> {
    Seq::new(bodies.len(), |i: int| seq![mask] + capped(bodies[i], MAX_OPTION_TOKENS as nat))
}

/// What the options leave of the head budget.
pub open spec fn left_over(head_max: nat, options: Seq<Seq<u32>>) -> nat {
    if run(options).len() <= head_max {
        (head_max - run(options).len()) as nat
    } else {
        0
    }
}

/// An even share of the head budget for each of `n` options.
pub open spec fn share(head_max: nat, n: nat) -> nat {
    let shared = if head_max <= OPTION_RESERVE {
        0
    } else {
        (head_max - OPTION_RESERVE) as nat
    };
    if shared / n < MIN_OPTION_TOKENS {
        MIN_OPTION_TOKENS as nat
    } else {
        shared / n
    }
}

/// The options as they go into the sequence. Where they alone are eating the head budget, they
/// share it evenly rather than letting the first options starve the last.
pub open spec fn fitted(head_max: nat, options: Seq<Seq<u32>>) -> Seq<Seq<u32>> {
    if left_over(head_max, options) < OPTION_RESERVE {
        Seq::new(options.len(), |i: int| capped(options[i], share(head_max, options.len())))
    } else {
        options
    }
}

/// How many instruction tokens go into the sequence beside these options.
pub open spec fn head_room(head_max: nat, options: Seq<Seq<u32>>) -> nat {
    if left_over(head_max, options) < MIN_HEAD_TOKENS {
        MIN_HEAD_TOKENS as nat
    } else {
        left_over(head_max, options)
    }
}

/// Where each option's marker stands when the first option begins at `start`.
pub open spec fn marker_positions(start: nat, options: Seq<Seq<u32>>) -> Seq<nat> {
    Seq::new(options.len(), |i: int| start + run(options.take(i)).len())
}

/// The sequence up to the separator that closes the options.
pub open spec fn opening(
    sp: SpecialTokens,
    head: Seq<u32>,
    options: Seq<Seq<u32>>,
) -> Seq<u32> {
    seq![sp.cls_id] + head + seq![sp.sep_id] + run(options) + seq![sp.sep_id]
}

/// The whole sequence: what fits of the state, a separator, and nothing beyond `max_len`.
pub open spec fn closed_off(
    sp: SpecialTokens,
    opening: Seq<u32>,
    state: Seq<u32>,
    max_len: nat,
) -> Seq<u32> {
    let room = if opening.len() + 1 <= max_len {
        (max_len - opening.len() - 1) as nat
    } else {
        0
    };
    capped(opening + capped(state, room) + seq![sp.sep_id], max_len)
}

/// One question, encoded and ready to be batched.
#[derive(Debug)]
pub struct Item {
    pub ids: Vec<u32>,
    pub markers: Vec<usize>,
    pub qtype: QType,
    /// One label per marker, in marker order.
    pub labels: Vec<String>,
}

/// The mathematical content of an [`Item`].
pub struct Encoded {
    pub ids: Seq<u32>,
    pub markers: Seq<nat>,
    pub kind: QType,
    pub labels: Seq<Seq<char>>,
}

/// Indices as natural numbers.
pub open spec fn naturals(v: Seq<usize>) -> Seq<nat> {
    Seq::new(v.len(), |i: int| v[i] as nat)
}

/// Token lists, mathematically.
pub open spec fn rows_of(v: Seq<Vec<u32>>) -> Seq<Seq<u32>> {
    Seq::new(v.len(), |i: int| v[i]@)
}

impl View for Item {
    type V = Encoded;

    open spec fn view(&self) -> Encoded {
        Encoded {
            ids: self.ids@,
            markers: naturals(self.markers@),
            kind: self.qtype,
            labels: texts(self.labels@),
        }
    }
}

/// The complaint about options that run past the sequence.
pub open spec fn overflow(id: Seq<char>, n: nat, head_max: nat) -> Failure {
    Failure::Question {
        id,
        message: "its "@ + decimal(n) + " options do not fit in head_max_len="@ + decimal(head_max)
            + "; shorten the option descriptions or use a checkpoint with a larger head budget"@,
    }
}

/// One question over an encoded state, from the token ids of its head and of its options.
pub open spec fn assembled(
    sp: SpecialTokens,
    max_len: nat,
    head_max: nat,
    state: Seq<u32>,
    id: Seq<char>,
    kind: QType,
    labels: Seq<Seq<char>>,
    head: Seq<u32>,
    bodies: Seq<Seq<u32>>,
) -> Result<Encoded, Failure> {
    let options = fitted(head_max, marked(sp.mask_id, bodies));
    let kept = capped(head, head_room(head_max, options));
    let markers = marker_positions(kept.len() + 2, options);
    if markers.len() > 0 && markers.last() >= max_len {
        Err(overflow(id, bodies.len(), head_max))
    } else {
        Ok(
            Encoded {
                ids: closed_off(sp, opening(sp, kept, options), state, max_len),
                markers,
                kind,
                labels,
            },
        )
    }
}

proof fn lemma_run_take<T>(rows: Seq<Seq<T>>, i: int)
    requires
        0 <= i < rows.len(),
    ensures
        run(rows.take(i + 1)) == run(rows.take(i)) + rows[i],
{
    assert(rows.take(i + 1).drop_last() =~= rows.take(i));
}

fn append_all(ids: &mut Vec<u32>, more: &[u32])
    ensures
        final(ids)@ == old(ids)@ + more@,
{
    let ghost before = ids@;
    for i in 0..more.len()
        invariant
            ids@ == before + more@.take(i as int),
    {
        ids.push(more[i]);
        assert(more@.take(i + 1) =~= more@.take(i as int).push(more@[i as int]));
    }
    assert(more@.take(more@.len() as int) =~= more@);
}

/// A count, as far as a machine number reaches.
pub open spec fn counted(n: nat) -> nat {
    if n <= usize::MAX {
        n
    } else {
        usize::MAX as nat
    }
}

/// How many tokens there are together, or the largest number when there are more.
fn total_len(rows: &Vec<Vec<u32>>) -> (r: usize)
    ensures
        r == counted(run(rows_of(rows@)).len()),
{
    let ghost all = rows_of(rows@);
    let mut sum: usize = 0;
    for i in 0..rows.len()
        invariant
            all == rows_of(rows@),
            sum == counted(run(all.take(i as int)).len()),
    {
        proof {
            lemma_run_take(all, i as int);
        }
        let more: usize = rows[i].len();
        sum = if more <= usize::MAX - sum {
            sum + more
        } else {
            usize::MAX
        };
    }
    assert(all.take(all.len() as int) =~= all);
    sum
}

fn cap(ids: &[u32], n: usize) -> (r: Vec<u32>)
    ensures
        r@ == capped(ids@, n as nat),
{
    let mut out: Vec<u32> = Vec::new();
    let m: usize = if ids.len() <= n {
        ids.len()
    } else {
        n
    };
    for i in 0..m
        invariant
            m <= ids@.len(),
            out@ == ids@.take(i as int),
    {
        out.push(ids[i]);
        assert(ids@.take(i + 1) =~= ids@.take(i as int).push(ids@[i as int]));
    }
    assert(ids@.take(ids@.len() as int) =~= ids@);
    out
}

/// Every option as its marker and its capped text, cut further where they share the budget.
fn fit_options(mask_id: u32, head_max_len: usize, bodies: &Vec<Vec<u32>>) -> (r: Vec<Vec<u32>>)
    requires
        bodies@.len() == 0 ==> head_max_len >= OPTION_RESERVE,
    ensures
        rows_of(r@) == fitted(head_max_len as nat, marked(mask_id, rows_of(bodies@))),
{
    let ghost all = marked(mask_id, rows_of(bodies@));
    let n: usize = bodies.len();
    let mut options: Vec<Vec<u32>> = Vec::new();
    for i in 0..n
        invariant
            n == bodies@.len(),
            all == marked(mask_id, rows_of(bodies@)),
            options@.len() == i,
            forall|j: int| 0 <= j < i ==> (#[trigger] options@[j])@ == all[j],
    {
        let mut option: Vec<u32> = Vec::new();
        option.push(mask_id);
        let body = cap(bodies[i].as_slice(), MAX_OPTION_TOKENS);
        append_all(&mut option, body.as_slice());
        assert(option@ =~= all[i as int]);
        options.push(option);
    }
    assert(rows_of(options@) =~= all);
    let total: usize = total_len(&options);
    if total <= head_max_len && head_max_len - total >= OPTION_RESERVE {
        return options;
    }
    assert(n > 0) by {
        if n == 0 {
            assert(all =~= Seq::empty());
        }
    }
    let shared: usize = if head_max_len <= OPTION_RESERVE {
        0
    } else {
        head_max_len - OPTION_RESERVE
    };
    let even: usize = shared / n;
    let per: usize = if even < MIN_OPTION_TOKENS {
        MIN_OPTION_TOKENS
    } else {
        even
    };
    let ghost cut = fitted(head_max_len as nat, all);
    let mut out: Vec<Vec<u32>> = Vec::new();
    for i in 0..n
        invariant
            n == options@.len() == all.len(),
            rows_of(options@) == all,
            cut == Seq::new(all.len(), |k: int| capped(all[k], per as nat)),
            out@.len() == i,
            forall|j: int| 0 <= j < i ==> (#[trigger] out@[j])@ == cut[j],
    {
        assert(options@[i as int]@ == all[i as int]);
        out.push(cap(options[i].as_slice(), per));
    }
    assert(rows_of(out@) =~= cut);
    out
}

/// Lay out one question over an encoded state, from the token ids of its head and of its options.
///
/// A state that does not fit is cut at the end.
pub fn assemble(
    sp: &SpecialTokens,
    max_len: usize,
    head_max_len: usize,
    state_ids: &[u32],
    id: &str,
    kind: QType,
    labels: Vec<String>,
    head: &Vec<u32>,
    bodies: &Vec<Vec<u32>>,
) -> (r: Result<Item, Error>)
    requires
        bodies@.len() == 0 ==> head_max_len >= OPTION_RESERVE,
    ensures
        match r {
            Ok(item) => assembled(
                *sp,
                max_len as nat,
                head_max_len as nat,
                state_ids@,
                id@,
                kind,
                texts(labels@),
                head@,
                rows_of(bodies@),
            ) == Ok::<Encoded, Failure>(item@),
            Err(e) => assembled(
                *sp,
                max_len as nat,
                head_max_len as nat,
                state_ids@,
                id@,
                kind,
                texts(labels@),
                head@,
                rows_of(bodies@),
            ) == Err::<Encoded, Failure>(e@),
        },
{
    let options = fit_options(sp.mask_id, head_max_len, bodies);
    let ghost rows = rows_of(options@);
    let total: usize = total_len(&options);
    let left: usize = if total <= head_max_len {
        head_max_len - total
    } else {
        0
    };
    let room: usize = if left < MIN_HEAD_TOKENS {
        MIN_HEAD_TOKENS
    } else {
        left
    };
    let kept = cap(head.as_slice(), room);
    let ghost start = (kept@.len() + 2) as nat;

    let mut ids: Vec<u32> = Vec::new();
    ids.push(sp.cls_id);
    append_all(&mut ids, kept.as_slice());
    ids.push(sp.sep_id);
    let ghost front = ids@;

    let mut markers: Vec<usize> = Vec::new();
    let n: usize = options.len();
    for i in 0..n
        invariant
            n == options@.len(),
            rows == rows_of(options@),
            front.len() == start,
            ids@ == front + run(rows.take(i as int)),
            markers@.len() == i,
            forall|j: int|
                0 <= j < i ==> #[trigger] markers@[j] == start + run(rows.take(j)).len(),
    {
        proof {
            lemma_run_take(rows, i as int);
        }
        markers.push(ids.len());
        append_all(&mut ids, options[i].as_slice());
        assert(ids@ =~= front + run(rows.take(i + 1)));
    }
    ids.push(sp.sep_id);
    assert(rows.take(rows.len() as int) =~= rows);
    assert(ids@ =~= opening(*sp, kept@, rows));
    assert(naturals(markers@) =~= marker_positions(start, rows));

    // Markers grow with the sequence, so the last one is the first to fall off the end.
    if n > 0 && markers[n - 1] >= max_len {
        let mut message = concat3(
            "its ",
            decimal_text(n as u64).as_str(),
            " options do not fit in head_max_len=",
        );
        message.append(decimal_text(head_max_len as u64).as_str());
        message.append(
            "; shorten the option descriptions or use a checkpoint with a larger head budget",
        );
        return Err(Error::question(id, message));
    }
    let state_room: usize = if ids.len() < max_len {
        max_len - ids.len() - 1
    } else {
        0
    };
    let ghost head_part = ids@;
    let tail = cap(state_ids, state_room);
    append_all(&mut ids, tail.as_slice());
    ids.push(sp.sep_id);
    let ids = cap(ids.as_slice(), max_len);
    assert(ids@ =~= closed_off(*sp, head_part, state_ids@, max_len as nat));
    Ok(Item { ids, markers, qtype: kind, labels })
}

// ----------------------------------------------------------------------- encoding

/// Turns questions and states into sequences that fit a checkpoint's budget.
pub struct Encoder {
    pub tok: Tokenizer,
    pub sp: SpecialTokens,
    /// Total sequence budget, including the question head and the state.
    pub max_len: usize,
    /// Token budget for the question head (instructions plus every option).
    pub head_max_len: usize,
}

/// A text without the mask token. Any literal mask token in user text would create a marker the
/// scorer would read as an option boundary, so a blank takes its place.
pub open spec fn scrubbed(s: Seq<char>, mask: Seq<char>) -> Seq<char> {
    replaced(s, mask, seq![' '])
}

/// The text that opens a question.
pub open spec fn head_text(q: Asked, mask: Seq<char>) -> Seq<char> {
    kind_name(q.kind) + " question: "@ + scrubbed(instructions_of(q), mask)
}

/// The text of an option.
pub open spec fn option_text(text: Seq<char>, mask: Seq<char>) -> Seq<char> {
    " "@ + scrubbed(text, mask)
}

/// Whether encoding a state can come to this outcome, beginning with a prefix of `budget` bytes:
/// the prefix doubles until it is the whole state, yields more than `max_len` tokens, or is
/// refused.
pub open spec fn settles(
    tok: Tokenizer,
    mask: Seq<char>,
    max_len: nat,
    state: Seq<char>,
    budget: nat,
    outcome: Result<Seq<u32>, Seq<char>>,
) -> bool
    decreases (if byte_len(state) > budget { byte_len(state) - budget } else { 0 }),
{
    exists|answer: Result<Seq<u32>, Seq<char>>| #[trigger]
        encodes(tok, scrubbed(prefix_of(state, budget), mask), answer) && match answer {
            Err(m) => outcome == answer,
            Ok(ids) => if byte_len(state) <= budget || ids.len() > max_len {
                outcome == answer
            } else {
                budget > 0 && settles(tok, mask, max_len, state, 2 * budget, outcome)
            },
        }
}

/// The bytes of the state that are tokenised first.
pub open spec fn first_budget(max_len: nat) -> nat {
    STATE_BYTES_PER_TOKEN as nat * (if max_len < 1 { 1 } else { max_len })
}

/// Whether the tokenizer can answer the head of a question, and its first options, with these
/// token ids.
pub open spec fn answered(
    enc: Encoder,
    q: Asked,
    options: Seq<(Seq<char>, Seq<char>)>,
    head: Seq<u32>,
    bodies: Seq<Seq<u32>>,
) -> bool {
    &&& encodes(enc.tok, head_text(q, enc.sp.mask_token@), Ok(head))
    &&& bodies.len() <= options.len()
    &&& forall|i: int|
        0 <= i < bodies.len() ==> encodes(
            enc.tok,
            option_text(options[i].1, enc.sp.mask_token@),
            Ok(#[trigger] bodies[i]),
        )
}

/// Whether encoding a question over an encoded state can come to this outcome.
pub open spec fn builds(
    enc: Encoder,
    state: Seq<u32>,
    id: Seq<char>,
    q: Asked,
    outcome: Result<Encoded, Failure>,
) -> bool {
    match options_of(q) {
        None => outcome == Err::<Encoded, Failure>(misfit(q, id)),
        Some(options) => {
            ||| exists|m: Seq<char>|
                {
                    &&& #[trigger] encodes(enc.tok, head_text(q, enc.sp.mask_token@), Err(m))
                    &&& outcome == Err::<Encoded, Failure>(Failure::Tokenizer(m))
                }
            ||| exists|head: Seq<u32>, bodies: Seq<Seq<u32>>, m: Seq<char>|
                {
                    &&& #[trigger] answered(enc, q, options, head, bodies)
                    &&& bodies.len() < options.len()
                    &&& #[trigger] encodes(
                        enc.tok,
                        option_text(options[bodies.len() as int].1, enc.sp.mask_token@),
                        Err(m),
                    )
                    &&& outcome == Err::<Encoded, Failure>(Failure::Tokenizer(m))
                }
            ||| exists|head: Seq<u32>, bodies: Seq<Seq<u32>>|
                {
                    &&& #[trigger] answered(enc, q, options, head, bodies)
                    &&& bodies.len() == options.len()
                    &&& outcome == assembled(
                        enc.sp,
                        enc.max_len as nat,
                        enc.head_max_len as nat,
                        state,
                        id,
                        q.kind,
                        firsts(options),
                        head,
                        bodies,
                    )
                }
        },
    }
}

/// Whether a question can be laid out at all: a head budget below [`OPTION_RESERVE`] tokens cannot
/// be shared between no options.
pub open spec fn can_lay_out(head_max: nat, q: Asked) -> bool {
    options_of(q) matches Some(options) ==> (options.len() == 0 ==> head_max >= OPTION_RESERVE)
}

/// An encoded question, or what went wrong with it.
pub open spec fn item_outcome(r: Result<Item, Error>) -> Result<Encoded, Failure> {
    match r {
        Ok(item) => Ok(item@),
        Err(e) => Err(e@),
    }
}

impl Encoder {
    /// An encoder for a checkpoint's tokenizer and budgets.
    pub fn new(tok: Tokenizer, sp: SpecialTokens, max_len: usize, head_max_len: usize) -> (r: Self)
        ensures
            r == (Encoder { tok, sp, max_len, head_max_len }),
    {
        Encoder { tok, sp, max_len, head_max_len }
    }

    /// Blank the mask token out of user text.
    pub fn scrub(&self, s: &str) -> (r: String)
        ensures
            r@ == scrubbed(s@, self.sp.mask_token@),
    {
        proof {
            reveal_strlit(" ");
            assert(" "@ =~= seq![' ']);
        }
        replace(s, self.sp.mask_token.as_str(), " ")
    }

    /// Encode the flattened state once; every question in a batch shares it.
    ///
    /// Only the first `max_len` tokens can ever be used, so the state is tokenised from a prefix
    /// that yields more than that, not in full. The token straddling the cut may differ from the
    /// full tokenisation, which is why the prefix must yield strictly more.
    pub fn encode_state(&self, state: &str) -> (r: Result<Vec<u32>, Error>)
        requires
            is_runnable(self.tok),
            first_budget(self.max_len as nat) <= usize::MAX,
        ensures
            match r {
                Ok(ids) => settles(
                    self.tok,
                    self.sp.mask_token@,
                    self.max_len as nat,
                    state@,
                    first_budget(self.max_len as nat),
                    Ok(ids@),
                ),
                Err(Error::Tokenizer(m)) => settles(
                    self.tok,
                    self.sp.mask_token@,
                    self.max_len as nat,
                    state@,
                    first_budget(self.max_len as nat),
                    Err(m@),
                ),
                Err(_) => false,
            },
    {
        let ghost mask = self.sp.mask_token@;
        let ghost first = first_budget(self.max_len as nat);
        let slots: usize = if self.max_len < 1 {
            1
        } else {
            self.max_len
        };
        let mut budget: usize = STATE_BYTES_PER_TOKEN * slots;
        let total: usize = state.as_bytes().len();
        proof {
            lemma_byte_len_is_encoded_len(state@);
        }
        // The budget, were there no largest number.
        let ghost mut reach: nat = budget as nat;
        loop
            invariant
                is_runnable(self.tok),
                first == first_budget(self.max_len as nat),
                mask == self.sp.mask_token@,
                total == byte_len(state@),
                budget > 0,
                budget == reach || (budget == usize::MAX && reach > usize::MAX),
                forall|outcome: Result<Seq<u32>, Seq<char>>|
                    settles(self.tok, mask, self.max_len as nat, state@, reach, outcome)
                        ==> #[trigger] settles(
                        self.tok,
                        mask,
                        self.max_len as nat,
                        state@,
                        first,
                        outcome,
                    ),
            decreases (if total > budget { total - budget } else { 0 }),
        {
            let (prefix, whole) = state_prefix(state, budget);
            proof {
                lemma_fitting_bounds(state@, budget as nat);
                lemma_fitting_bounds(state@, reach);
                assert(prefix_of(state@, reach) == prefix@);
            }
            let answer = encode_ids(&self.tok, self.scrub(prefix.as_str()).as_str());
            let ghost given = answer_of(answer);
            match answer {
                Err(m) => {
                    assert(settles(
                        self.tok,
                        mask,
                        self.max_len as nat,
                        state@,
                        reach,
                        given,
                    ));
                    return Err(Error::Tokenizer(m));
                },
                Ok(ids) => {
                    if whole || ids.len() > self.max_len {
                        assert(settles(
                            self.tok,
                            mask,
                            self.max_len as nat,
                            state@,
                            reach,
                            given,
                        ));
                        return Ok(ids);
                    }
                    assert forall|outcome: Result<Seq<u32>, Seq<char>>|
                        settles(
                            self.tok,
                            mask,
                            self.max_len as nat,
                            state@,
                            2 * reach,
                            outcome,
                        ) implies #[trigger] settles(
                        self.tok,
                        mask,
                        self.max_len as nat,
                        state@,
                        first,
                        outcome,
                    ) by {
                        assert(encodes(self.tok, scrubbed(prefix_of(state@, reach), mask), given));
                        assert(settles(
                            self.tok,
                            mask,
                            self.max_len as nat,
                            state@,
                            reach,
                            outcome,
                        ));
                    }
                },
            }
            budget = if budget > usize::MAX / 2 {
                usize::MAX
            } else {
                2 * budget
            };
            proof {
                reach = 2 * reach;
            }
        }
    }

    /// Encode one question over an already-encoded state.
    ///
    /// A state that does not fit is cut at the end.
    pub fn build(&self, state_ids: &[u32], id: &str, q: &Question) -> (r: Result<Item, Error>)
        requires
            is_runnable(self.tok),
            can_lay_out(self.head_max_len as nat, q@),
        ensures
            builds(*self, state_ids@, id@, q@, item_outcome(r)),
    {
        let pairs = match q.options(id) {
            Ok(pairs) => pairs,
            Err(e) => return Err(e),
        };
        let ghost options = pair_texts(pairs@);
        let mut opening = concat2(q.kind.name(), " question: ");
        opening.append(self.scrub(q.instructions_text().as_str()).as_str());
        assert(opening@ == head_text(q@, self.sp.mask_token@));
        let head = match encode_ids(&self.tok, opening.as_str()) {
            Ok(ids) => ids,
            Err(m) => return Err(Error::Tokenizer(m)),
        };
        let mut labels: Vec<String> = Vec::new();
        let mut bodies: Vec<Vec<u32>> = Vec::new();
        let n: usize = pairs.len();
        for i in 0..n
            invariant
                is_runnable(self.tok),
                n == pairs@.len(),
                options == pair_texts(pairs@),
                options_of(q@) == Some(options),
                labels@.len() == i,
                forall|j: int| 0 <= j < i ==> (#[trigger] labels@[j])@ == options[j].0,
                bodies@.len() == i,
                answered(*self, q@, options, head@, rows_of(bodies@)),
        {
            let text = concat2(" ", self.scrub(pairs[i].1.as_str()).as_str());
            assert(text@ == option_text(options[i as int].1, self.sp.mask_token@));
            labels.push(pairs[i].0.clone());
            match encode_ids(&self.tok, text.as_str()) {
                Ok(ids) => {
                    let ghost before = rows_of(bodies@);
                    bodies.push(ids);
                    assert(rows_of(bodies@) =~= before.push(ids@));
                },
                Err(m) => return Err(Error::Tokenizer(m)),
            }
        }
        assert(texts(labels@) =~= firsts(options));
        assemble(
            &self.sp,
            self.max_len,
            self.head_max_len,
            state_ids,
            id,
            q.kind,
            labels,
            &head,
            &bodies,
        )
    }
}

// ----------------------------------------------------------------------- batches

/// A batch of encoded questions, padded rectangular, row after row.
#[derive(Debug)]
pub struct Batch {
    pub input_ids: Vec<u32>,
    /// 1 where there is a token, 0 where there is padding.
    pub attention_mask: Vec<u8>,
    pub marker_pos: Vec<u32>,
    /// 1 where there is a marker, 0 where there is padding.
    pub marker_mask: Vec<u8>,
    pub qtype: Vec<u32>,
    pub batch: usize,
    pub seq_len: usize,
    pub k_max: usize,
    pub n_tokens: usize,
}

/// The largest of some numbers, and no less than `least`.
pub open spec fn most(numbers: Seq<nat>, least: nat) -> nat
    decreases numbers.len(),
{
    if numbers.len() == 0 {
        least
    } else {
        let rest = most(numbers.drop_last(), least);
        if numbers.last() > rest {
            numbers.last()
        } else {
            rest
        }
    }
}

/// The token counts of some items.
pub open spec fn token_counts(items: Seq<Item>) -> Seq<nat> {
    Seq::new(items.len(), |i: int| items[i].ids@.len())
}

/// The marker counts of some items.
pub open spec fn marker_counts(items: Seq<Item>) -> Seq<nat> {
    Seq::new(items.len(), |i: int| items[i].markers@.len())
}

/// A row filled up to `n` entries.
pub open spec fn filled_up<T>(row: Seq<T>, fill: T, n: nat) -> Seq<T> {
    Seq::new(n, |i: int| if i < row.len() { row[i] } else { fill })
}

/// A row of `n` entries of which the first `k` are 1 and the others 0.
pub open spec fn mask_row(k: nat, n: nat) -> Seq<u8> {
    Seq::new(n, |i: int| if i < k { 1u8 } else { 0u8 })
}

/// Marker positions, as the model takes them.
pub open spec fn positions(markers: Seq<usize>) -> Seq<u32> {
    Seq::new(markers.len(), |i: int| markers[i] as u32)
}

proof fn lemma_most_bounds(numbers: Seq<nat>, least: nat)
    ensures
        most(numbers, least) >= least,
        forall|i: int| 0 <= i < numbers.len() ==> #[trigger] numbers[i] <= most(numbers, least),
    decreases numbers.len(),
{
    if numbers.len() > 0 {
        lemma_most_bounds(numbers.drop_last(), least);
        assert forall|i: int| 0 <= i < numbers.len() implies #[trigger] numbers[i] <= most(
            numbers,
            least,
        ) by {
            if i < numbers.len() - 1 {
                assert(numbers.drop_last()[i] == numbers[i]);
            }
        }
    }
}

fn most_tokens(items: &Vec<Item>) -> (r: usize)
    ensures
        r == most(token_counts(items@), 0),
{
    let mut out: usize = 0;
    let ghost counts = token_counts(items@);
    for i in 0..items.len()
        invariant
            counts == token_counts(items@),
            out == most(counts.take(i as int), 0),
    {
        assert(counts.take(i + 1).drop_last() =~= counts.take(i as int));
        if items[i].ids.len() > out {
            out = items[i].ids.len();
        }
    }
    assert(counts.take(counts.len() as int) =~= counts);
    out
}

fn most_markers(items: &Vec<Item>) -> (r: usize)
    ensures
        r == most(marker_counts(items@), 2),
{
    let mut out: usize = 2;
    let ghost counts = marker_counts(items@);
    for i in 0..items.len()
        invariant
            counts == marker_counts(items@),
            out == most(counts.take(i as int), 2),
    {
        assert(counts.take(i + 1).drop_last() =~= counts.take(i as int));
        if items[i].markers.len() > out {
            out = items[i].markers.len();
        }
    }
    assert(counts.take(counts.len() as int) =~= counts);
    out
}

fn push_mask(out: &mut Vec<u8>, k: usize, n: usize)
    ensures
        final(out)@ == old(out)@ + mask_row(k as nat, n as nat),
{
    let ghost before = out@;
    for i in 0..n
        invariant
            out@ == before + mask_row(k as nat, n as nat).take(i as int),
    {
        let bit: u8 = if i < k {
            1
        } else {
            0
        };
        out.push(bit);
        assert(mask_row(k as nat, n as nat).take(i + 1) =~= mask_row(k as nat, n as nat).take(
            i as int,
        ).push(bit));
    }
    assert(mask_row(k as nat, n as nat).take(n as int) =~= mask_row(k as nat, n as nat));
}

fn push_ids(out: &mut Vec<u32>, ids: &Vec<u32>, pad: u32, n: usize)
    requires
        ids@.len() <= n,
    ensures
        final(out)@ == old(out)@ + filled_up(ids@, pad, n as nat),
{
    let ghost before = out@;
    let ghost row = filled_up(ids@, pad, n as nat);
    for i in 0..n
        invariant
            row == filled_up(ids@, pad, n as nat),
            out@ == before + row.take(i as int),
    {
        let token: u32 = if i < ids.len() {
            ids[i]
        } else {
            pad
        };
        out.push(token);
        assert(row.take(i + 1) =~= row.take(i as int).push(token));
    }
    assert(row.take(n as int) =~= row);
}

fn push_positions(out: &mut Vec<u32>, markers: &Vec<usize>, n: usize)
    requires
        markers@.len() <= n,
    ensures
        final(out)@ == old(out)@ + filled_up(positions(markers@), 0u32, n as nat),
{
    let ghost before = out@;
    let ghost row = filled_up(positions(markers@), 0u32, n as nat);
    for i in 0..n
        invariant
            row == filled_up(positions(markers@), 0u32, n as nat),
            out@ == before + row.take(i as int),
    {
        let position: u32 = if i < markers.len() {
            #[verifier::truncate]
            (markers[i] as u32)
        } else {
            0
        };
        out.push(position);
        assert(row.take(i + 1) =~= row.take(i as int).push(position));
    }
    assert(row.take(n as int) =~= row);
}

/// The tokens of every item, filled up to the longest.
pub open spec fn token_rows(items: Seq<Item>, pad: u32) -> Seq<Seq<u32>> {
    Seq::new(
        items.len(),
        |r: int| filled_up(items[r].ids@, pad, most(token_counts(items), 0)),
    )
}

/// Where the tokens of every item are.
pub open spec fn token_masks(items: Seq<Item>) -> Seq<Seq<u8>> {
    Seq::new(
        items.len(),
        |r: int| mask_row(items[r].ids@.len(), most(token_counts(items), 0)),
    )
}

/// The markers of every item, filled up to the most, and to two.
pub open spec fn marker_rows(items: Seq<Item>) -> Seq<Seq<u32>> {
    Seq::new(
        items.len(),
        |r: int|
            filled_up(positions(items[r].markers@), 0u32, most(marker_counts(items), 2)),
    )
}

/// Where the markers of every item are.
pub open spec fn marker_masks(items: Seq<Item>) -> Seq<Seq<u8>> {
    Seq::new(
        items.len(),
        |r: int| mask_row(items[r].markers@.len(), most(marker_counts(items), 2)),
    )
}

/// The tokens of every item, one item after the other.
pub open spec fn all_tokens(items: Seq<Item>) -> Seq<Seq<u32>> {
    Seq::new(items.len(), |r: int| items[r].ids@)
}

/// Whether `b` is the batch of these items: every row filled up to the longest item, every marker
/// row to the most markers and at least two. A question with a single option still needs two
/// slots: the action head reads a top-1 and a top-2 probability, and the padded slot supplies the
/// missing one as a hard zero.
pub open spec fn is_batch_of(b: Batch, items: Seq<Item>, pad: u32) -> bool {
    &&& b.batch == items.len()
    &&& b.seq_len == most(token_counts(items), 0)
    &&& b.k_max == most(marker_counts(items), 2)
    &&& b.n_tokens == run(all_tokens(items)).len()
    &&& b.input_ids@ == run(token_rows(items, pad))
    &&& b.attention_mask@ == run(token_masks(items))
    &&& b.marker_pos@ == run(marker_rows(items))
    &&& b.marker_mask@ == run(marker_masks(items))
    &&& b.qtype@ == Seq::new(items.len(), |r: int| kind_index(items[r].qtype) as u32)
}

impl Encoder {
    /// Pad a batch of encoded questions into rectangular tensors' worth of data.
    pub fn collate(&self, items: &Vec<Item>) -> (b: Batch)
        ensures
            is_batch_of(b, items@, self.sp.pad_id),
    {
        let ghost all = items@;
        let pad: u32 = self.sp.pad_id;
        let seq_len: usize = most_tokens(items);
        let k_max: usize = most_markers(items);
        proof {
            lemma_most_bounds(token_counts(all), 0);
            lemma_most_bounds(marker_counts(all), 2);
        }
        let mut input_ids: Vec<u32> = Vec::new();
        let mut attention_mask: Vec<u8> = Vec::new();
        let mut marker_pos: Vec<u32> = Vec::new();
        let mut marker_mask: Vec<u8> = Vec::new();
        let mut qtype: Vec<u32> = Vec::new();
        let mut n_tokens: usize = 0;
        for r in 0..items.len()
            invariant
                all == items@,
                pad == self.sp.pad_id,
                seq_len == most(token_counts(all), 0),
                k_max == most(marker_counts(all), 2),
                forall|i: int|
                    0 <= i < all.len() ==> #[trigger] token_counts(all)[i] <= seq_len
                        && marker_counts(all)[i] <= k_max,
                input_ids@ == run(token_rows(all, pad).take(r as int)),
                attention_mask@ == run(token_masks(all).take(r as int)),
                marker_pos@ == run(marker_rows(all).take(r as int)),
                marker_mask@ == run(marker_masks(all).take(r as int)),
                n_tokens == run(all_tokens(all).take(r as int)).len(),
                n_tokens <= input_ids@.len(),
                qtype@ == Seq::new(r as nat, |i: int| kind_index(all[i].qtype) as u32),
        {
            proof {
                lemma_run_take(token_rows(all, pad), r as int);
                lemma_run_take(token_masks(all), r as int);
                lemma_run_take(marker_rows(all), r as int);
                lemma_run_take(marker_masks(all), r as int);
                lemma_run_take(all_tokens(all), r as int);
                assert(token_counts(all)[r as int] <= seq_len);
            }
            push_ids(&mut input_ids, &items[r].ids, pad, seq_len);
            push_mask(&mut attention_mask, items[r].ids.len(), seq_len);
            push_positions(&mut marker_pos, &items[r].markers, k_max);
            push_mask(&mut marker_mask, items[r].markers.len(), k_max);
            assert(input_ids.len() <= usize::MAX);
            n_tokens = n_tokens + items[r].ids.len();
            qtype.push(items[r].qtype.index() as u32);
            assert(qtype@ =~= Seq::new((r + 1) as nat, |i: int| kind_index(all[i].qtype) as u32));
        }
        proof {
            let n = all.len() as int;
            assert(token_rows(all, pad).take(n) =~= token_rows(all, pad));
            assert(token_masks(all).take(n) =~= token_masks(all));
            assert(marker_rows(all).take(n) =~= marker_rows(all));
            assert(marker_masks(all).take(n) =~= marker_masks(all));
            assert(all_tokens(all).take(n) =~= all_tokens(all));
        }
        Batch {
            input_ids,
            attention_mask,
            marker_pos,
            marker_mask,
            qtype,
            batch: items.len(),
            seq_len,
            k_max,
            n_tokens,
        }
    }
}

// ----------------------------------------------------------------------- laws

/// A text that a blank splits holds a blank-free word only where one of its two sides does.
proof fn lemma_occurs_beside_blank(a: Seq<char>, b: Seq<char>, p: Seq<char>)
    requires
        p.len() > 0,
        !p.contains(' '),
        occurs_in(a + seq![' '] + b, p),
    ensures
        occurs_in(a, p) || occurs_in(b, p),
{
    let s = a + seq![' '] + b;
    let i = choose|i: int| occurs_at(s, p, i);
    assert(s.subrange(i, i + p.len()) == p);
    if i + p.len() <= a.len() {
        assert(a.subrange(i, i + p.len()) =~= p);
        assert(occurs_at(a, p, i));
    } else if i > a.len() {
        let j = i - a.len() - 1;
        assert(b.subrange(j, j + p.len()) =~= p);
        assert(occurs_at(b, p, j));
    } else {
        let k = a.len() - i;
        assert(s[a.len() as int] == ' ');
        assert(p[k] == s[i + k]);
        assert(p.contains(p[k]));
    }
}

/// User text cannot forge a marker: whatever the text, no mask token is left in it once scrubbed.
///
/// A mask token with a blank in it, or an empty one, could come about again from the blanks put
/// in its place.
pub proof fn law_scrubbed_text_holds_no_mask(s: Seq<char>, mask: Seq<char>)
    requires
        mask.len() > 0,
        !mask.contains(' '),
    ensures
        !occurs_in(scrubbed(s, mask), mask),
{
    lemma_replaced_is_free(s, mask);
}

/// The text of a question's head holds no mask token, whatever its instructions, unless the fixed
/// words themselves do.
pub proof fn law_head_text_holds_no_mask(q: Asked, mask: Seq<char>)
    requires
        mask.len() > 0,
        !mask.contains(' '),
        !occurs_in(kind_name(q.kind) + " question:"@, mask),
    ensures
        !occurs_in(head_text(q, mask), mask),
{
    reveal_strlit(" question:");
    reveal_strlit(" question: ");
    lemma_replaced_is_free(instructions_of(q), mask);
    let a = kind_name(q.kind) + " question:"@;
    let b = scrubbed(instructions_of(q), mask);
    assert(head_text(q, mask) =~= a + seq![' '] + b);
    if occurs_in(head_text(q, mask), mask) {
        lemma_occurs_beside_blank(a, b, mask);
    }
}

/// The text of an option holds no mask token, whatever the option says.
pub proof fn law_option_text_holds_no_mask(text: Seq<char>, mask: Seq<char>)
    requires
        mask.len() > 0,
        !mask.contains(' '),
    ensures
        !occurs_in(option_text(text, mask), mask),
{
    reveal_strlit(" ");
    lemma_replaced_is_free(text, mask);
    let a = Seq::<char>::empty();
    let b = scrubbed(text, mask);
    assert(option_text(text, mask) =~= a + seq![' '] + b);
    if occurs_in(option_text(text, mask), mask) {
        lemma_occurs_beside_blank(a, b, mask);
        assert(!occurs_in(a, mask));
    }
}

/// An encoded state is the whole state's tokens, or more tokens than the sequence can hold: what
/// is cut off a long state could not have been used.
pub proof fn law_encoded_state_is_whole_or_enough(
    tok: Tokenizer,
    mask: Seq<char>,
    max_len: nat,
    state: Seq<char>,
    budget: nat,
    ids: Seq<u32>,
)
    requires
        settles(tok, mask, max_len, state, budget, Ok(ids)),
    ensures
        exists|n: int|
            0 <= n <= state.len() && #[trigger] encodes(
                tok,
                scrubbed(state.take(n), mask),
                Ok(ids),
            ) && (n == state.len() || ids.len() > max_len),
    decreases (if byte_len(state) > budget { byte_len(state) - budget } else { 0 }),
{
    let outcome: Result<Seq<u32>, Seq<char>> = Ok(ids);
    let answer = choose|answer: Result<Seq<u32>, Seq<char>>| #[trigger]
        encodes(tok, scrubbed(prefix_of(state, budget), mask), answer) && match answer {
            Err(m) => outcome == answer,
            Ok(ids) => if byte_len(state) <= budget || ids.len() > max_len {
                outcome == answer
            } else {
                budget > 0 && settles(tok, mask, max_len, state, 2 * budget, outcome)
            },
        };
    lemma_fitting_bounds(state, budget);
    if answer == outcome {
        let n = fitting(state, budget) as int;
        assert(encodes(tok, scrubbed(state.take(n), mask), Ok(ids)));
        if !(n == state.len() || ids.len() > max_len) {
            law_encoded_state_is_whole_or_enough(tok, mask, max_len, state, 2 * budget, ids);
        }
    } else {
        law_encoded_state_is_whole_or_enough(tok, mask, max_len, state, 2 * budget, ids);
    }
}

/// Marked options stay marked when they are cut.
proof fn lemma_fitted(mask: u32, head_max: nat, bodies: Seq<Seq<u32>>)
    ensures
        fitted(head_max, marked(mask, bodies)).len() == bodies.len(),
        forall|i: int|
            0 <= i < bodies.len() ==> {
                let o = #[trigger] fitted(head_max, marked(mask, bodies))[i];
                o.len() > 0 && o[0] == mask
            },
{
}

/// One row begins where the rows before it end.
proof fn lemma_run_at(rows: Seq<Seq<u32>>, i: int)
    requires
        0 <= i < rows.len(),
        rows[i].len() > 0,
    ensures
        run(rows.take(i)).len() < run(rows).len(),
        run(rows)[run(rows.take(i)).len() as int] == rows[i][0],
        run(rows.take(i)).len() + rows[i].len() <= run(rows).len(),
    decreases rows.len(),
{
    if i == rows.len() - 1 {
        assert(rows.take(i) =~= rows.drop_last());
    } else {
        lemma_run_at(rows.drop_last(), i);
        assert(rows.drop_last().take(i) =~= rows.take(i));
    }
}

/// The layout of a sequence: it fits, it opens with the class token, there is one marker per
/// option in increasing order, and every marker holds the mask token. A sequence whose head leaves
/// room ends with a separator.
pub proof fn law_layout(
    sp: SpecialTokens,
    max_len: nat,
    head_max: nat,
    state: Seq<u32>,
    id: Seq<char>,
    kind: QType,
    labels: Seq<Seq<char>>,
    head: Seq<u32>,
    bodies: Seq<Seq<u32>>,
    item: Encoded,
)
    requires
        assembled(sp, max_len, head_max, state, id, kind, labels, head, bodies) == Ok::<
            Encoded,
            Failure,
        >(item),
    ensures
        item.ids.len() <= max_len,
        max_len > 0 ==> item.ids.len() > 0 && item.ids[0] == sp.cls_id,
        item.markers.len() == bodies.len(),
        forall|i: int|
            0 <= i < item.markers.len() ==> {
                let m = #[trigger] item.markers[i];
                m < item.ids.len() && item.ids[m as int] == sp.mask_id
            },
        forall|i: int, j: int|
            0 <= i < j < item.markers.len() ==> #[trigger] item.markers[i]
                < #[trigger] item.markers[j],
        ({
            let options = fitted(head_max, marked(sp.mask_id, bodies));
            let kept = capped(head, head_room(head_max, options));
            opening(sp, kept, options).len() < max_len ==> item.ids.last() == sp.sep_id
        }),
{
    let options = fitted(head_max, marked(sp.mask_id, bodies));
    let kept = capped(head, head_room(head_max, options));
    let front = opening(sp, kept, options);
    lemma_fitted(sp.mask_id, head_max, bodies);
    let start = (kept.len() + 2) as int;
    assert forall|i: int| 0 <= i < item.markers.len() implies {
        let m = #[trigger] item.markers[i];
        m < item.ids.len() && item.ids[m as int] == sp.mask_id
    } by {
        assert(options[i].len() > 0 && options[i][0] == sp.mask_id);
        lemma_run_at(options, i);
        let m = item.markers[i] as int;
        let last = options.len() - 1;
        lemma_markers_grow(start as nat, options, i, last);
        assert(m < max_len);
        assert(front[m] == run(options)[m - start]);
    }
    assert forall|i: int, j: int| 0 <= i < j < item.markers.len() implies #[trigger] item.markers[i]
        < #[trigger] item.markers[j] by {
        assert(options[i].len() > 0);
        lemma_markers_grow(start as nat, options, i, j);
    }
}

proof fn lemma_markers_grow(start: nat, options: Seq<Seq<u32>>, i: int, j: int)
    requires
        0 <= i <= j < options.len(),
        forall|k: int| 0 <= k < options.len() ==> (#[trigger] options[k]).len() > 0,
    ensures
        marker_positions(start, options)[i] <= marker_positions(start, options)[j],
        i < j ==> marker_positions(start, options)[i] < marker_positions(start, options)[j],
    decreases j - i,
{
    if i < j {
        lemma_markers_grow(start, options, i, j - 1);
        lemma_run_take(options, j - 1);
        assert(options[j - 1].len() > 0);
    }
}

/// Whatever the tokenizer answers, an encoded question fits the sequence and has one marker and one
/// label per option, with the mask token at every marker.
pub proof fn law_built_items_are_well_laid_out(
    enc: Encoder,
    state: Seq<u32>,
    id: Seq<char>,
    q: Asked,
    item: Encoded,
)
    requires
        builds(enc, state, id, q, Ok(item)),
    ensures
        options_of(q) is Some,
        item.kind == q.kind,
        item.labels == firsts(options_of(q)->0),
        item.markers.len() == item.labels.len(),
        item.ids.len() <= enc.max_len,
        forall|i: int|
            0 <= i < item.markers.len() ==> {
                let m = #[trigger] item.markers[i];
                m < item.ids.len() && item.ids[m as int] == enc.sp.mask_id
            },
        forall|i: int, j: int|
            0 <= i < j < item.markers.len() ==> #[trigger] item.markers[i]
                < #[trigger] item.markers[j],
{
    let options = options_of(q)->0;
    let outcome: Result<Encoded, Failure> = Ok(item);
    let (head, bodies) = choose|head: Seq<u32>, bodies: Seq<Seq<u32>>|
        {
            &&& #[trigger] answered(enc, q, options, head, bodies)
            &&& bodies.len() == options.len()
            &&& outcome == assembled(
                enc.sp,
                enc.max_len as nat,
                enc.head_max_len as nat,
                state,
                id,
                q.kind,
                firsts(options),
                head,
                bodies,
            )
        };
    law_layout(
        enc.sp,
        enc.max_len as nat,
        enc.head_max_len as nat,
        state,
        id,
        q.kind,
        firsts(options),
        head,
        bodies,
        item,
    );
}

/// Whether the tokenizer gives a mask token's id only to texts in which the mask token occurs.
pub open spec fn masks_by_text(tok: Tokenizer, mask_id: u32, mask: Seq<char>) -> bool {
    forall|text: Seq<char>, ids: Seq<u32>| #[trigger]
        encodes(tok, text, Ok(ids)) && ids.contains(mask_id) ==> occurs_in(text, mask)
}

/// Every entry of some rows stands in one of them.
proof fn lemma_run_index(rows: Seq<Seq<u32>>, j: int) -> (at: (int, int))
    requires
        0 <= j < run(rows).len(),
    ensures
        0 <= at.0 < rows.len(),
        0 <= at.1 < rows[at.0].len(),
        j == run(rows.take(at.0)).len() + at.1,
        run(rows)[j] == rows[at.0][at.1],
    decreases rows.len(),
{
    let before = rows.drop_last();
    let last = rows.len() - 1;
    assert(rows.take(last) =~= before);
    if j < run(before).len() {
        let at = lemma_run_index(before, j);
        assert(before.take(at.0) =~= rows.take(at.0));
        assert(before[at.0] == rows[at.0]);
        at
    } else {
        assert(rows[last] == rows.last());
        (last, j - run(before).len())
    }
}

/// A mask token in a sequence is a marker, if the head, the options and the state hold none.
proof fn lemma_masks_are_markers(
    sp: SpecialTokens,
    max_len: nat,
    head_max: nat,
    state: Seq<u32>,
    id: Seq<char>,
    kind: QType,
    labels: Seq<Seq<char>>,
    head: Seq<u32>,
    bodies: Seq<Seq<u32>>,
    item: Encoded,
    p: int,
)
    requires
        assembled(sp, max_len, head_max, state, id, kind, labels, head, bodies) == Ok::<
            Encoded,
            Failure,
        >(item),
        sp.cls_id != sp.mask_id,
        sp.sep_id != sp.mask_id,
        !head.contains(sp.mask_id),
        !state.contains(sp.mask_id),
        forall|i: int| 0 <= i < bodies.len() ==> !(#[trigger] bodies[i]).contains(sp.mask_id),
        0 <= p < item.ids.len(),
        item.ids[p] == sp.mask_id,
    ensures
        item.markers.contains(p as nat),
{
    let options = fitted(head_max, marked(sp.mask_id, bodies));
    let kept = capped(head, head_room(head_max, options));
    let front = opening(sp, kept, options);
    let start = (kept.len() + 2) as int;
    let room = if front.len() + 1 <= max_len {
        (max_len - front.len() - 1) as nat
    } else {
        0
    };
    let tail = capped(state, room);
    lemma_fitted(sp.mask_id, head_max, bodies);
    assert(item.ids[p] == (front + tail + seq![sp.sep_id])[p]);
    if p >= front.len() {
        if p < front.len() + tail.len() {
            assert(tail[p - front.len()] == state[p - front.len()]);
            assert(state.contains(sp.mask_id));
        }
        assert(false);
    } else if p < start {
        if 0 < p <= kept.len() {
            assert(front[p] == kept[p - 1]);
            assert(kept[p - 1] == head[p - 1]);
            assert(head.contains(sp.mask_id));
        }
        assert(false);
    } else if p == front.len() - 1 {
        assert(front[p] == sp.sep_id);
        assert(false);
    } else {
        assert(front[p] == run(options)[p - start]);
        let (i, k) = lemma_run_index(options, p - start);
        if k > 0 {
            let whole = marked(sp.mask_id, bodies)[i];
            assert(options[i][k] == whole[k]);
            assert(whole == seq![sp.mask_id] + capped(bodies[i], MAX_OPTION_TOKENS as nat));
            assert(whole[k] == bodies[i][k - 1]);
            assert(bodies[i].contains(sp.mask_id));
            assert(false);
        }
        assert(item.markers[i] == p);
    }
}

/// User text cannot forge a marker. Take a tokenizer that gives the mask token's id only to texts
/// in which the mask token occurs, and that tells the class and separator tokens from it. Then in
/// every question encoded over every encoded state, whatever the state, the instructions and the
/// options say, the mask token stands exactly at the markers, one for each option.
///
/// As for the texts themselves, the mask token is not empty, holds no blank, and does not occur in
/// the fixed words of the head.
pub proof fn law_user_text_cannot_forge_a_marker(
    enc: Encoder,
    text: Seq<char>,
    budget: nat,
    state: Seq<u32>,
    id: Seq<char>,
    q: Asked,
    item: Encoded,
    p: int,
)
    requires
        settles(enc.tok, enc.sp.mask_token@, enc.max_len as nat, text, budget, Ok(state)),
        builds(enc, state, id, q, Ok(item)),
        masks_by_text(enc.tok, enc.sp.mask_id, enc.sp.mask_token@),
        enc.sp.cls_id != enc.sp.mask_id,
        enc.sp.sep_id != enc.sp.mask_id,
        enc.sp.mask_token@.len() > 0,
        !enc.sp.mask_token@.contains(' '),
        !occurs_in(kind_name(q.kind) + " question:"@, enc.sp.mask_token@),
        0 <= p < item.ids.len(),
    ensures
        item.ids[p] == enc.sp.mask_id <==> item.markers.contains(p as nat),
        item.markers.len() == item.labels.len() == (options_of(q)->0).len(),
        forall|i: int, j: int|
            0 <= i < j < item.markers.len() ==> #[trigger] item.markers[i]
                < #[trigger] item.markers[j],
{
    let mask = enc.sp.mask_token@;
    let options = options_of(q)->0;
    let outcome: Result<Encoded, Failure> = Ok(item);
    law_built_items_are_well_laid_out(enc, state, id, q, item);
    let (head, bodies) = choose|head: Seq<u32>, bodies: Seq<Seq<u32>>|
        {
            &&& #[trigger] answered(enc, q, options, head, bodies)
            &&& bodies.len() == options.len()
            &&& outcome == assembled(
                enc.sp,
                enc.max_len as nat,
                enc.head_max_len as nat,
                state,
                id,
                q.kind,
                firsts(options),
                head,
                bodies,
            )
        };
    law_encoded_state_is_whole_or_enough(enc.tok, mask, enc.max_len as nat, text, budget, state);
    let n = choose|n: int|
        0 <= n <= text.len() && #[trigger] encodes(
            enc.tok,
            scrubbed(text.take(n), mask),
            Ok(state),
        ) && (n == text.len() || state.len() > enc.max_len);
    law_scrubbed_text_holds_no_mask(text.take(n), mask);
    assert(!state.contains(enc.sp.mask_id));
    law_head_text_holds_no_mask(q, mask);
    assert(!head.contains(enc.sp.mask_id));
    assert forall|i: int| 0 <= i < bodies.len() implies !(#[trigger] bodies[i]).contains(
        enc.sp.mask_id,
    ) by {
        law_option_text_holds_no_mask(options[i].1, mask);
        assert(encodes(enc.tok, option_text(options[i].1, mask), Ok(bodies[i])));
    }
    if item.ids[p] == enc.sp.mask_id {
        lemma_masks_are_markers(
            enc.sp,
            enc.max_len as nat,
            enc.head_max_len as nat,
            state,
            id,
            q.kind,
            firsts(options),
            head,
            bodies,
            item,
            p,
        );
    }
    if item.markers.contains(p as nat) {
        let i = choose|i: int| 0 <= i < item.markers.len() && item.markers[i] == p as nat;
        assert(item.ids[item.markers[i] as int] == enc.sp.mask_id);
    }
}

/// A row of a batch is its item's tokens and then padding, as long as the longest item.
pub proof fn law_rows_are_padded(items: Seq<Item>, pad: u32, r: int, c: int)
    requires
        0 <= r < items.len(),
        0 <= c < most(token_counts(items), 0),
    ensures
        items[r].ids@.len() <= most(token_counts(items), 0),
        token_rows(items, pad)[r].len() == most(token_counts(items), 0),
        token_rows(items, pad)[r][c] == if c < items[r].ids@.len() {
            items[r].ids@[c]
        } else {
            pad
        },
        token_masks(items)[r][c] == if c < items[r].ids@.len() {
            1u8
        } else {
            0u8
        },
        marker_rows(items)[r].len() >= 2,
{
    lemma_most_bounds(token_counts(items), 0);
    lemma_most_bounds(marker_counts(items), 2);
    assert(token_counts(items)[r] == items[r].ids@.len());
}

/// A prefix is the longest that fits: it begins the text, its bytes fit, and one character more would
/// not.
pub proof fn law_prefix_is_the_longest_that_fits(s: Seq<char>, budget: nat)
    ensures
        ({
            let p = prefix_of(s, budget);
            &&& p.len() <= s.len()
            &&& p == s.take(p.len() as int)
            &&& encode_utf8(p).len() <= budget
            &&& p.len() < s.len() ==> encode_utf8(s.take(p.len() as int + 1)).len() > budget
        }),
{
    lemma_fitting_bounds(s, budget);
    lemma_one_more(s, budget);
    let n = fitting(s, budget) as int;
    lemma_byte_len_is_encoded_len(s.take(n));
    if n < s.len() {
        lemma_byte_len_is_encoded_len(s.take(n + 1));
    }
}

proof fn lemma_one_more(s: Seq<char>, budget: nat)
    ensures
        fitting(s, budget) < s.len() ==> byte_len(s.take(fitting(s, budget) as int + 1)) > budget,
    decreases s.len(),
{
    if byte_len(s) > budget && s.len() > 0 {
        let t = s.drop_last();
        lemma_one_more(t, budget);
        lemma_fitting_bounds(t, budget);
        let n = fitting(t, budget) as int;
        if n < t.len() {
            assert(t.take(n + 1) =~= s.take(n + 1));
        } else {
            assert(s.take(n + 1) =~= s);
        }
    }
}

/// A state of no more than sixteen bytes for each place of the sequence is tokenised whole, at once.
pub proof fn law_short_states_are_tokenised_whole(
    tok: Tokenizer,
    mask: Seq<char>,
    max_len: nat,
    state: Seq<char>,
    outcome: Result<Seq<u32>, Seq<char>>,
)
    requires
        encode_utf8(state).len() <= 16 * max_len,
    ensures
        settles(tok, mask, max_len, state, first_budget(max_len), outcome) <==> encodes(
            tok,
            scrubbed(state, mask),
            outcome,
        ),
{
    let budget = first_budget(max_len);
    lemma_byte_len_is_encoded_len(state);
    lemma_fitting_bounds(state, budget);
    assert(prefix_of(state, budget) =~= state);
    if encodes(tok, scrubbed(state, mask), outcome) {
        assert(encodes(tok, scrubbed(prefix_of(state, budget), mask), outcome));
    }
}

/// A state is refused only where the tokenizer refuses a beginning of it, and in its words.
pub proof fn law_states_are_refused_by_the_tokenizer(
    tok: Tokenizer,
    mask: Seq<char>,
    max_len: nat,
    state: Seq<char>,
    budget: nat,
    m: Seq<char>,
)
    requires
        settles(tok, mask, max_len, state, budget, Err(m)),
    ensures
        exists|n: int|
            0 <= n <= state.len() && #[trigger] encodes(
                tok,
                scrubbed(state.take(n), mask),
                Err(m),
            ),
    decreases (if byte_len(state) > budget { byte_len(state) - budget } else { 0 }),
{
    let outcome: Result<Seq<u32>, Seq<char>> = Err(m);
    let answer = choose|answer: Result<Seq<u32>, Seq<char>>| #[trigger]
        encodes(tok, scrubbed(prefix_of(state, budget), mask), answer) && match answer {
            Err(m) => outcome == answer,
            Ok(ids) => if byte_len(state) <= budget || ids.len() > max_len {
                outcome == answer
            } else {
                budget > 0 && settles(tok, mask, max_len, state, 2 * budget, outcome)
            },
        };
    lemma_fitting_bounds(state, budget);
    if answer == outcome {
        assert(encodes(tok, scrubbed(state.take(fitting(state, budget) as int), mask), Err(m)));
    } else {
        law_states_are_refused_by_the_tokenizer(tok, mask, max_len, state, 2 * budget, m);
    }
}

/// Scrubbing puts a blank in the place of a mask token and changes nothing else.
pub proof fn law_scrubbing_changes_only_masks(s: Seq<char>, mask: Seq<char>, i: int)
    requires
        mask.len() > 0,
        0 <= i <= s.len(),
        forall|j: int| 0 <= j < i ==> !(#[trigger] occurs_at(s, mask, j)),
    ensures
        occurs_at(s, mask, i) ==> scrubbed(s, mask) == s.take(i) + seq![' '] + scrubbed(
            s.skip(i + mask.len()),
            mask,
        ),
        i == s.len() ==> scrubbed(s, mask) == s,
{
    law_replacing(s, mask, seq![' '], i);
}

/// The texts that are tokenised for a question: its kind and its instructions, and for each option a
/// blank and the option's text.
pub proof fn law_texts_of_a_question(q: Asked, text: Seq<char>, mask: Seq<char>)
    requires
        mask.len() > 0,
        !occurs_in(instructions_of(q), mask),
        !occurs_in(text, mask),
    ensures
        q.kind == QType::Choice ==> head_text(q, mask) == "choice question: "@ + instructions_of(q),
        q.kind == QType::Score ==> head_text(q, mask) == "score question: "@ + instructions_of(q),
        q.kind == QType::Noul ==> head_text(q, mask) == "noul question: "@ + instructions_of(q),
        option_text(text, mask) == seq![' '] + text,
{
    reveal_strlit("choice");
    reveal_strlit("score");
    reveal_strlit("noul");
    reveal_strlit(" question: ");
    reveal_strlit("choice question: ");
    reveal_strlit("score question: ");
    reveal_strlit("noul question: ");
    reveal_strlit(" ");
    assert(" "@ =~= seq![' ']);
    assert("choice"@ + " question: "@ =~= "choice question: "@);
    assert("score"@ + " question: "@ =~= "score question: "@);
    assert("noul"@ + " question: "@ =~= "noul question: "@);
    let t = instructions_of(q);
    law_replacing(t, mask, seq![' '], t.len() as int);
    law_replacing(text, mask, seq![' '], text.len() as int);
}

/// How many tokens of an option's text are in the sequence.
pub open spec fn kept_of(head_max: nat, mask: u32, bodies: Seq<Seq<u32>>, i: int) -> nat {
    (fitted(head_max, marked(mask, bodies))[i].len() - 1) as nat
}

/// The tokens that a list of options takes when every text is kept up to 48 tokens.
pub open spec fn full_size(mask: u32, bodies: Seq<Seq<u32>>) -> nat {
    run(Seq::new(bodies.len(), |i: int| seq![mask] + capped(bodies[i], 48))).len()
}

/// An option is its mask token and the beginning of its text. No more than 48 tokens of a text are
/// kept, and all of those where the options together leave sixteen of the head budget. Where they do
/// not, three tokens are kept of every text that has them, no option is kept longer than another that is
/// cut, and the options share what is left of the budget beside those sixteen: none is cut shorter than
/// an even share of it, and none is longer.
pub proof fn law_options_are_cut_evenly(
    head_max: nat,
    mask: u32,
    bodies: Seq<Seq<u32>>,
    i: int,
    j: int,
)
    requires
        0 <= i < bodies.len(),
        0 <= j < bodies.len(),
    ensures
        ({
            let options = fitted(head_max, marked(mask, bodies));
            let n = kept_of(head_max, mask, bodies, i);
            let k = kept_of(head_max, mask, bodies, j);
            &&& options.len() == bodies.len()
            &&& n <= bodies[i].len()
            &&& options[i] == seq![mask] + bodies[i].take(n as int)
            &&& n <= 48
            &&& n >= 3 || n == bodies[i].len()
            &&& full_size(mask, bodies) + 16 <= head_max && bodies[i].len() <= 48 ==> n
                == bodies[i].len()
            &&& full_size(mask, bodies) + 16 <= head_max && bodies[i].len() > 48 ==> n == 48
            &&& n < bodies[i].len() ==> k <= n
            &&& n < bodies[i].len() && n < 48 ==> (n + 2) * bodies.len() > head_max - 16
            &&& full_size(mask, bodies) + 16 > head_max && n > 3 ==> (n + 1) * bodies.len()
                <= head_max - 16
        }),
{
    let whole = marked(mask, bodies);
    let options = fitted(head_max, whole);
    assert(whole =~= Seq::new(bodies.len(), |i: int| seq![mask] + capped(bodies[i], 48)));
    lemma_cut_option(head_max, mask, bodies, i);
    lemma_cut_option(head_max, mask, bodies, j);
    lemma_even_share(head_max, bodies.len());
    let n = kept_of(head_max, mask, bodies, i) as int;
    let c = bodies.len() as int;
    let limit = share(head_max, bodies.len()) as int;
    if n < bodies[i].len() && n < 48 {
        assert(n + 1 == limit);
        assert((n + 2) * c == limit * c + c) by (nonlinear_arith)
            requires
                n + 1 == limit,
        ;
    }
    if full_size(mask, bodies) + 16 > head_max && n > 3 {
        assert(n + 1 <= limit);
        assert((n + 1) * c <= limit * c) by (nonlinear_arith)
            requires
                n + 1 <= limit,
                c > 0,
        ;
    }
}

/// What an even share is.
proof fn lemma_even_share(head_max: nat, n: nat)
    requires
        n > 0,
    ensures
        share(head_max, n) * n + n > head_max - 16,
        share(head_max, n) > 4 ==> share(head_max, n) * n <= head_max - 16,
{
    let x = (if head_max <= 16 {
        0
    } else {
        head_max - 16
    }) as int;
    let c = n as int;
    let q = x / c;
    vstd::arithmetic::div_mod::lemma_fundamental_div_mod(x, c);
    vstd::arithmetic::div_mod::lemma_mod_bound(x, c);
    assert(c * q == q * c) by (nonlinear_arith);
    if q < 4 {
        assert(4 * c >= q * c) by (nonlinear_arith)
            requires
                q < 4,
                c > 0,
        ;
    }
}

proof fn lemma_cut_option(head_max: nat, mask: u32, bodies: Seq<Seq<u32>>, i: int)
    requires
        0 <= i < bodies.len(),
    ensures
        ({
            let whole = marked(mask, bodies);
            let options = fitted(head_max, whole);
            let n = kept_of(head_max, mask, bodies, i);
            let limit = share(head_max, bodies.len());
            let body = bodies[i].len();
            &&& options.len() == bodies.len()
            &&& n <= body
            &&& options[i] == seq![mask] + bodies[i].take(n as int)
            &&& limit >= 4
            &&& left_over(head_max, whole) >= 16 ==> n == if body <= 48 {
                body
            } else {
                48
            }
            &&& left_over(head_max, whole) < 16 ==> n == if body <= 48 && body <= limit - 1 {
                body as int
            } else if limit - 1 <= 48 {
                limit - 1
            } else {
                48
            }
        }),
{
    let whole = marked(mask, bodies);
    let options = fitted(head_max, whole);
    let n = kept_of(head_max, mask, bodies, i);
    assert(whole[i] == seq![mask] + capped(bodies[i], 48));
    assert(options[i] =~= seq![mask] + bodies[i].take(n as int));
}

/// What a sequence holds, piece by piece: the class token, the beginning of the head, a separator, the
/// options, a separator, the beginning of the state, a separator, and nothing past the length. The head
/// keeps eight tokens at least, or all that it has, and is cut only where the budget is used up. The
/// state is cut only where the sequence is full. The markers stand where the options begin.
pub proof fn law_what_a_sequence_holds(
    sp: SpecialTokens,
    max_len: nat,
    head_max: nat,
    state: Seq<u32>,
    id: Seq<char>,
    kind: QType,
    labels: Seq<Seq<char>>,
    head: Seq<u32>,
    bodies: Seq<Seq<u32>>,
    item: Encoded,
) -> (kept: (int, int))
    requires
        assembled(sp, max_len, head_max, state, id, kind, labels, head, bodies) == Ok::<
            Encoded,
            Failure,
        >(item),
    ensures
        0 <= kept.0 <= head.len(),
        0 <= kept.1 <= state.len(),
        ({
            let options = fitted(head_max, marked(sp.mask_id, bodies));
            let front = seq![sp.cls_id] + head.take(kept.0) + seq![sp.sep_id] + run(options) + seq![
                sp.sep_id,
            ];
            let all = front + state.take(kept.1) + seq![sp.sep_id];
            &&& item.ids.len() <= max_len
            &&& item.ids == all.take(item.ids.len() as int)
            &&& all.len() <= max_len ==> item.ids == all
            &&& kept.0 >= 8 || kept.0 == head.len()
            &&& kept.0 < head.len() ==> kept.0 + run(options).len() >= head_max
            &&& kept.0 > 8 ==> kept.0 + run(options).len() <= head_max
            &&& kept.1 < state.len() ==> item.ids.len() == max_len || front.len() >= max_len
            &&& item.markers.len() == options.len()
            &&& forall|i: int|
                0 <= i < options.len() ==> #[trigger] item.markers[i] == kept.0 + 2 + run(
                    options.take(i),
                ).len()
        }),
        item.kind == kind,
        item.labels == labels,
{
    let options = fitted(head_max, marked(sp.mask_id, bodies));
    let front_head = capped(head, head_room(head_max, options));
    let h = front_head.len() as int;
    let front = opening(sp, front_head, options);
    let room = if front.len() + 1 <= max_len {
        (max_len - front.len() - 1) as nat
    } else {
        0
    };
    let tail = capped(state, room);
    let t = tail.len() as int;
    assert(front_head =~= head.take(h));
    assert(tail =~= state.take(t));
    assert(item.ids =~= (front + tail + seq![sp.sep_id]).take(item.ids.len() as int));
    (h, t)
}

/// A question is turned away for its options only when the last of them would begin past the end, and
/// the complaint names the question.
pub proof fn law_options_that_do_not_fit_are_refused(
    sp: SpecialTokens,
    max_len: nat,
    head_max: nat,
    state: Seq<u32>,
    id: Seq<char>,
    kind: QType,
    labels: Seq<Seq<char>>,
    head: Seq<u32>,
    bodies: Seq<Seq<u32>>,
)
    ensures
        ({
            let r = assembled(sp, max_len, head_max, state, id, kind, labels, head, bodies);
            let options = fitted(head_max, marked(sp.mask_id, bodies));
            &&& bodies.len() == 0 ==> r is Ok
            &&& r matches Err(e) ==> e is Question && e->Question_id == id
            &&& bodies.len() > 0 && head.len() <= 8 ==> (r is Err <==> head.len() + 2 + run(
                options.drop_last(),
            ).len() >= max_len)
        }),
{
    let options = fitted(head_max, marked(sp.mask_id, bodies));
    lemma_fitted(sp.mask_id, head_max, bodies);
    if bodies.len() > 0 {
        assert(options.take(options.len() - 1) =~= options.drop_last());
    }
}

/// Rows of one length stand one after the other.
proof fn lemma_even_rows<T>(rows: Seq<Seq<T>>, n: nat, r: int, c: int)
    requires
        0 <= r < rows.len(),
        0 <= c < n,
        forall|k: int| 0 <= k < rows.len() ==> (#[trigger] rows[k]).len() == n,
    ensures
        run(rows).len() == rows.len() * n,
        0 <= r * n + c < run(rows).len(),
        run(rows)[r * n + c] == rows[r][c],
    decreases rows.len(),
{
    let before = rows.drop_last();
    let last = rows.len() - 1;
    assert(rows[last] == rows.last());
    assert forall|k: int| 0 <= k < before.len() implies (#[trigger] before[k]).len() == n by {
        assert(before[k] == rows[k]);
    }
    lemma_even_size(before, n);
    assert(last * n + n == rows.len() * n) by (nonlinear_arith)
        requires
            rows.len() == last + 1,
    ;
    assert(0 <= r * n && r * n + n <= rows.len() * n) by (nonlinear_arith)
        requires
            0 <= r < rows.len(),
    ;
    if r < last {
        lemma_even_rows(before, n, r, c);
        assert(before[r] == rows[r]);
    }
}

proof fn lemma_even_size<T>(rows: Seq<Seq<T>>, n: nat)
    requires
        forall|k: int| 0 <= k < rows.len() ==> (#[trigger] rows[k]).len() == n,
    ensures
        run(rows).len() == rows.len() * n,
    decreases rows.len(),
{
    if rows.len() > 0 {
        let before = rows.drop_last();
        let last = rows.len() - 1;
        assert(rows[last] == rows.last());
        assert forall|k: int| 0 <= k < before.len() implies (#[trigger] before[k]).len() == n by {
            assert(before[k] == rows[k]);
        }
        lemma_even_size(before, n);
        assert(last * n + n == rows.len() * n) by (nonlinear_arith)
            requires
                rows.len() == last + 1,
        ;
    } else {
        assert(0 * n == 0) by (nonlinear_arith);
    }
}

proof fn lemma_most_is_there(numbers: Seq<nat>, least: nat)
    ensures
        most(numbers, least) == least || numbers.contains(most(numbers, least)),
    decreases numbers.len(),
{
    if numbers.len() > 0 {
        let before = numbers.drop_last();
        lemma_most_is_there(before, least);
        if numbers.last() > most(before, least) {
            assert(numbers[numbers.len() - 1] == most(numbers, least));
        } else if most(before, least) != least {
            let k = choose|k: int| 0 <= k < before.len() && before[k] == most(before, least);
            assert(numbers[k] == most(numbers, least));
        }
    }
}

/// A batch is rectangular: row by row it holds the tokens of its items and then padding, with a one
/// where there is a token and a zero where there is none; and likewise their markers, filled up with
/// zeros. It is as wide as its longest item, has as many marker places as its item with the most, and
/// never fewer than two; and it says of every item of which kind it is.
pub proof fn law_batches_are_rectangular(b: Batch, items: Seq<Item>, pad: u32, r: int, c: int)
    requires
        is_batch_of(b, items, pad),
        0 <= r < items.len(),
    ensures
        b.batch == items.len(),
        items[r].ids@.len() <= b.seq_len,
        b.seq_len > 0 ==> exists|k: int|
            0 <= k < items.len() && (#[trigger] items[k]).ids@.len() == b.seq_len,
        items[r].markers@.len() <= b.k_max,
        b.k_max >= 2,
        b.k_max > 2 ==> exists|k: int|
            0 <= k < items.len() && (#[trigger] items[k]).markers@.len() == b.k_max,
        b.input_ids@.len() == b.batch * b.seq_len,
        b.attention_mask@.len() == b.batch * b.seq_len,
        b.marker_pos@.len() == b.batch * b.k_max,
        b.marker_mask@.len() == b.batch * b.k_max,
        0 <= c < items[r].ids@.len() ==> b.input_ids@[r * b.seq_len + c] == items[r].ids@[c]
            && b.attention_mask@[r * b.seq_len + c] == 1,
        items[r].ids@.len() <= c < b.seq_len ==> b.input_ids@[r * b.seq_len + c] == pad
            && b.attention_mask@[r * b.seq_len + c] == 0,
        0 <= c < items[r].markers@.len() ==> b.marker_pos@[r * b.k_max + c]
            == items[r].markers@[c] as u32 && b.marker_mask@[r * b.k_max + c] == 1,
        items[r].markers@.len() <= c < b.k_max ==> b.marker_pos@[r * b.k_max + c] == 0
            && b.marker_mask@[r * b.k_max + c] == 0,
        b.qtype@.len() == items.len(),
        b.qtype@[r] == match items[r].qtype {
            QType::Choice => 0u32,
            QType::Score => 1,
            QType::Noul => 2,
        },
{
    let n = most(token_counts(items), 0);
    let k = most(marker_counts(items), 2);
    lemma_most_bounds(token_counts(items), 0);
    lemma_most_bounds(marker_counts(items), 2);
    lemma_most_is_there(token_counts(items), 0);
    lemma_most_is_there(marker_counts(items), 2);
    assert(token_counts(items)[r] == items[r].ids@.len());
    assert(marker_counts(items)[r] == items[r].markers@.len());
    if n > 0 {
        let x = choose|x: int| 0 <= x < token_counts(items).len() && token_counts(items)[x] == n;
        assert(items[x].ids@.len() == n);
    }
    if k > 2 {
        let x = choose|x: int|
            0 <= x < marker_counts(items).len() && marker_counts(items)[x] == k;
        assert(items[x].markers@.len() == k);
    }
    lemma_even_size(token_rows(items, pad), n);
    lemma_even_size(token_masks(items), n);
    lemma_even_size(marker_rows(items), k);
    lemma_even_size(marker_masks(items), k);
    if 0 <= c < n {
        lemma_even_rows(token_rows(items, pad), n, r, c);
        lemma_even_rows(token_masks(items), n, r, c);
    }
    if 0 <= c < k {
        lemma_even_rows(marker_rows(items), k, r, c);
        lemma_even_rows(marker_masks(items), k, r, c);
    }
}

/// The tokens of a batch are those of its items, padding aside: one item more adds its own.
pub proof fn law_tokens_of_a_batch(a: Batch, b: Batch, items: Seq<Item>, last: Item, pad: u32)
    requires
        is_batch_of(a, items, pad),
        is_batch_of(b, items.push(last), pad),
    ensures
        b.n_tokens == a.n_tokens + last.ids@.len(),
        items.len() == 0 ==> a.n_tokens == 0,
{
    assert(all_tokens(items.push(last)).drop_last() =~= all_tokens(items));
    assert(all_tokens(items.push(last)).last() == last.ids@);
}

/// An encoded question comes from its own texts: the tokenizer was asked for the text of its head and for
/// the text of each of its options, in their order, and the sequence was put together from the answers.
pub proof fn law_what_a_question_is_built_from(
    enc: Encoder,
    state: Seq<u32>,
    id: Seq<char>,
    q: Asked,
    item: Encoded,
)
    requires
        builds(enc, state, id, q, Ok(item)),
    ensures
        options_of(q) is Some,
        item.labels.len() == (options_of(q)->0).len(),
        forall|i: int|
            0 <= i < item.labels.len() ==> #[trigger] item.labels[i] == (options_of(q)->0)[i].0,
        exists|head: Seq<u32>, bodies: Seq<Seq<u32>>|
            {
                &&& #[trigger] encodes(
                    enc.tok,
                    kind_name(q.kind) + " question: "@ + scrubbed(
                        instructions_of(q),
                        enc.sp.mask_token@,
                    ),
                    Ok(head),
                )
                &&& bodies.len() == (options_of(q)->0).len()
                &&& forall|i: int|
                    0 <= i < bodies.len() ==> encodes(
                        enc.tok,
                        " "@ + scrubbed((options_of(q)->0)[i].1, enc.sp.mask_token@),
                        Ok(#[trigger] bodies[i]),
                    )
                &&& #[trigger] assembled(
                    enc.sp,
                    enc.max_len as nat,
                    enc.head_max_len as nat,
                    state,
                    id,
                    q.kind,
                    item.labels,
                    head,
                    bodies,
                ) == Ok::<Encoded, Failure>(item)
            },
{
    let options = options_of(q)->0;
    let outcome: Result<Encoded, Failure> = Ok(item);
    let (head, bodies) = choose|head: Seq<u32>, bodies: Seq<Seq<u32>>|
        {
            &&& #[trigger] answered(enc, q, options, head, bodies)
            &&& bodies.len() == options.len()
            &&& outcome == assembled(
                enc.sp,
                enc.max_len as nat,
                enc.head_max_len as nat,
                state,
                id,
                q.kind,
                firsts(options),
                head,
                bodies,
            )
        };
    assert(item.labels == firsts(options));
    assert(encodes(enc.tok, head_text(q, enc.sp.mask_token@), Ok(head)));
    assert forall|i: int| 0 <= i < bodies.len() implies encodes(
        enc.tok,
        " "@ + scrubbed(options[i].1, enc.sp.mask_token@),
        Ok(#[trigger] bodies[i]),
    ) by {
        assert(encodes(enc.tok, option_text(options[i].1, enc.sp.mask_token@), Ok(bodies[i])));
    }
}

/// A question fails for one of three reasons: it has no options, the tokenizer refused the text of its head
/// or of one of its options, or the options do not fit.
pub proof fn law_why_a_question_fails(
    enc: Encoder,
    state: Seq<u32>,
    id: Seq<char>,
    q: Asked,
    e: Failure,
)
    requires
        builds(enc, state, id, q, Err(e)),
    ensures
        options_of(q) is None ==> e == misfit(q, id),
        options_of(q) matches Some(options) ==> {
            ||| e == overflow(id, options.len(), enc.head_max_len as nat)
            ||| e matches Failure::Tokenizer(m) && (encodes(
                enc.tok,
                head_text(q, enc.sp.mask_token@),
                Err(m),
            ) || exists|i: int|
                0 <= i < options.len() && encodes(
                    enc.tok,
                    option_text((#[trigger] options[i]).1, enc.sp.mask_token@),
                    Err(m),
                ))
        },
{
    if options_of(q) is Some {
        let options = options_of(q)->0;
        let outcome: Result<Encoded, Failure> = Err(e);
        if exists|head: Seq<u32>, bodies: Seq<Seq<u32>>, m: Seq<char>|
            {
                &&& #[trigger] answered(enc, q, options, head, bodies)
                &&& bodies.len() < options.len()
                &&& #[trigger] encodes(
                    enc.tok,
                    option_text(options[bodies.len() as int].1, enc.sp.mask_token@),
                    Err(m),
                )
                &&& outcome == Err::<Encoded, Failure>(Failure::Tokenizer(m))
            } {
            let (head, bodies, m) = choose|head: Seq<u32>, bodies: Seq<Seq<u32>>, m: Seq<char>|
                {
                    &&& #[trigger] answered(enc, q, options, head, bodies)
                    &&& bodies.len() < options.len()
                    &&& #[trigger] encodes(
                        enc.tok,
                        option_text(options[bodies.len() as int].1, enc.sp.mask_token@),
                        Err(m),
                    )
                    &&& outcome == Err::<Encoded, Failure>(Failure::Tokenizer(m))
                };
            let i = bodies.len() as int;
            assert(encodes(enc.tok, option_text(options[i].1, enc.sp.mask_token@), Err(m)));
        }
    }
}

// ----------------------------------------------------------------------- what callers are given

/// A caller is given the tokens of the state, the sequence of the question and the batch of the items that
/// the laws above speak of.
pub proof fn law_given_sequences(
    enc: &Encoder,
    text: &str,
    state: Result<Vec<u32>, Error>,
    ids: &[u32],
    id: &str,
    q: &Question,
    item: Result<Item, Error>,
    items: &Vec<Item>,
    batch: Batch,
    raw: &str,
    scrubbed_text: String,
)
    requires
        call_ensures(Encoder::encode_state, (enc, text), state),
        call_ensures(Encoder::build, (enc, ids, id, q), item),
        call_ensures(Encoder::collate, (enc, items), batch),
        call_ensures(Encoder::scrub, (enc, raw), scrubbed_text),
    ensures
        state matches Ok(tokens) ==> settles(
            enc.tok,
            enc.sp.mask_token@,
            enc.max_len as nat,
            text@,
            first_budget(enc.max_len as nat),
            Ok(tokens@),
        ),
        state matches Err(e) ==> (e@ matches Failure::Tokenizer(m) && settles(
            enc.tok,
            enc.sp.mask_token@,
            enc.max_len as nat,
            text@,
            first_budget(enc.max_len as nat),
            Err(m),
        )),
        builds(*enc, ids@, id@, q@, item_outcome(item)),
        is_batch_of(batch, items@, enc.sp.pad_id),
        scrubbed_text@ == scrubbed(raw@, enc.sp.mask_token@),
{
}

} // verus!
