//! Which temperature the raw marker logits of a question are softened by.

use vstd::prelude::*;
use vstd::string::*;

use crate::config::{AgentConfig, ONE};
use crate::error::concat3;
use crate::float::{finite, law_order, law_what_is_a_number, less, Float};
use crate::question::{kind_index, kind_name, QType};
use crate::text::{join, joined, same_text, texts};

verus! {

/// A fitted temperature below 1 sharpens the logits instead of softening them.
///
/// The shipped `choice:11+` bucket of the English checkpoint is 0.1006, which multiplies the
/// logits roughly tenfold: a 0.24 top probability would be published as 0.99, so a caller gating
/// on confidence is told a coin flip is a certainty. No honest calibration needs to sharpen that
/// hard, so temperatures are confined to a range that cannot manufacture confidence. These are the
/// bits of 0.5.
pub const TEMP_MIN: u32 = 0x3f00_0000;

/// Upper end of the usable temperature range: the bits of 5. See [`TEMP_MIN`].
pub const TEMP_MAX: u32 = 0x40a0_0000;

/// `t` confined to [`TEMP_MIN`] and [`TEMP_MAX`], or 1 when it is not a usable number.
pub open spec fn usable(t: Float) -> Float {
    if !finite(t) {
        Float { bits: ONE }
    } else if less(t, Float { bits: TEMP_MIN }) {
        Float { bits: TEMP_MIN }
    } else if less(Float { bits: TEMP_MAX }, t) {
        Float { bits: TEMP_MAX }
    } else {
        t
    }
}

/// `t` confined to [`TEMP_MIN`] and [`TEMP_MAX`], falling back to 1 when it is not a usable number.
pub fn clamp_temperature(t: Float) -> (r: Float)
    ensures
        r == usable(t),
{
    if !t.is_finite() {
        Float { bits: ONE }
    } else if t.less_than(Float { bits: TEMP_MIN }) {
        Float { bits: TEMP_MIN }
    } else if (Float { bits: TEMP_MAX }).less_than(t) {
        Float { bits: TEMP_MAX }
    } else {
        t
    }
}

/// The option-count part of a bucket.
pub open spec fn bucket_size(k: nat) -> Seq<char> {
    if k <= 2 {
        "2"@
    } else if k <= 5 {
        "3-5"@
    } else if k <= 10 {
        "6-10"@
    } else {
        "11+"@
    }
}

/// The calibration bucket a question falls into: `"<type>:<option-count>"`.
pub open spec fn bucket_of(kind: QType, k: nat) -> Seq<char> {
    kind_name(kind) + ":"@ + bucket_size(k)
}

/// The calibration bucket a question falls into: `"<type>:<option-count>"`.
pub fn temp_bucket(kind: QType, k: usize) -> (r: String)
    ensures
        r@ == bucket_of(kind, k as nat),
{
    let size = if k <= 2 {
        "2"
    } else if k <= 5 {
        "3-5"
    } else if k <= 10 {
        "6-10"
    } else {
        "11+"
    };
    concat3(kind.name(), ":", size)
}

/// The temperature under a bucket's name, if one is given; the last one where there are several.
pub open spec fn temperature_in(buckets: Seq<(String, Float)>, bucket: Seq<char>) -> Option<Float>
    decreases buckets.len(),
{
    if buckets.len() == 0 {
        None
    } else if buckets.last().0@ == bucket {
        Some(buckets.last().1)
    } else {
        temperature_in(buckets.drop_last(), bucket)
    }
}

/// The temperature for questions of a kind with `k` options: that of their bucket, or else that of
/// their type, or else 1, and always a usable one.
pub open spec fn temperature_of(config: AgentConfig, kind: QType, k: nat) -> Float {
    match temperature_in(config.temperature_by_options@, bucket_of(kind, k)) {
        Some(t) => usable(t),
        None => if kind_index(kind) < config.temperature@.len() {
            usable(config.temperature@[kind_index(kind) as int])
        } else {
            Float { bits: ONE }
        },
    }
}

/// The names of the first `n` buckets whose temperature is not usable as it is.
pub open spec fn clamped_buckets(buckets: Seq<(String, Float)>) -> Seq<Seq<char>>
    decreases buckets.len(),
{
    if buckets.len() == 0 {
        Seq::empty()
    } else {
        let before = clamped_buckets(buckets.drop_last());
        if usable(buckets.last().1) != buckets.last().1 {
            before.push(buckets.last().0@)
        } else {
            before
        }
    }
}

/// The type a temperature is for.
pub open spec fn kind_at(i: int) -> QType {
    if i == 0 {
        QType::Choice
    } else if i == 1 {
        QType::Score
    } else {
        QType::Noul
    }
}

/// The names of the types among the first `n` whose temperature is not usable as it is.
pub open spec fn clamped_types(temperature: Seq<Float>, n: int) -> Seq<Seq<char>>
    decreases n,
{
    if n <= 0 {
        Seq::empty()
    } else {
        let before = clamped_types(temperature, n - 1);
        if n <= temperature.len() && usable(temperature[n - 1]) != temperature[n - 1] {
            before.push(kind_name(kind_at(n - 1)))
        } else {
            before
        }
    }
}

/// What a checkpoint's shipped temperatures come to once they are confined to the usable range.
#[derive(Debug)]
pub struct Calibration {
    /// The temperature of each type.
    pub by_type: Vec<Float>,
    /// The temperature of each bucket that has one of its own.
    pub by_bucket: Vec<(String, Float)>,
    /// The types and buckets whose shipped temperature had to be clamped.
    pub clamped: Vec<String>,
}

impl Calibration {
    /// The temperature for questions of a kind with `k` options.
    pub open spec fn scale(&self, kind: QType, k: nat) -> Float {
        match temperature_in(self.by_bucket@, bucket_of(kind, k)) {
            Some(t) => t,
            None => if kind_index(kind) < self.by_type@.len() {
                self.by_type@[kind_index(kind) as int]
            } else {
                Float { bits: ONE }
            },
        }
    }

    /// Confine the temperatures of a checkpoint, and note which had to be.
    pub fn from_config(config: &AgentConfig) -> (r: Self)
        ensures
            forall|kind: QType, k: nat| #[trigger]
                r.scale(kind, k) == temperature_of(*config, kind, k),
            texts(r.clamped@) == clamped_types(config.temperature@, 3) + clamped_buckets(
                config.temperature_by_options@,
            ),
    {
        let mut clamped: Vec<String> = Vec::new();
        let mut by_type: Vec<Float> = Vec::new();
        assert(texts(clamped@) =~= clamped_types(config.temperature@, 0));
        for i in 0..3usize
            invariant
                texts(clamped@) == clamped_types(config.temperature@, i as int),
                by_type@.len() == if i < config.temperature@.len() {
                    i as nat
                } else {
                    config.temperature@.len()
                },
                forall|j: int|
                    0 <= j < by_type@.len() ==> #[trigger] by_type@[j] == usable(
                        config.temperature@[j],
                    ),
        {
            if i < config.temperature.len() {
                let t = config.temperature[i];
                let u = clamp_temperature(t);
                by_type.push(u);
                if u != t {
                    let kind = if i == 0 {
                        QType::Choice
                    } else if i == 1 {
                        QType::Score
                    } else {
                        QType::Noul
                    };
                    let ghost before = texts(clamped@);
                    clamped.push(kind.name().to_owned());
                    assert(texts(clamped@) =~= before.push(kind_name(kind)));
                }
            }
        }
        let ghost types = texts(clamped@);
        let ghost all = config.temperature_by_options@;
        let mut by_bucket: Vec<(String, Float)> = Vec::new();
        assert(types + clamped_buckets(all.take(0)) =~= types);
        for i in 0..config.temperature_by_options.len()
            invariant
                all == config.temperature_by_options@,
                texts(clamped@) == types + clamped_buckets(all.take(i as int)),
                by_bucket@.len() == i,
                forall|j: int|
                    0 <= j < i ==> (#[trigger] by_bucket@[j]).0@ == all[j].0@ && by_bucket@[j].1
                        == usable(all[j].1),
        {
            assert(all.take(i + 1).drop_last() =~= all.take(i as int));
            let t = config.temperature_by_options[i].1;
            let u = clamp_temperature(t);
            by_bucket.push((config.temperature_by_options[i].0.clone(), u));
            if u != t {
                let ghost before = texts(clamped@);
                clamped.push(config.temperature_by_options[i].0.clone());
                assert(texts(clamped@) =~= before.push(all[i as int].0@));
                assert(before.push(all[i as int].0@) =~= types + clamped_buckets(
                    all.take(i as int),
                ).push(all[i as int].0@));
            }
        }
        assert(all.take(all.len() as int) =~= all);
        let r = Calibration { by_type, by_bucket, clamped };
        proof {
            assert forall|kind: QType, k: nat| #[trigger] r.scale(kind, k) == temperature_of(
                *config,
                kind,
                k,
            ) by {
                lemma_usable_buckets(all, r.by_bucket@, bucket_of(kind, k));
            }
        }
        r
    }

    /// What to tell about temperatures that had to be clamped; `label` names the checkpoint.
    pub fn warning(&self, label: &str) -> (r: Option<String>)
        ensures
            match r {
                None => self.clamped@.len() == 0,
                Some(m) => self.clamped@.len() > 0 && m@ == "[laya] "@ + label@
                    + ": this checkpoint ships temperatures outside [0.5, 5] which would distort confidence; clamping "@
                    + joined(texts(self.clamped@), ", "@)
                    + ". Treat confidence from the affected buckets as uncalibrated."@,
            },
    {
        if self.clamped.len() == 0 {
            return None;
        }
        let mut message = concat3(
            "[laya] ",
            label,
            ": this checkpoint ships temperatures outside [0.5, 5] which would distort confidence; clamping ",
        );
        message.append(join(&self.clamped, ", ").as_str());
        message.append(". Treat confidence from the affected buckets as uncalibrated.");
        Some(message)
    }

    /// The temperature for questions of a kind with `k` options.
    pub fn temperature(&self, kind: QType, k: usize) -> (r: Float)
        ensures
            r == self.scale(kind, k as nat),
    {
        let bucket = temp_bucket(kind, k);
        let mut i: usize = self.by_bucket.len();
        let ghost all = self.by_bucket@;
        assert(all.take(all.len() as int) =~= all);
        while i > 0
            invariant
                i <= all.len(),
                all == self.by_bucket@,
                bucket@ == bucket_of(kind, k as nat),
                temperature_in(all, bucket@) == temperature_in(all.take(i as int), bucket@),
            decreases i,
        {
            i = i - 1;
            assert(all.take(i + 1).drop_last() =~= all.take(i as int));
            if same_text(self.by_bucket[i].0.as_str(), bucket.as_str()) {
                return self.by_bucket[i].1;
            }
        }
        let at: usize = kind.index();
        if at < self.by_type.len() {
            self.by_type[at]
        } else {
            Float { bits: ONE }
        }
    }
}

proof fn lemma_usable_buckets(
    shipped: Seq<(String, Float)>,
    kept: Seq<(String, Float)>,
    bucket: Seq<char>,
)
    requires
        shipped.len() == kept.len(),
        forall|j: int|
            0 <= j < kept.len() ==> (#[trigger] kept[j]).0@ == shipped[j].0@ && kept[j].1 == usable(
                shipped[j].1,
            ),
    ensures
        temperature_in(kept, bucket) == match temperature_in(shipped, bucket) {
            Some(t) => Some(usable(t)),
            None => None,
        },
    decreases shipped.len(),
{
    if shipped.len() > 0 {
        let last = kept.len() - 1;
        assert(kept[last] == kept.last());
        lemma_usable_buckets(shipped.drop_last(), kept.drop_last(), bucket);
    }
}

/// A usable temperature is within the range, whatever was shipped, and confining it again changes
/// nothing.
pub proof fn law_usable_temperatures_stay_in_range(t: Float)
    ensures
        finite(usable(t)),
        !less(usable(t), Float { bits: TEMP_MIN }),
        !less(Float { bits: TEMP_MAX }, usable(t)),
        usable(usable(t)) == usable(t),
{
}

/// Every temperature a prediction is softened by is within the range.
pub proof fn law_every_temperature_is_in_range(config: AgentConfig, kind: QType, k: nat)
    ensures
        !less(temperature_of(config, kind, k), Float { bits: TEMP_MIN }),
        !less(Float { bits: TEMP_MAX }, temperature_of(config, kind, k)),
{
}

/// A temperature from a half to five is used as it is. A finite one below is raised to a half, and one
/// above is lowered to five; one that is no number, or infinite, counts as one.
pub proof fn law_clamping(t: Float)
    ensures
        0x3f00_0000 <= t.bits <= 0x40a0_0000 ==> usable(t) == t,
        t.bits < 0x3f00_0000 ==> usable(t).bits == 0x3f00_0000,
        0x8000_0000 <= t.bits < 0xff80_0000 ==> usable(t).bits == 0x3f00_0000,
        0x40a0_0000 < t.bits < 0x7f80_0000 ==> usable(t).bits == 0x40a0_0000,
        0x7f80_0000 <= t.bits < 0x8000_0000 || t.bits >= 0xff80_0000 ==> usable(t).bits
            == 0x3f80_0000,
{
    law_what_is_a_number(t);
    law_what_is_a_number(Float { bits: 0x3f00_0000 });
    law_what_is_a_number(Float { bits: 0x40a0_0000 });
    law_order(t, Float { bits: 0x3f00_0000 });
    law_order(Float { bits: 0x40a0_0000 }, t);
}

/// The bucket of a question is its kind and the range that the number of its options lies in: up to
/// two, three to five, six to ten, or more.
pub proof fn law_buckets(kind: QType, k: nat)
    ensures
        k <= 2 ==> bucket_of(kind, k) == kind_name(kind) + ":2"@,
        3 <= k <= 5 ==> bucket_of(kind, k) == kind_name(kind) + ":3-5"@,
        6 <= k <= 10 ==> bucket_of(kind, k) == kind_name(kind) + ":6-10"@,
        k >= 11 ==> bucket_of(kind, k) == kind_name(kind) + ":11+"@,
{
    reveal_strlit(":");
    reveal_strlit("2");
    reveal_strlit("3-5");
    reveal_strlit("6-10");
    reveal_strlit("11+");
    reveal_strlit(":2");
    reveal_strlit(":3-5");
    reveal_strlit(":6-10");
    reveal_strlit(":11+");
    assert(":"@ + "2"@ =~= ":2"@);
    assert(":"@ + "3-5"@ =~= ":3-5"@);
    assert(":"@ + "6-10"@ =~= ":6-10"@);
    assert(":"@ + "11+"@ =~= ":11+"@);
    let n = kind_name(kind);
    assert(n + ":"@ + bucket_size(k) =~= n + (":"@ + bucket_size(k)));
}

/// A bucket that has a temperature of its own is given that one, brought into range; otherwise the kind
/// is given its own, brought into range; and where there is neither, one.
pub proof fn law_finer_temperatures_come_first(config: AgentConfig, kind: QType, k: nat, i: int)
    requires
        0 <= i <= config.temperature_by_options@.len(),
        forall|j: int|
            i <= j < config.temperature_by_options@.len() ==> (
            #[trigger] config.temperature_by_options@[j]).0@ != bucket_of(kind, k),
    ensures
        i > 0 && config.temperature_by_options@[i - 1].0@ == bucket_of(kind, k) ==> temperature_of(
            config,
            kind,
            k,
        ) == usable(config.temperature_by_options@[i - 1].1),
        i == 0 ==> ({
            let own: int = match kind {
                QType::Choice => 0,
                QType::Score => 1,
                QType::Noul => 2,
            };
            if own < config.temperature@.len() {
                temperature_of(config, kind, k) == usable(config.temperature@[own])
            } else {
                temperature_of(config, kind, k).bits == 0x3f80_0000
            }
        }),
{
    lemma_temperature_in(config.temperature_by_options@, bucket_of(kind, k), i);
}

proof fn lemma_temperature_in(buckets: Seq<(String, Float)>, bucket: Seq<char>, i: int)
    requires
        0 <= i <= buckets.len(),
        forall|j: int| i <= j < buckets.len() ==> (#[trigger] buckets[j]).0@ != bucket,
    ensures
        i > 0 && buckets[i - 1].0@ == bucket ==> temperature_in(buckets, bucket) == Some(
            buckets[i - 1].1,
        ),
        i == 0 ==> temperature_in(buckets, bucket) is None,
    decreases buckets.len(),
{
    if i < buckets.len() {
        let before = buckets.drop_last();
        assert(buckets[buckets.len() - 1] == buckets.last());
        assert forall|j: int| i <= j < before.len() implies (#[trigger] before[j]).0@ != bucket by {
            assert(before[j] == buckets[j]);
        }
        lemma_temperature_in(before, bucket, i);
    }
}

/// Exactly the kinds and buckets whose temperature had to be changed are named as clamped.
pub proof fn law_clamped_are_named(config: AgentConfig, name: Seq<char>)
    ensures
        clamped_buckets(config.temperature_by_options@).contains(name) <==> exists|i: int|
            0 <= i < config.temperature_by_options@.len() && (
            #[trigger] config.temperature_by_options@[i]).0@ == name && usable(
                config.temperature_by_options@[i].1,
            ) != config.temperature_by_options@[i].1,
        clamped_types(config.temperature@, 3).contains("choice"@) <==> config.temperature@.len() > 0
            && usable(config.temperature@[0]) != config.temperature@[0],
        clamped_types(config.temperature@, 3).contains("score"@) <==> config.temperature@.len() > 1
            && usable(config.temperature@[1]) != config.temperature@[1],
        clamped_types(config.temperature@, 3).contains("noul"@) <==> config.temperature@.len() > 2
            && usable(config.temperature@[2]) != config.temperature@[2],
{
    lemma_clamped_buckets(config.temperature_by_options@, name);
    let t = config.temperature@;
    reveal_with_fuel(clamped_types, 4);
    reveal_strlit("choice");
    reveal_strlit("score");
    reveal_strlit("noul");
    assert("choice"@.len() == 6 && "score"@.len() == 5 && "noul"@.len() == 4);
    let a = clamped_types(t, 1);
    let b = clamped_types(t, 2);
    let c = clamped_types(t, 3);
    lemma_pushed(clamped_types(t, 0), "choice"@);
    lemma_pushed(a, "score"@);
    lemma_pushed(b, "noul"@);
}

proof fn lemma_pushed(s: Seq<Seq<char>>, x: Seq<char>)
    ensures
        forall|y: Seq<char>| #[trigger] s.push(x).contains(y) <==> s.contains(y) || y == x,
{
    assert forall|y: Seq<char>| #[trigger] s.push(x).contains(y) <==> s.contains(y) || y == x by {
        if s.contains(y) {
            let k = choose|k: int| 0 <= k < s.len() && s[k] == y;
            assert(s.push(x)[k] == y);
        }
        assert(s.push(x)[s.len() as int] == x);
        if s.push(x).contains(y) {
            let k = choose|k: int| 0 <= k < s.push(x).len() && s.push(x)[k] == y;
            if k < s.len() {
                assert(s[k] == y);
            }
        }
    }
}

proof fn lemma_clamped_buckets(buckets: Seq<(String, Float)>, name: Seq<char>)
    ensures
        clamped_buckets(buckets).contains(name) <==> exists|i: int|
            0 <= i < buckets.len() && (#[trigger] buckets[i]).0@ == name && usable(buckets[i].1)
                != buckets[i].1,
    decreases buckets.len(),
{
    if buckets.len() > 0 {
        let before = buckets.drop_last();
        let last = buckets.len() - 1;
        assert(buckets[last] == buckets.last());
        lemma_clamped_buckets(before, name);
        lemma_pushed(clamped_buckets(before), buckets.last().0@);
        if clamped_buckets(before).contains(name) {
            let i = choose|i: int|
                0 <= i < before.len() && (#[trigger] before[i]).0@ == name && usable(before[i].1)
                    != before[i].1;
            assert(buckets[i] == before[i]);
        }
        if exists|i: int|
            0 <= i < buckets.len() && (#[trigger] buckets[i]).0@ == name && usable(buckets[i].1)
                != buckets[i].1 {
            let i = choose|i: int|
                0 <= i < buckets.len() && (#[trigger] buckets[i]).0@ == name && usable(buckets[i].1)
                    != buckets[i].1;
            if i < last {
                assert(before[i] == buckets[i]);
            }
        }
    }
}

/// A caller is given a temperature in range: the one that is fit to be used of the bucket, of the kind, or
/// one.
pub proof fn law_given_temperatures(t: Float, r: Float, kind: QType, k: usize, bucket: String)
    requires
        call_ensures(clamp_temperature, (t,), r),
        call_ensures(temp_bucket, (kind, k), bucket),
    ensures
        0x3f00_0000 <= r.bits <= 0x40a0_0000,
        0x3f00_0000 <= t.bits <= 0x40a0_0000 ==> r == t,
        bucket@ == bucket_of(kind, k as nat),
{
    law_clamping(t);
}

} // verus!
