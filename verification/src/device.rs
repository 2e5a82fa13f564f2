//! Choosing where to run.
//!
//! A device is named `auto`, `cpu`, `cuda`, `cuda:N`, `metal` or `metal:N`. The library, the
//! `--device` of a command line and the `LAYA_DEVICE` environment variable all take the same
//! spelling.

use std::str::FromStr;

use vstd::prelude::*;
use vstd::string::*;

use crate::error::{concat2, concat3, Error, Failure};
use crate::text::{
    after_char, all_digits, before_char, chars_of, decimal, decimal_text, find_char, is_digit,
    is_white, law_decimals_are_read_back, lemma_decimal, lemma_find_char, lemma_find_char_unique, parse_u64, parsed_nat,
    position, same_text, string_of, trim, trim_back, trim_front, trimmed, unsigned_part,
};
use crate::unicode::{
    ascii_lower, ascii_lowercase, is_ascii_char, is_ascii_text, is_plain, lemma_lower_form,
    lemma_plain_is_plain, lemma_trimmed_is_ascii, lowercase, quote, quoted, to_lowercase,
};

verus! {

/// The environment variable that picks the device when the caller does not.
pub const DEVICE_ENV: &'static str = "LAYA_DEVICE";

/// Where the model should run.
#[derive(Clone, Copy, Debug, PartialEq, Eq, Structural)]
pub enum DeviceChoice {
    /// The best accelerator this build can reach, else the CPU.
    Auto,
    Cpu,
    /// An NVIDIA GPU, by index. Needs the `cuda` feature.
    Cuda(usize),
    /// An Apple GPU, by index. Needs the `metal` feature.
    Metal(usize),
}

/// The device to open for a choice.
#[derive(Clone, Copy, Debug, PartialEq, Eq, Structural)]
pub enum Opening {
    Cpu,
    Cuda(usize),
    Metal(usize),
}

/// How a choice is spelled.
pub open spec fn device_name(d: DeviceChoice) -> Seq<char> {
    match d {
        DeviceChoice::Auto => "auto"@,
        DeviceChoice::Cpu => "cpu"@,
        DeviceChoice::Cuda(n) => "cuda:"@ + decimal(n as nat),
        DeviceChoice::Metal(n) => "metal:"@ + decimal(n as nat),
    }
}

/// The complaint about an index that is no number.
pub open spec fn bad_index(given: Seq<char>) -> Failure {
    Failure::Device(quoted(given) + ": the device index must be a number"@)
}

/// The complaint about a name no device has.
pub open spec fn unknown_device(given: Seq<char>) -> Failure {
    Failure::Device(
        "unknown device "@ + quoted(given)
            + "; choose auto, cpu, cuda, cuda:N, metal or metal:N"@,
    )
}

/// The choice that a kind and an index name; `given` is what was typed.
pub open spec fn choice_of(
    kind: Seq<char>,
    index: Option<nat>,
    given: Seq<char>,
) -> Result<DeviceChoice, Failure> {
    let at = match index {
        Some(n) => n as usize,
        None => 0,
    };
    if kind == "auto"@ && index is None {
        Ok(DeviceChoice::Auto)
    } else if kind == "cpu"@ && index is None {
        Ok(DeviceChoice::Cpu)
    } else if kind == "cuda"@ || kind == "gpu"@ {
        Ok(DeviceChoice::Cuda(at))
    } else if kind == "metal"@ || kind == "mps"@ {
        Ok(DeviceChoice::Metal(at))
    } else {
        Err(unknown_device(given))
    }
}

/// The choice that a spelling in lower case, without surrounding blanks, stands for; `given` is
/// what was typed.
pub open spec fn choice_spelled(plain: Seq<char>, given: Seq<char>) -> Result<
    DeviceChoice,
    Failure,
> {
    if find_char(plain, ':') < plain.len() {
        match parsed_nat(after_char(plain, ':'), usize::MAX as nat) {
            Some(n) => choice_of(before_char(plain, ':'), Some(n), given),
            None => Err(bad_index(given)),
        }
    } else {
        choice_of(plain, None, given)
    }
}

/// A choice, or what went wrong with it.
pub open spec fn choice_outcome(r: Result<DeviceChoice, Error>) -> Result<DeviceChoice, Failure> {
    match r {
        Ok(d) => Ok(d),
        Err(e) => Err(e@),
    }
}

/// The setting of the environment variable as a choice: unset or blank, it leaves the choice open.
pub open spec fn choice_set(value: Option<Seq<char>>) -> Result<DeviceChoice, Failure> {
    match value {
        None => Ok(DeviceChoice::Auto),
        Some(v) => if trimmed(v).len() == 0 {
            Ok(DeviceChoice::Auto)
        } else {
            match choice_spelled(lowercase(trimmed(v)), v) {
                Err(Failure::Device(m)) => Err(Failure::Device(DEVICE_ENV@ + ": "@ + m)),
                other => other,
            }
        },
    }
}

/// The complaint about an accelerator that was not compiled in.
pub open spec fn feature_off(d: DeviceChoice, feature: Seq<char>) -> Failure {
    Failure::Device(
        device_name(d) + " was asked for, but this build has the `"@ + feature
            + "` feature off; rebuild with `--features "@ + feature + "`"@,
    )
}

/// The complaint about an accelerator that could not be opened.
pub open spec fn did_not_open(d: DeviceChoice, message: Seq<char>) -> Failure {
    Failure::Device("cannot open "@ + device_name(d) + ": "@ + message)
}

/// The device to open for a choice, by which accelerators are there. An accelerator that was asked
/// for and is not there is an error, never a run on the CPU; an open choice takes the first that is
/// there.
pub open spec fn opening_for(d: DeviceChoice, cuda: bool, metal: bool) -> Result<
    Opening,
    Failure,
> {
    match d {
        DeviceChoice::Cpu => Ok(Opening::Cpu),
        DeviceChoice::Cuda(n) => if cuda {
            Ok(Opening::Cuda(n))
        } else {
            Err(feature_off(d, "cuda"@))
        },
        DeviceChoice::Metal(n) => if metal {
            Ok(Opening::Metal(n))
        } else {
            Err(feature_off(d, "metal"@))
        },
        DeviceChoice::Auto => Ok(
            if cuda {
                Opening::Cuda(0)
            } else if metal {
                Opening::Metal(0)
            } else {
                Opening::Cpu
            },
        ),
    }
}

fn choose_kind(kind: &str, index: Option<usize>, given: &str) -> (r: Result<DeviceChoice, Error>)
    ensures
        choice_outcome(r) == choice_of(
            kind@,
            match index {
                Some(n) => Some(n as nat),
                None => None,
            },
            given@,
        ),
{
    let at: usize = match index {
        Some(n) => n,
        None => 0,
    };
    if same_text(kind, "auto") && index.is_none() {
        Ok(DeviceChoice::Auto)
    } else if same_text(kind, "cpu") && index.is_none() {
        Ok(DeviceChoice::Cpu)
    } else if same_text(kind, "cuda") || same_text(kind, "gpu") {
        Ok(DeviceChoice::Cuda(at))
    } else if same_text(kind, "metal") || same_text(kind, "mps") {
        Ok(DeviceChoice::Metal(at))
    } else {
        Err(
            Error::Device(
                concat3(
                    "unknown device ",
                    quote(given).as_str(),
                    "; choose auto, cpu, cuda, cuda:N, metal or metal:N",
                ),
            ),
        )
    }
}

impl DeviceChoice {
    /// Resolve a spelling in lower case, without surrounding blanks; `given` names it in errors.
    pub fn from_plain(plain: &str, given: &str) -> (r: Result<Self, Error>)
        ensures
            choice_outcome(r) == choice_spelled(plain@, given@),
    {
        let chars = chars_of(plain);
        let at: usize = position(chars.as_slice(), ':');
        let n: usize = chars.len();
        if at == n {
            return choose_kind(plain, None, given);
        }
        proof {
            lemma_find_char(plain@, ':');
        }
        let mut kind: Vec<char> = Vec::new();
        for i in 0..at
            invariant
                at <= chars@.len(),
                kind@ == chars@.take(i as int),
        {
            kind.push(chars[i]);
            assert(chars@.take(i + 1) =~= chars@.take(i as int).push(chars@[i as int]));
        }
        let mut index: Vec<char> = Vec::new();
        for i in at + 1..n
            invariant
                at < n == chars@.len(),
                index@ == chars@.subrange(at + 1, i as int),
        {
            index.push(chars[i]);
            assert(chars@.subrange(at + 1, i + 1) =~= chars@.subrange(at + 1, i as int).push(
                chars@[i as int],
            ));
        }
        assert(chars@.subrange(at + 1, n as int) =~= plain@.skip(at + 1));
        let kind = string_of(kind.as_slice());
        let index = string_of(index.as_slice());
        match parse_u64(index.as_str(), usize::MAX as u64) {
            Some(k) => choose_kind(kind.as_str(), Some(k as usize), given),
            None => Err(
                Error::Device(
                    concat2(quote(given).as_str(), ": the device index must be a number"),
                ),
            ),
        }
    }

    /// Resolve a spelling, whatever its case and the blanks around it.
    pub fn parse(s: &str) -> (r: Result<Self, Error>)
        ensures
            choice_outcome(r) == choice_spelled(lowercase(trimmed(s@)), s@),
            is_ascii_text(s@) ==> choice_outcome(r) == choice_spelled(
                ascii_lowercase(trimmed(s@)),
                s@,
            ),
            forall|d: DeviceChoice| s@ == #[trigger] device_name(d) ==> r == Ok::<Self, Error>(d),
    {
        let bare = trim(s);
        let lower = to_lowercase(bare.as_str());
        proof {
            assert forall|d: DeviceChoice| s@ == #[trigger] device_name(d) implies choice_spelled(
                lower@,
                s@,
            ) == Ok::<DeviceChoice, Failure>(d) by {
                law_parsing_undoes_printing(d);
            }
            if is_ascii_text(s@) {
                lemma_trimmed_is_ascii(s@);
            }
        }
        Self::from_plain(lower.as_str(), s)
    }

    /// How this choice is spelled.
    pub fn to_string(&self) -> (r: String)
        ensures
            r@ == device_name(*self),
    {
        match self {
            DeviceChoice::Auto => "auto".to_owned(),
            DeviceChoice::Cpu => "cpu".to_owned(),
            DeviceChoice::Cuda(n) => concat2("cuda:", decimal_text(*n as u64).as_str()),
            DeviceChoice::Metal(n) => concat2("metal:", decimal_text(*n as u64).as_str()),
        }
    }

    /// The choice that the value of the environment variable names, or
    /// [`Auto`](DeviceChoice::Auto) when it is unset or blank.
    pub fn from_setting(value: Option<&str>) -> (r: Result<Self, Error>)
        ensures
            choice_outcome(r) == choice_set(
                match value {
                    Some(v) => Some(v@),
                    None => None,
                },
            ),
    {
        match value {
            None => Ok(DeviceChoice::Auto),
            Some(v) => {
                if trim(v).as_str().is_empty() {
                    return Ok(DeviceChoice::Auto);
                }
                match Self::parse(v) {
                    Err(Error::Device(m)) => Err(
                        Error::Device(concat3(DEVICE_ENV, ": ", m.as_str())),
                    ),
                    other => other,
                }
            },
        }
    }

    /// The error for an accelerator that was asked for in a build without its feature: never a
    /// silent run on the CPU.
    pub fn without_feature(self, feature: &str) -> (r: Error)
        ensures
            r@ == feature_off(self, feature@),
    {
        let mut message = concat3(
            self.to_string().as_str(),
            " was asked for, but this build has the `",
            feature,
        );
        message.append("` feature off; rebuild with `--features ");
        message.append(feature);
        message.append("`");
        Error::Device(message)
    }

    /// The error for an accelerator that could not be opened.
    pub fn not_opened(self, message: &str) -> (r: Error)
        ensures
            r@ == did_not_open(self, message@),
    {
        let mut m = concat3("cannot open ", self.to_string().as_str(), ": ");
        m.append(message);
        Error::Device(m)
    }

    /// The device to open, by whether each accelerator is there: compiled in, and for an open
    /// choice not found wanting yet.
    pub fn opening(self, cuda: bool, metal: bool) -> (r: Result<Opening, Error>)
        ensures
            match r {
                Ok(o) => opening_for(self, cuda, metal) == Ok::<Opening, Failure>(o),
                Err(e) => opening_for(self, cuda, metal) == Err::<Opening, Failure>(e@),
            },
    {
        match self {
            DeviceChoice::Cpu => Ok(Opening::Cpu),
            DeviceChoice::Cuda(n) => if cuda {
                Ok(Opening::Cuda(n))
            } else {
                Err(self.without_feature("cuda"))
            },
            DeviceChoice::Metal(n) => if metal {
                Ok(Opening::Metal(n))
            } else {
                Err(self.without_feature("metal"))
            },
            DeviceChoice::Auto => Ok(
                if cuda {
                    Opening::Cuda(0)
                } else if metal {
                    Opening::Metal(0)
                } else {
                    Opening::Cpu
                },
            ),
        }
    }
}

impl Default for DeviceChoice {
    /// The best accelerator this build can reach.
    fn default() -> (r: Self)
        ensures
            r == DeviceChoice::Auto,
    {
        DeviceChoice::Auto
    }
}

impl FromStr for DeviceChoice {
    type Err = Error;

    /// [`parse`](DeviceChoice::parse), for `str::parse`.
    fn from_str(s: &str) -> (r: Result<Self, Error>)
        ensures
            choice_outcome(r) == choice_spelled(lowercase(trimmed(s@)), s@),
            is_ascii_text(s@) ==> choice_outcome(r) == choice_spelled(
                ascii_lowercase(trimmed(s@)),
                s@,
            ),
            forall|d: DeviceChoice| s@ == #[trigger] device_name(d) ==> r == Ok::<Self, Error>(d),
    {
        Self::parse(s)
    }
}

/// A spelling is in lower case and has no blanks around it.
proof fn lemma_name_is_plain(d: DeviceChoice)
    ensures
        is_ascii_text(device_name(d)),
        trimmed(device_name(d)) == device_name(d),
        ascii_lowercase(device_name(d)) == device_name(d),
{
    reveal_strlit("auto");
    reveal_strlit("cpu");
    reveal_strlit("cuda:");
    reveal_strlit("metal:");
    let s = device_name(d);
    let n = match d {
        DeviceChoice::Cuda(n) => n as nat,
        DeviceChoice::Metal(n) => n as nat,
        _ => 0,
    };
    lemma_decimal(n);
    let head = match d {
        DeviceChoice::Cuda(_) => 5int,
        DeviceChoice::Metal(_) => 6int,
        _ => s.len() as int,
    };
    assert forall|i: int| 0 <= i < s.len() implies (#[trigger] s[i] as u32) < 128 && ascii_lower(
        s[i],
    ) == s[i] && !is_white(s[i]) by {
        if i >= head {
            assert(s[i] == decimal(n)[i - head]);
            assert(is_digit(decimal(n)[i - head]));
        }
    }
    assert(s.len() > 0);
    assert(trim_front(s) == s);
    assert(trim_back(s) == s);
    assert(ascii_lowercase(s) =~= s);
}

/// A spelling stands for the choice it spells.
proof fn lemma_name_is_spelled(d: DeviceChoice, given: Seq<char>)
    ensures
        choice_spelled(device_name(d), given) == Ok::<DeviceChoice, Failure>(d),
{
    reveal_strlit("auto");
    reveal_strlit("cpu");
    reveal_strlit("cuda");
    reveal_strlit("gpu");
    reveal_strlit("metal");
    reveal_strlit("mps");
    reveal_strlit("cuda:");
    reveal_strlit("metal:");
    let s = device_name(d);
    match d {
        DeviceChoice::Auto => {
            lemma_find_char_unique(s, ':', 4);
        },
        DeviceChoice::Cpu => {
            lemma_find_char_unique(s, ':', 3);
            assert("auto"@.len() == 4);
        },
        DeviceChoice::Cuda(n) => {
            lemma_decimal(n as nat);
            lemma_find_char_unique(s, ':', 4);
            assert(s.skip(5) =~= decimal(n as nat));
            assert(s.take(4) =~= "cuda"@);
            assert(is_digit(decimal(n as nat)[0]));
            assert("auto"@[0] == 'a' && "cuda"@[0] == 'c');
            assert("cpu"@.len() == 3);
        },
        DeviceChoice::Metal(n) => {
            lemma_decimal(n as nat);
            lemma_find_char_unique(s, ':', 5);
            assert(s.skip(6) =~= decimal(n as nat));
            assert(s.take(5) =~= "metal"@);
            assert(is_digit(decimal(n as nat)[0]));
            assert("auto"@.len() == 4 && "cpu"@.len() == 3 && "cuda"@.len() == 4 && "gpu"@.len()
                == 3);
        },
    }
}

// ----------------------------------------------------------------------- laws

/// What stands for a device is ASCII in lower case, without blanks at its ends.
proof fn lemma_spelled_is_plain(plain: Seq<char>, given: Seq<char>)
    requires
        choice_spelled(plain, given) is Ok,
    ensures
        is_plain(plain, '_'),
{
    reveal_strlit("auto");
    reveal_strlit("cpu");
    reveal_strlit("cuda");
    reveal_strlit("gpu");
    reveal_strlit("metal");
    reveal_strlit("mps");
    lemma_find_char(plain, ':');
    let at = find_char(plain, ':') as int;
    if at < plain.len() {
        let kind = before_char(plain, ':');
        let index = after_char(plain, ':');
        let digits = unsigned_part(index, false);
        let sign = index.len() - digits.len();
        assert(digits.len() > 0 && all_digits(digits));
        assert(kind == "cuda"@ || kind == "gpu"@ || kind == "metal"@ || kind == "mps"@);
        assert forall|i: int| 0 <= i < kind.len() implies 'a' <= #[trigger] kind[i] && kind[i]
            <= 'z' by {}
        assert forall|i: int| 0 <= i < index.len() implies #[trigger] index[i] == '+' || is_digit(
            index[i],
        ) by {
            if i >= sign {
                assert(index[i] == digits[i - sign]);
                assert(is_digit(digits[i - sign]));
            }
        }
        assert forall|i: int| 0 <= i < plain.len() implies is_ascii_char(#[trigger] plain[i])
            && ascii_lower(plain[i]) == plain[i] && plain[i] != '_' && !is_white(plain[i]) by {
            if i < at {
                assert(plain[i] == kind[i]);
            } else if i > at {
                assert(plain[i] == index[i - at - 1]);
            }
        }
    }
}

/// The CPU always opens, an explicit accelerator opens as itself or not at all, and an open choice
/// always opens something that is there.
pub proof fn law_no_silent_run_on_the_cpu(d: DeviceChoice, cuda: bool, metal: bool)
    ensures
        d == DeviceChoice::Cpu ==> opening_for(d, cuda, metal) == Ok::<Opening, Failure>(
            Opening::Cpu,
        ),
        d == DeviceChoice::Auto ==> opening_for(d, cuda, metal) is Ok,
        opening_for(d, cuda, metal) == Ok::<Opening, Failure>(Opening::Cpu) ==> d
            == DeviceChoice::Cpu || (d == DeviceChoice::Auto && !cuda && !metal),
        opening_for(d, cuda, metal) matches Ok(Opening::Cuda(n)) ==> cuda && (d
            == DeviceChoice::Cuda(n) || (d == DeviceChoice::Auto && n == 0)),
        opening_for(d, cuda, metal) matches Ok(Opening::Metal(n)) ==> metal && (d
            == DeviceChoice::Metal(n) || (d == DeviceChoice::Auto && n == 0)),
{
}

/// Parsing undoes printing: the spelling of a choice stands for that choice.
pub proof fn law_parsing_undoes_printing(d: DeviceChoice)
    ensures
        choice_spelled(lowercase(trimmed(device_name(d))), device_name(d)) == Ok::<
            DeviceChoice,
            Failure,
        >(d),
{
    lemma_name_is_plain(d);
    lemma_name_is_spelled(d, device_name(d));
}

/// Case and blanks around it never matter to a spelling: blanks make no difference to any text, and
/// case makes none to an ASCII text. Whatever the text, where it stands for a device its lower case
/// without blanks stands for the same one. For an ASCII text, and for any text whose lower case
/// stays as it is, the one stands for a device exactly where the other does.
pub proof fn law_case_and_blanks_do_not_matter(s: Seq<char>, d: DeviceChoice)
    ensures
        lowercase(trimmed(trimmed(s))) == lowercase(trimmed(s)),
        ({
            let plain = lowercase(trimmed(s));
            let again = lowercase(trimmed(plain));
            &&& choice_spelled(plain, s) == Ok::<DeviceChoice, Failure>(d) ==> choice_spelled(
                again,
                plain,
            ) == Ok::<DeviceChoice, Failure>(d)
            &&& is_ascii_text(s) || again == plain ==> (choice_spelled(again, plain) == Ok::<
                DeviceChoice,
                Failure,
            >(d) <==> choice_spelled(plain, s) == Ok::<DeviceChoice, Failure>(d))
        }),
        is_ascii_text(s) ==> lowercase(trimmed(lowercase(s))) == lowercase(trimmed(s)),
{
    let plain = lowercase(trimmed(s));
    lemma_lower_form(s);
    if choice_spelled(plain, s) is Ok {
        lemma_spelled_is_plain(plain, s);
        lemma_plain_is_plain(plain, '_', '-');
    }
}

/// The spellings of a device: each kind by either of its names, alone for the first device of its kind
/// or with a colon and a number for that one; `auto` and `cpu` alone. Anything else is unknown, and what
/// stands behind a colon and is no number is a bad index.
pub proof fn law_spellings(kind: Seq<char>, n: usize, rest: Seq<char>, given: Seq<char>)
    requires
        !kind.contains(':'),
    ensures
        choice_spelled(kind, given) == if kind == "auto"@ {
            Ok::<DeviceChoice, Failure>(DeviceChoice::Auto)
        } else if kind == "cpu"@ {
            Ok(DeviceChoice::Cpu)
        } else if kind == "cuda"@ || kind == "gpu"@ {
            Ok(DeviceChoice::Cuda(0))
        } else if kind == "metal"@ || kind == "mps"@ {
            Ok(DeviceChoice::Metal(0))
        } else {
            Err(unknown_device(given))
        },
        choice_spelled(kind + seq![':'] + decimal(n as nat), given) == if kind == "cuda"@ || kind
            == "gpu"@ {
            Ok::<DeviceChoice, Failure>(DeviceChoice::Cuda(n))
        } else if kind == "metal"@ || kind == "mps"@ {
            Ok(DeviceChoice::Metal(n))
        } else {
            Err(unknown_device(given))
        },
        parsed_nat(rest, usize::MAX as nat) is None ==> choice_spelled(
            kind + seq![':'] + rest,
            given,
        ) == Err::<DeviceChoice, Failure>(bad_index(given)),
{
    reveal_strlit("auto");
    reveal_strlit("cpu");
    reveal_strlit("cuda");
    reveal_strlit("gpu");
    reveal_strlit("metal");
    reveal_strlit("mps");
    assert("auto"@.len() == 4 && "cpu"@.len() == 3 && "cuda"@.len() == 4 && "gpu"@.len() == 3);
    assert("auto"@[0] == 'a' && "cpu"@[0] == 'c' && "cuda"@[0] == 'c' && "gpu"@[0] == 'g');
    assert("metal"@.len() == 5 && "mps"@[0] == 'm');
    assert forall|j: int| 0 <= j < kind.len() implies kind[j] != ':' by {
        if kind[j] == ':' {
            assert(kind.contains(':'));
        }
    }
    lemma_find_char_unique(kind, ':', kind.len() as int);
    lemma_split(kind, decimal(n as nat));
    lemma_split(kind, rest);
    law_decimals_are_read_back(n as nat, usize::MAX as nat);
}

proof fn lemma_split(kind: Seq<char>, rest: Seq<char>)
    requires
        forall|j: int| 0 <= j < kind.len() ==> kind[j] != ':',
    ensures
        find_char(kind + seq![':'] + rest, ':') == kind.len(),
        before_char(kind + seq![':'] + rest, ':') == kind,
        after_char(kind + seq![':'] + rest, ':') == rest,
{
    let s = kind + seq![':'] + rest;
    lemma_find_char_unique(s, ':', kind.len() as int);
    assert(s.take(kind.len() as int) =~= kind);
    assert(s.skip(kind.len() as int + 1) =~= rest);
}

/// A device is printed as it is spelled.
pub proof fn law_printed_devices(n: usize)
    ensures
        device_name(DeviceChoice::Auto) == "auto"@,
        device_name(DeviceChoice::Cpu) == "cpu"@,
        device_name(DeviceChoice::Cuda(n)) == "cuda:"@ + decimal(n as nat),
        device_name(DeviceChoice::Metal(n)) == "metal:"@ + decimal(n as nat),
{
}

/// A setting that is missing or blank leaves the choice open. Any other is read like a name that the
/// caller gave, and a complaint about it names the variable.
pub proof fn law_settings_read_like_names(v: Seq<char>, m: Seq<char>)
    ensures
        choice_set(None) == Ok::<DeviceChoice, Failure>(DeviceChoice::Auto),
        trimmed(v).len() == 0 ==> choice_set(Some(v)) == Ok::<DeviceChoice, Failure>(
            DeviceChoice::Auto,
        ),
        trimmed(v).len() > 0 && choice_spelled(lowercase(trimmed(v)), v) is Ok ==> choice_set(Some(v))
            == choice_spelled(lowercase(trimmed(v)), v),
        trimmed(v).len() > 0 && choice_spelled(lowercase(trimmed(v)), v) == Err::<
            DeviceChoice,
            Failure,
        >(Failure::Device(m)) ==> choice_set(Some(v)) == Err::<DeviceChoice, Failure>(
            Failure::Device("LAYA_DEVICE: "@ + m),
        ),
{
    reveal_strlit("LAYA_DEVICE");
    reveal_strlit(": ");
    reveal_strlit("LAYA_DEVICE: ");
    assert("LAYA_DEVICE"@ + ": "@ =~= "LAYA_DEVICE: "@);
}

/// An accelerator that was asked for and that this build can reach is opened, by its index; one that it
/// cannot reach is an error. Left to itself the choice falls on the first NVIDIA GPU, else on the first
/// Apple GPU, else on the CPU.
pub proof fn law_what_is_opened(n: usize, cuda: bool, metal: bool)
    ensures
        cuda ==> opening_for(DeviceChoice::Cuda(n), cuda, metal) == Ok::<Opening, Failure>(
            Opening::Cuda(n),
        ),
        !cuda ==> opening_for(DeviceChoice::Cuda(n), cuda, metal) is Err,
        metal ==> opening_for(DeviceChoice::Metal(n), cuda, metal) == Ok::<Opening, Failure>(
            Opening::Metal(n),
        ),
        !metal ==> opening_for(DeviceChoice::Metal(n), cuda, metal) is Err,
        cuda ==> opening_for(DeviceChoice::Auto, cuda, metal) == Ok::<Opening, Failure>(
            Opening::Cuda(0),
        ),
        !cuda && metal ==> opening_for(DeviceChoice::Auto, cuda, metal) == Ok::<Opening, Failure>(
            Opening::Metal(0),
        ),
        !cuda && !metal ==> opening_for(DeviceChoice::Auto, cuda, metal) == Ok::<Opening, Failure>(
            Opening::Cpu,
        ),
{
}

/// A caller is given what the build can open, and an error for what it cannot.
pub proof fn law_given_openings(d: DeviceChoice, cuda: bool, metal: bool, r: Result<Opening, Error>)
    requires
        call_ensures(DeviceChoice::opening, (d, cuda, metal), r),
    ensures
        r matches Ok(o) ==> opening_for(d, cuda, metal) == Ok::<Opening, Failure>(o),
        r is Err <==> (d is Cuda && !cuda) || (d is Metal && !metal),
        d == DeviceChoice::Cpu ==> r == Ok::<Opening, Error>(Opening::Cpu),
{
}

} // verus!
