//! What the command line makes of its arguments, and how it words what it prints.

use vstd::prelude::*;
use vstd::string::*;

use crate::error::{concat2, concat3, Error};
use crate::presets::NAMES;
use crate::question::Questions;
use crate::router::{model_called, plain_name, unknown_model, ModelName};
use crate::sequence::{byte_len, lemma_byte_len_is_encoded_len, most};
use crate::text::{
    chars_of, join, joined, occurs_at, occurs_in, same_text, string_of, texts,
};
use crate::unicode::{quote, quoted};

verus! {

// ----------------------------------------------------------------------- arguments

/// Where an argument is to be read from.
#[derive(Clone, Debug)]
pub enum Argument {
    /// From the standard input.
    Stdin,
    /// From the file at this path.
    File(String),
    /// The argument itself is meant.
    Literal(String),
}

/// The mathematical content of an [`Argument`].
pub enum Origin {
    Stdin,
    File(Seq<char>),
    Literal(Seq<char>),
}

impl View for Argument {
    type V = Origin;

    open spec fn view(&self) -> Origin {
        match self {
            Argument::Stdin => Origin::Stdin,
            Argument::File(p) => Origin::File(p@),
            Argument::Literal(s) => Origin::Literal(s@),
        }
    }
}

/// `-` stands for the standard input and `@path` for that file; anything else is literal.
pub open spec fn origin_of(arg: Seq<char>) -> Origin {
    if arg == "-"@ {
        Origin::Stdin
    } else if arg.len() > 0 && arg[0] == '@' {
        Origin::File(arg.drop_first())
    } else {
        Origin::Literal(arg)
    }
}

/// Where an argument is to be read from.
pub fn read_source(arg: &str) -> (r: Argument)
    ensures
        r@ == origin_of(arg@),
{
    if same_text(arg, "-") {
        return Argument::Stdin;
    }
    let chars = chars_of(arg);
    let n: usize = chars.len();
    if n == 0 || chars[0] != '@' {
        return Argument::Literal(arg.to_owned());
    }
    let mut path: Vec<char> = Vec::new();
    for i in 1..n
        invariant
            1 <= n == chars@.len(),
            path@ == chars@.subrange(1, i as int),
    {
        path.push(chars[i]);
        assert(chars@.subrange(1, i + 1) =~= chars@.subrange(1, i as int).push(chars@[i as int]));
    }
    assert(chars@.subrange(1, n as int) =~= arg@.drop_first());
    Argument::File(string_of(path.as_slice()))
}

/// The checkpoint a directory stands in for: the one that is named, English by default.
pub fn stands_in_for(model: &Option<String>) -> (r: Result<ModelName, Error>)
    ensures
        match (*model, r) {
            (None, Ok(m)) => m == ModelName::English,
            (None, Err(_)) => false,
            (Some(name), Ok(m)) => model_called(plain_name(name@)) == Some(m),
            (Some(name), Err(e)) => model_called(plain_name(name@)) is None && e@ == unknown_model(
                plain_name(name@),
            ),
        },
{
    match model {
        Some(name) => ModelName::parse(name.as_str()),
        None => Ok(ModelName::English),
    }
}

// ----------------------------------------------------------------------- wording

/// The names of the presets, mathematically.
pub open spec fn preset_list() -> Seq<Seq<char>> {
    Seq::new(5, |i: int| NAMES@[i]@)
}

/// The names of the presets, with a comma between each two.
pub fn preset_names() -> (r: String)
    ensures
        r@ == joined(preset_list(), ", "@),
{
    let mut names: Vec<String> = Vec::new();
    for i in 0..5usize
        invariant
            names@.len() == i,
            forall|j: int| 0 <= j < i ==> (#[trigger] names@[j])@ == NAMES@[j]@,
    {
        names.push(NAMES[i].to_owned());
    }
    assert(texts(names@) =~= preset_list());
    join(&names, ", ")
}

/// The complaint about a preset that is none.
pub fn unknown_preset(name: &str) -> (r: String)
    ensures
        r@ == "unknown preset "@ + quoted(name@) + "; try one of "@ + joined(preset_list(), ", "@),
{
    let mut out = concat3("unknown preset ", quote(name).as_str(), "; try one of ");
    out.append(preset_names().as_str());
    out
}

/// The complaint about questions that are neither a preset nor a file.
pub fn no_such_questions(arg: &str) -> (r: String)
    ensures
        r@ == quoted(arg@) + " is neither a preset nor a file; presets are "@ + joined(
            preset_list(),
            ", "@,
        ) + ", and a file is given as @path.json"@,
{
    let mut out = concat2(
        quote(arg).as_str(),
        " is neither a preset nor a file; presets are ",
    );
    out.append(preset_names().as_str());
    out.append(", and a file is given as @path.json");
    out
}

/// `n` blanks.
pub open spec fn blanks(n: nat) -> Seq<char> {
    Seq::new(n, |i: int| ' ')
}

/// A text filled up with blanks to `width` characters.
pub open spec fn padded_to(s: Seq<char>, width: nat) -> Seq<char> {
    if s.len() < width {
        s + blanks((width - s.len()) as nat)
    } else {
        s
    }
}

/// A text filled up with blanks to `width` characters.
pub fn pad_to(s: &str, width: usize) -> (r: String)
    ensures
        r@ == padded_to(s@, width as nat),
{
    let n: usize = chars_of(s).len();
    let mut out = s.to_owned();
    if n < width {
        for i in n..width
            invariant
                n == s@.len(),
                n <= width,
                out@ == s@ + blanks((i - n) as nat),
        {
            out.push(' ');
            assert(out@ =~= s@ + blanks((i + 1 - n) as nat));
        }
    }
    assert(s@ + blanks(0) =~= s@);
    out
}

/// The ids of questions.
pub open spec fn ids_of<T>(s: Seq<(Seq<char>, T)>) -> Seq<Seq<char>> {
    Seq::new(s.len(), |i: int| s[i].0)
}

/// One line that lists a preset with the ids of its questions.
pub fn preset_line(name: &str, questions: &Questions) -> (r: String)
    ensures
        r@ == padded_to(name@, 12) + " "@ + joined(ids_of(questions@), ", "@),
{
    let mut ids: Vec<String> = Vec::new();
    let n: usize = questions.len();
    for i in 0..n
        invariant
            n == questions@.len(),
            ids@.len() == i,
            forall|j: int| 0 <= j < i ==> (#[trigger] ids@[j])@ == questions@[j].0,
    {
        ids.push(questions.at(i).0.to_owned());
    }
    assert(texts(ids@) =~= ids_of(questions@));
    concat3(pad_to(name, 12).as_str(), " ", join(&ids, ", ").as_str())
}

/// The bytes of texts.
pub open spec fn byte_lens(s: Seq<Seq<char>>) -> Seq<nat> {
    Seq::new(s.len(), |i: int| byte_len(s[i]))
}

/// The width of the first column of a summary: the most bytes an id has.
pub fn id_width(ids: &Vec<String>) -> (r: usize)
    ensures
        r == most(byte_lens(texts(ids@)), 0),
{
    let ghost lens = byte_lens(texts(ids@));
    let mut width: usize = 0;
    for i in 0..ids.len()
        invariant
            lens == byte_lens(texts(ids@)),
            width == most(lens.take(i as int), 0),
    {
        assert(lens.take(i + 1).drop_last() =~= lens.take(i as int));
        let n: usize = ids[i].as_str().as_bytes().len();
        proof {
            lemma_byte_len_is_encoded_len(ids@[i as int]@);
        }
        if n > width {
            width = n;
        }
    }
    assert(lens.take(lens.len() as int) =~= lens);
    width
}

/// One line of a summary: the id, the kind of question, the value and the confidence, in columns.
pub fn summary_line(id: &str, width: usize, kind: &str, value: &str, confidence: &str) -> (r: String)
    ensures
        r@ == padded_to(id@, width as nat) + "  "@ + padded_to(kind@, 6) + "  "@ + padded_to(
            value@,
            28,
        ) + "  confidence "@ + confidence@,
{
    let mut out = concat3(pad_to(id, width).as_str(), "  ", pad_to(kind, 6).as_str());
    out.append("  ");
    out.append(pad_to(value, 28).as_str());
    out.append("  confidence ");
    out.append(confidence);
    out
}

// ----------------------------------------------------------------------- laws

/// A dash stands for the standard input, a name behind an at sign for a file, and everything else for
/// itself.
pub proof fn law_where_arguments_come_from(arg: Seq<char>, path: Seq<char>)
    ensures
        origin_of(seq!['-']) == Origin::Stdin,
        origin_of(seq!['@'] + path) == Origin::File(path),
        arg != seq!['-'] && (arg.len() == 0 || arg[0] != '@') ==> origin_of(arg) == Origin::Literal(
            arg,
        ),
{
    reveal_strlit("-");
    assert("-"@ =~= seq!['-']);
    assert((seq!['@'] + path)[0] == '@');
    assert((seq!['@'] + path).drop_first() =~= path);
    assert(seq!['-'][0] == '-');
    assert((seq!['@'] + path) != seq!['-']) by {
        assert((seq!['@'] + path)[0] != seq!['-'][0]);
    }
}

/// Padding puts blanks behind a text until it is wide enough, and takes nothing away.
pub proof fn law_padding(s: Seq<char>, width: nat, i: int)
    ensures
        padded_to(s, width).len() == if s.len() < width {
            width
        } else {
            s.len()
        },
        padded_to(s, width).take(s.len() as int) == s,
        s.len() <= i < width ==> padded_to(s, width)[i] == ' ',
{
    assert(padded_to(s, width).take(s.len() as int) =~= s);
}

/// The presets that are offered, in their order.
pub proof fn law_presets_that_are_offered()
    ensures
        preset_list().len() == 5,
        preset_list()[0] == "triage"@,
        preset_list()[1] == "email"@,
        preset_list()[2] == "guard"@,
        preset_list()[3] == "moderation"@,
        preset_list()[4] == "router"@,
{
}

/// A caller is given the origin of an argument, English where no model is named, and lines that begin with
/// what they are about and say all they were given to say.
pub proof fn law_given_lines(
    arg: &str,
    origin: Argument,
    model: &Option<String>,
    m: Result<ModelName, Error>,
    id: &str,
    width: usize,
    kind: &str,
    value: &str,
    confidence: &str,
    line: String,
)
    requires
        call_ensures(read_source, (arg,), origin),
        call_ensures(stands_in_for, (model,), m),
        call_ensures(summary_line, (id, width, kind, value, confidence), line),
    ensures
        origin@ == origin_of(arg@),
        *model is None ==> m == Ok::<ModelName, Error>(ModelName::English),
        line@.take(id@.len() as int) == id@,
        occurs_in(line@, kind@),
        occurs_in(line@, value@),
        line@.skip(line@.len() - confidence@.len()) == confidence@,
{
    let a = padded_to(id@, width as nat);
    let b = padded_to(kind@, 6);
    let c = padded_to(value@, 28);
    let s = line@;
    assert(s.take(id@.len() as int) =~= id@);
    let i = a.len() as int + "  "@.len();
    let j = i + b.len() + "  "@.len();
    assert(s.subrange(i, i + kind@.len()) =~= kind@);
    assert(occurs_at(s, kind@, i));
    assert(s.subrange(j, j + value@.len()) =~= value@);
    assert(occurs_at(s, value@, j));
    assert(s.skip(s.len() - confidence@.len()) =~= confidence@);
}

} // verus!
