//! Error type shared by the whole crate.

use vstd::prelude::*;
use vstd::string::*;

use crate::unicode::{quote, quoted};

verus! {

/// Everything that can go wrong while loading a checkpoint or answering questions.
#[derive(Clone, Debug)]
pub enum Error {
    /// A tensor operation failed.
    Candle(String),
    /// The tokenizer could not be loaded or refused a text.
    Tokenizer(String),
    /// A file could not be read.
    Io { path: String, source: String },
    /// A file or argument does not hold the JSON it should.
    Json { path: String, source: String },
    /// A checkpoint directory is missing a file, or a config value makes no sense.
    Checkpoint(String),
    /// A question definition the engine cannot render into a sequence.
    Question { id: String, message: String },
    /// A prediction was asked for without a question.
    NoQuestions,
    /// An unknown model name was passed to the router.
    UnknownModel(String),
    /// A device that has no such name, or cannot be opened.
    Device(String),
    /// The Hugging Face Hub could not be reached or lacks a file.
    Hub(String),
}

/// The mathematical content of an [`Error`].
pub enum Failure {
    Candle(Seq<char>),
    Tokenizer(Seq<char>),
    Io { path: Seq<char>, source: Seq<char> },
    Json { path: Seq<char>, source: Seq<char> },
    Checkpoint(Seq<char>),
    Question { id: Seq<char>, message: Seq<char> },
    NoQuestions,
    UnknownModel(Seq<char>),
    Device(Seq<char>),
    Hub(Seq<char>),
}

impl View for Error {
    type V = Failure;

    open spec fn view(&self) -> Failure {
        match self {
            Error::Candle(m) => Failure::Candle(m@),
            Error::Tokenizer(m) => Failure::Tokenizer(m@),
            Error::Io { path, source } => Failure::Io { path: path@, source: source@ },
            Error::Json { path, source } => Failure::Json { path: path@, source: source@ },
            Error::Checkpoint(m) => Failure::Checkpoint(m@),
            Error::Question { id, message } => Failure::Question { id: id@, message: message@ },
            Error::NoQuestions => Failure::NoQuestions,
            Error::UnknownModel(m) => Failure::UnknownModel(m@),
            Error::Device(m) => Failure::Device(m@),
            Error::Hub(m) => Failure::Hub(m@),
        }
    }
}

/// How a failure reads.
pub open spec fn described(e: Failure) -> Seq<char> {
    match e {
        Failure::Candle(m) => "tensor operation failed: "@ + m,
        Failure::Tokenizer(m) => "tokenizer: "@ + m,
        Failure::Io { path, source } => path + ": "@ + source,
        Failure::Json { path, source } => path + ": invalid JSON: "@ + source,
        Failure::Checkpoint(m) => m,
        Failure::Question { id, message } => "question "@ + quoted(id) + ": "@ + message,
        Failure::NoQuestions => "no questions to answer"@,
        Failure::UnknownModel(m) => m,
        Failure::Device(m) => m,
        Failure::Hub(m) => "hugging face hub: "@ + m,
    }
}

/// Three texts in a row.
pub(crate) fn concat3(a: &str, b: &str, c: &str) -> (r: String)
    ensures
        r@ == a@ + b@ + c@,
{
    let mut out = a.to_owned();
    out.append(b);
    out.append(c);
    out
}

/// Two texts in a row.
pub(crate) fn concat2(a: &str, b: &str) -> (r: String)
    ensures
        r@ == a@ + b@,
{
    let mut out = a.to_owned();
    out.append(b);
    out
}

impl Error {
    /// A question that cannot be rendered.
    pub(crate) fn question(id: &str, message: String) -> (r: Error)
        ensures
            r@ == (Failure::Question { id: id@, message: message@ }),
    {
        Error::Question { id: id.to_owned(), message }
    }

    /// How this error reads.
    pub fn to_string(&self) -> (r: String)
        ensures
            r@ == described(self@),
    {
        match self {
            Error::Candle(m) => concat2("tensor operation failed: ", m.as_str()),
            Error::Tokenizer(m) => concat2("tokenizer: ", m.as_str()),
            Error::Io { path, source } => concat3(path.as_str(), ": ", source.as_str()),
            Error::Json { path, source } => concat3(
                path.as_str(),
                ": invalid JSON: ",
                source.as_str(),
            ),
            Error::Checkpoint(m) => m.clone(),
            Error::Question { id, message } => {
                let mut out = concat3("question ", quote(id.as_str()).as_str(), ": ");
                out.append(message.as_str());
                out
            },
            Error::NoQuestions => "no questions to answer".to_owned(),
            Error::UnknownModel(m) => m.clone(),
            Error::Device(m) => m.clone(),
            Error::Hub(m) => concat2("hugging face hub: ", m.as_str()),
        }
    }
}

// ----------------------------------------------------------------------- laws

/// An error says what went wrong in the words it was given, and a file, a question or the service that
/// it went wrong with by name.
pub proof fn law_errors_say_what_went_wrong(m: Seq<char>, name: Seq<char>)
    ensures
        described(Failure::Candle(m)) == "tensor operation failed: "@ + m,
        described(Failure::Tokenizer(m)) == "tokenizer: "@ + m,
        described(Failure::Io { path: name, source: m }) == name + ": "@ + m,
        described(Failure::Json { path: name, source: m }) == name + ": invalid JSON: "@ + m,
        described(Failure::Checkpoint(m)) == m,
        described(Failure::Question { id: name, message: m }) == "question "@ + quoted(name) + ": "@
            + m,
        described(Failure::NoQuestions) == "no questions to answer"@,
        described(Failure::UnknownModel(m)) == m,
        described(Failure::Device(m)) == m,
        described(Failure::Hub(m)) == "hugging face hub: "@ + m,
{
}

} // verus!
