//! Naming the five files a checkpoint is made of, on disk or on the Hugging Face Hub.

use vstd::prelude::*;
use vstd::string::*;

use crate::error::{concat2, concat3, Error, Failure};
use crate::question::optional_text;
use crate::text::{begins_with, chars_of, texts};

verus! {

// ----------------------------------------------------------------------- files

/// Head shape, sequence budget and calibration.
pub const AGENT_CONFIG: &'static str = "rl_agent_config.json";

/// Backbone and head in one file.
pub const WEIGHTS: &'static str = "model.safetensors";

/// The ModernBERT backbone's shape.
pub const ENCODER_CONFIG: &'static str = "encoder/config.json";

/// The tokenizer.
pub const TOKENIZER: &'static str = "tokenizer/tokenizer.json";

/// Optional: a `tokenizer.json` that carries its own special tokens does not need one.
pub const TOKENIZER_CONFIG: &'static str = "tokenizer/tokenizer_config.json";

/// The files a checkpoint is made of, relative to its root. All but the last are required.
pub const FILES: [&'static str; 5] = [
    AGENT_CONFIG,
    WEIGHTS,
    ENCODER_CONFIG,
    TOKENIZER,
    TOKENIZER_CONFIG,
];

/// Everything the loader needs, resolved to concrete paths.
#[derive(Clone, Debug)]
pub struct Checkpoint {
    /// `rl_agent_config.json`: head shape, sequence budget and calibration.
    pub agent_config: String,
    /// `model.safetensors`: backbone and head in one file.
    pub weights: String,
    /// `encoder/config.json`: the ModernBERT backbone's shape.
    pub encoder_config: String,
    /// `tokenizer/tokenizer.json`.
    pub tokenizer: String,
    /// `tokenizer/tokenizer_config.json`, when the checkpoint ships one.
    pub tokenizer_config: Option<String>,
    /// How to name this checkpoint in errors.
    pub label: String,
}

/// The mathematical content of a [`Checkpoint`].
pub struct Located {
    pub agent_config: Seq<char>,
    pub weights: Seq<char>,
    pub encoder_config: Seq<char>,
    pub tokenizer: Seq<char>,
    pub tokenizer_config: Option<Seq<char>>,
    pub label: Seq<char>,
}

impl View for Checkpoint {
    type V = Located;

    open spec fn view(&self) -> Located {
        Located {
            agent_config: self.agent_config@,
            weights: self.weights@,
            encoder_config: self.encoder_config@,
            tokenizer: self.tokenizer@,
            tokenizer_config: optional_text(self.tokenizer_config),
            label: self.label@,
        }
    }
}

/// How a Hub checkpoint names itself: the repository, plus the subfolder when it has one.
pub open spec fn hub_label_of(repo: Seq<char>, subfolder: Option<Seq<char>>) -> Seq<char> {
    match subfolder {
        Some(s) => repo + "/"@ + s,
        None => repo,
    }
}

/// What stands before the name of every file of a Hub checkpoint.
pub open spec fn hub_prefix_of(subfolder: Option<Seq<char>>) -> Seq<char> {
    match subfolder {
        Some(s) => s + "/"@,
        None => Seq::empty(),
    }
}

/// How a Hub checkpoint names itself: the repository, plus the subfolder when it has one.
pub fn hub_label(repo: &str, subfolder: &Option<String>) -> (r: String)
    ensures
        r@ == hub_label_of(repo@, optional_text(*subfolder)),
{
    match subfolder {
        Some(s) => concat3(repo, "/", s.as_str()),
        None => repo.to_owned(),
    }
}

// ----------------------------------------------------------------------- putting one together

/// Where a checkpoint is looked for.
#[derive(Clone, Debug)]
pub enum Source {
    /// A directory, by its path.
    Dir { path: String },
    /// A Hub repository, optionally a subfolder inside it.
    Hub { repo: String, subfolder: Option<String> },
}

/// The mathematical content of a [`Source`].
pub enum Place {
    Dir { path: Seq<char> },
    Hub { repo: Seq<char>, subfolder: Option<Seq<char>> },
}

impl View for Source {
    type V = Place;

    open spec fn view(&self) -> Place {
        match self {
            Source::Dir { path } => Place::Dir { path: path@ },
            Source::Hub { repo, subfolder } => Place::Hub {
                repo: repo@,
                subfolder: optional_text(*subfolder),
            },
        }
    }
}

/// What looking for one file came to.
#[derive(Clone, Debug)]
pub enum Fetched {
    /// The file is at this path.
    Found(String),
    /// There is no such file.
    Absent,
    /// It could not be told; the message says why.
    Failed(String),
}

/// The mathematical content of a [`Fetched`].
pub enum Reply {
    Found(Seq<char>),
    Absent,
    Failed(Seq<char>),
}

impl View for Fetched {
    type V = Reply;

    open spec fn view(&self) -> Reply {
        match self {
            Fetched::Found(p) => Reply::Found(p@),
            Fetched::Absent => Reply::Absent,
            Fetched::Failed(m) => Reply::Failed(m@),
        }
    }
}

/// How a checkpoint at a place names itself.
pub open spec fn label_of(place: Place) -> Seq<char> {
    match place {
        Place::Dir { path } => path,
        Place::Hub { repo, subfolder } => hub_label_of(repo, subfolder),
    }
}

/// The path of a file in a directory. A slash stands between the two, unless the directory ends in
/// one or is nothing at all.
pub open spec fn path_in(dir: Seq<char>, file: Seq<char>) -> Seq<char> {
    if dir.len() == 0 || dir.last() == '/' {
        dir + file
    } else {
        dir + "/"@ + file
    }
}

/// What a file is asked for by, at a place.
pub open spec fn request_of(place: Place, file: Seq<char>) -> Seq<char> {
    match place {
        Place::Dir { path } => path_in(path, file),
        Place::Hub { repo, subfolder } => hub_prefix_of(subfolder) + file,
    }
}

/// The names of all files, as an error lists them.
pub open spec fn shipped() -> Seq<char> {
    AGENT_CONFIG@ + ", "@ + WEIGHTS@ + ", "@ + ENCODER_CONFIG@ + ", "@ + TOKENIZER@ + ", "@
        + TOKENIZER_CONFIG@
}

/// The error for a required file that is not there.
pub open spec fn missing(place: Place, file: Seq<char>) -> Failure {
    match place {
        Place::Dir { path } => Failure::Checkpoint(
            path + ": missing "@ + file + ". A laya checkpoint ships "@ + shipped() + "."@,
        ),
        Place::Hub { repo, subfolder } => Failure::Hub(
            label_of(place) + ": "@ + request_of(place, file) + " is not in the repository"@,
        ),
    }
}

/// The error for a file that could not be looked for.
pub open spec fn unreachable_file(place: Place, file: Seq<char>, message: Seq<char>) -> Failure {
    match place {
        Place::Dir { path } => Failure::Io { path: request_of(place, file), source: message },
        Place::Hub { repo, subfolder } => Failure::Hub(
            label_of(place) + ": could not fetch "@ + file + ": "@ + message,
        ),
    }
}

/// A checkpoint that is being put together: the paths found so far, in the order of [`FILES`].
#[derive(Clone, Debug)]
pub struct Assembly {
    pub source: Source,
    pub found: Vec<String>,
}

/// What comes of the reply for a file.
#[derive(Debug)]
pub enum Step {
    /// There are more files to look for.
    More(Assembly),
    /// That was the last one.
    Done(Checkpoint),
    /// The checkpoint cannot be used.
    Failed(Error),
}

/// The mathematical content of a [`Step`].
pub enum Progress {
    More(Place, Seq<Seq<char>>),
    Done(Located),
    Failed(Failure),
}

impl View for Step {
    type V = Progress;

    open spec fn view(&self) -> Progress {
        match self {
            Step::More(a) => Progress::More(a.source@, texts(a.found@)),
            Step::Done(c) => Progress::Done(c@),
            Step::Failed(e) => Progress::Failed(e@),
        }
    }
}

/// What comes of the reply for the next file of an assembly.
///
/// Only an absent optional file is skipped: a failure to fetch one is still a failure, and would
/// otherwise surface later as the wrong special-token names.
pub open spec fn advanced(place: Place, found: Seq<Seq<char>>, reply: Reply) -> Progress {
    let file = FILES@[found.len() as int]@;
    match reply {
        Reply::Failed(m) => Progress::Failed(unreachable_file(place, file, m)),
        Reply::Found(p) => if found.len() < 4 {
            Progress::More(place, found.push(p))
        } else {
            Progress::Done(located(place, found, Some(p)))
        },
        Reply::Absent => if found.len() < 4 {
            Progress::Failed(missing(place, file))
        } else {
            Progress::Done(located(place, found, None))
        },
    }
}

/// The checkpoint with these required files and this optional one.
pub open spec fn located(
    place: Place,
    found: Seq<Seq<char>>,
    tokenizer_config: Option<Seq<char>>,
) -> Located {
    Located {
        agent_config: found[0],
        weights: found[1],
        encoder_config: found[2],
        tokenizer: found[3],
        tokenizer_config,
        label: label_of(place),
    }
}

/// Whether a file's name can follow a directory's at once.
fn ends_open(dir: &str) -> (r: bool)
    ensures
        r == (dir@.len() == 0 || dir@.last() == '/'),
{
    let chars = chars_of(dir);
    chars.len() == 0 || chars[chars.len() - 1] == '/'
}

impl Source {
    /// How a checkpoint from here names itself.
    pub fn label(&self) -> (r: String)
        ensures
            r@ == label_of(self@),
    {
        match self {
            Source::Dir { path } => path.clone(),
            Source::Hub { repo, subfolder } => hub_label(repo.as_str(), subfolder),
        }
    }

    /// What a file is asked for by.
    pub fn request(&self, file: &str) -> (r: String)
        ensures
            r@ == request_of(self@, file@),
    {
        match self {
            Source::Dir { path } => {
                if ends_open(path.as_str()) {
                    concat2(path.as_str(), file)
                } else {
                    concat3(path.as_str(), "/", file)
                }
            },
            Source::Hub { repo: _, subfolder } => match subfolder {
                Some(s) => concat3(s.as_str(), "/", file),
                None => {
                    assert(Seq::<char>::empty() + file@ =~= file@);
                    file.to_owned()
                },
            },
        }
    }

    fn missing_file(&self, file: &str) -> (r: Error)
        ensures
            r@ == missing(self@, file@),
    {
        match self {
            Source::Dir { path } => {
                let mut m = concat3(path.as_str(), ": missing ", file);
                m.append(". A laya checkpoint ships ");
                let mut names = concat3(AGENT_CONFIG, ", ", WEIGHTS);
                names.append(", ");
                names.append(ENCODER_CONFIG);
                names.append(", ");
                names.append(TOKENIZER);
                names.append(", ");
                names.append(TOKENIZER_CONFIG);
                m.append(names.as_str());
                m.append(".");
                Error::Checkpoint(m)
            },
            Source::Hub { repo: _, subfolder: _ } => {
                let mut m = concat3(self.label().as_str(), ": ", self.request(file).as_str());
                m.append(" is not in the repository");
                Error::Hub(m)
            },
        }
    }

    fn failed_file(&self, file: &str, message: String) -> (r: Error)
        ensures
            r@ == unreachable_file(self@, file@, message@),
    {
        match self {
            Source::Dir { path: _ } => Error::Io { path: self.request(file), source: message },
            Source::Hub { repo: _, subfolder: _ } => {
                let mut m = concat3(self.label().as_str(), ": could not fetch ", file);
                m.append(": ");
                m.append(message.as_str());
                Error::Hub(m)
            },
        }
    }
}

impl Assembly {
    /// Begin with nothing found.
    pub fn new(source: Source) -> (r: Self)
        ensures
            r.source == source,
            r.found@.len() == 0,
    {
        Assembly { source, found: Vec::new() }
    }

    /// The file to look for next, relative to the checkpoint's root.
    pub fn next_file(&self) -> (r: &'static str)
        requires
            self.found@.len() < 5,
        ensures
            r@ == FILES@[self.found@.len() as int]@,
    {
        FILES[self.found.len()]
    }

    /// Take the reply for the file that was to be looked for next.
    pub fn advance(self, reply: Fetched) -> (r: Step)
        requires
            self.found@.len() < 5,
        ensures
            r@ == advanced(self.source@, texts(self.found@), reply@),
    {
        let n: usize = self.found.len();
        let file = self.next_file();
        let ghost before = texts(self.found@);
        match reply {
            Fetched::Failed(m) => Step::Failed(self.source.failed_file(file, m)),
            Fetched::Found(p) => {
                if n < 4 {
                    let source = self.source;
                    let mut found = self.found;
                    found.push(p);
                    assert(texts(found@) =~= before.push(p@));
                    Step::More(Assembly { source, found })
                } else {
                    Step::Done(self.finish(Some(p)))
                }
            },
            Fetched::Absent => {
                if n < 4 {
                    Step::Failed(self.source.missing_file(file))
                } else {
                    Step::Done(self.finish(None))
                }
            },
        }
    }

    fn finish(self, tokenizer_config: Option<String>) -> (r: Checkpoint)
        requires
            self.found@.len() == 4,
        ensures
            r@ == located(self.source@, texts(self.found@), optional_text(tokenizer_config)),
    {
        let label = self.source.label();
        Checkpoint {
            agent_config: self.found[0].clone(),
            weights: self.found[1].clone(),
            encoder_config: self.found[2].clone(),
            tokenizer: self.found[3].clone(),
            tokenizer_config,
            label,
        }
    }
}

// ----------------------------------------------------------------------- directories

/// The error for a checkpoint directory that is none.
pub open spec fn not_a_directory(dir: Seq<char>) -> Failure {
    Failure::Checkpoint(
        dir
            + ": not a directory. Point at a checkpoint folder, or use `Agent::from_hub` to fetch one."@,
    )
}

/// The first required file from the `i`-th on that does not exist.
pub open spec fn first_absent(exists_at: Seq<bool>, i: int) -> Option<int>
    decreases 4 - i,
{
    if i >= 4 {
        None
    } else if !exists_at[i] {
        Some(i)
    } else {
        first_absent(exists_at, i + 1)
    }
}

/// The checkpoint in a directory, by which of [`FILES`] exist there.
pub open spec fn located_in(dir: Seq<char>, is_dir: bool, exists_at: Seq<bool>) -> Result<
    Located,
    Failure,
> {
    let place = Place::Dir { path: dir };
    if !is_dir {
        Err(not_a_directory(dir))
    } else {
        match first_absent(exists_at, 0) {
            Some(i) => Err(missing(place, FILES@[i]@)),
            None => Ok(
                Located {
                    agent_config: request_of(place, AGENT_CONFIG@),
                    weights: request_of(place, WEIGHTS@),
                    encoder_config: request_of(place, ENCODER_CONFIG@),
                    tokenizer: request_of(place, TOKENIZER@),
                    tokenizer_config: if exists_at[4] {
                        Some(request_of(place, TOKENIZER_CONFIG@))
                    } else {
                        None
                    },
                    label: dir,
                },
            ),
        }
    }
}

impl Checkpoint {
    /// Resolve a checkpoint laid out as a directory, from whether it is one and which of [`FILES`]
    /// exist in it.
    pub fn from_dir(dir: &str, is_dir: bool, exists_at: [bool; 5]) -> (r: Result<Self, Error>)
        ensures
            match r {
                Ok(c) => located_in(dir@, is_dir, exists_at@) == Ok::<Located, Failure>(c@),
                Err(e) => located_in(dir@, is_dir, exists_at@) == Err::<Located, Failure>(e@),
            },
    {
        if !is_dir {
            return Err(
                Error::Checkpoint(
                    concat2(
                        dir,
                        ": not a directory. Point at a checkpoint folder, or use `Agent::from_hub` to fetch one.",
                    ),
                ),
            );
        }
        let source = Source::Dir { path: dir.to_owned() };
        let mut found: Vec<String> = Vec::new();
        for i in 0..4usize
            invariant
                is_dir,
                source@ == (Place::Dir { path: dir@ }),
                first_absent(exists_at@, 0) == first_absent(exists_at@, i as int),
                found@.len() == i,
                forall|j: int|
                    0 <= j < i ==> (#[trigger] found@[j])@ == request_of(source@, FILES@[j]@),
        {
            if !exists_at[i] {
                return Err(source.missing_file(FILES[i]));
            }
            found.push(source.request(FILES[i]));
        }
        let tokenizer_config = if exists_at[4] {
            Some(source.request(TOKENIZER_CONFIG))
        } else {
            None
        };
        Ok((Assembly { source, found }).finish(tokenizer_config))
    }
}

// ----------------------------------------------------------------------- the Hub

/// How a checkpoint is fetched from the Hub.
#[derive(Clone, Debug)]
pub struct HubOptions {
    /// A Hub token, for private repositories. Falls back to `HF_TOKEN`, then to the token
    /// `huggingface-cli login` stored.
    pub token: Option<String>,
    /// Print a progress bar while downloading.
    pub progress: bool,
}

impl Default for HubOptions {
    /// No token of one's own and no progress bar.
    fn default() -> (r: Self)
        ensures
            r.token is None,
            !r.progress,
    {
        HubOptions { token: None, progress: false }
    }
}

/// Where the Hub cache is.
#[derive(Clone, Copy, Debug, PartialEq, Eq, Structural)]
pub enum CachePlace {
    /// Where `HF_HUB_CACHE` says.
    HubCache,
    /// In `hub` under what `HF_HOME` says.
    HfHome,
    /// In `.cache/huggingface/hub` under the home directory.
    Home,
}

/// The Hub cache directory, resolved the way `huggingface_hub` does: `HF_HUB_CACHE`, else
/// `HF_HOME/hub`, else `~/.cache/huggingface/hub`. The arguments say which of these is given and
/// not empty.
pub fn cache_place(hub_cache: bool, hf_home: bool, home: bool) -> (r: Result<CachePlace, Error>)
    ensures
        match r {
            Ok(p) => p == if hub_cache {
                CachePlace::HubCache
            } else if hf_home {
                CachePlace::HfHome
            } else {
                CachePlace::Home
            } && (hub_cache || hf_home || home),
            Err(e) => !hub_cache && !hf_home && !home && e@ == Failure::Hub(
                "no home directory to put the Hub cache in; set HF_HOME or HF_HUB_CACHE"@,
            ),
        },
{
    if hub_cache {
        Ok(CachePlace::HubCache)
    } else if hf_home {
        Ok(CachePlace::HfHome)
    } else if home {
        Ok(CachePlace::Home)
    } else {
        Err(
            Error::Hub(
                "no home directory to put the Hub cache in; set HF_HOME or HF_HUB_CACHE".to_owned(),
            ),
        )
    }
}

/// The token to use: the one given, or else the environment's, unless that one is empty.
pub open spec fn token_of(given: Option<Seq<char>>, env: Option<Seq<char>>) -> Option<Seq<char>> {
    let token = match given {
        Some(t) => Some(t),
        None => env,
    };
    match token {
        Some(t) => if t.len() == 0 {
            None
        } else {
            Some(t)
        },
        None => None,
    }
}

/// The token to use: the one given, or else the environment's, unless that one is empty.
pub fn choose_token(given: Option<String>, env: Option<String>) -> (r: Option<String>)
    ensures
        optional_text(r) == token_of(optional_text(given), optional_text(env)),
{
    let token = match given {
        Some(t) => Some(t),
        None => env,
    };
    match token {
        Some(t) => if t.as_str().is_empty() {
            None
        } else {
            Some(t)
        },
        None => None,
    }
}

// ----------------------------------------------------------------------- laws

/// What an assembly comes to when every file is answered by `replies`, from the files found on.
pub open spec fn driven(place: Place, found: Seq<Seq<char>>, replies: Seq<Reply>) -> Progress
    decreases 5 - found.len(),
{
    match advanced(place, found, replies[found.len() as int]) {
        Progress::More(p, more) => if found.len() < 4 {
            driven(place, found.push(more.last()), replies)
        } else {
            Progress::More(p, more)
        },
        other => other,
    }
}

/// What a directory replies: a file is at its place below the directory if it exists.
pub open spec fn dir_replies(dir: Seq<char>, exists_at: Seq<bool>) -> Seq<Reply> {
    Seq::new(
        5,
        |i: int|
            if exists_at[i] {
                Reply::Found(request_of(Place::Dir { path: dir }, FILES@[i]@))
            } else {
                Reply::Absent
            },
    )
}

/// Looking for the files one by one comes to the same as knowing at once which exist: the first
/// required file that is missing is the one named, and only the optional one may be.
pub proof fn law_assembling_a_directory(dir: Seq<char>, exists_at: Seq<bool>)
    requires
        exists_at.len() == 5,
    ensures
        match located_in(dir, true, exists_at) {
            Ok(c) => driven(
                Place::Dir { path: dir },
                Seq::empty(),
                dir_replies(dir, exists_at),
            ) == Progress::Done(c),
            Err(e) => driven(
                Place::Dir { path: dir },
                Seq::empty(),
                dir_replies(dir, exists_at),
            ) == Progress::Failed(e),
        },
{
    reveal_with_fuel(driven, 6);
    reveal_with_fuel(first_absent, 6);
}

/// The five files of a checkpoint, in the order they are looked for.
pub proof fn law_files()
    ensures
        FILES@.len() == 5,
        FILES@[0]@ == "rl_agent_config.json"@,
        FILES@[1]@ == "model.safetensors"@,
        FILES@[2]@ == "encoder/config.json"@,
        FILES@[3]@ == "tokenizer/tokenizer.json"@,
        FILES@[4]@ == "tokenizer/tokenizer_config.json"@,
{
}

/// A file of a directory is looked for under it, behind one slash; a file of a repository by its name, or
/// by its name in the subfolder.
pub proof fn law_where_files_are_looked_for(
    dir: Seq<char>,
    repo: Seq<char>,
    sub: Seq<char>,
    file: Seq<char>,
)
    ensures
        dir.len() > 0 && dir.last() != '/' ==> request_of(Place::Dir { path: dir }, file) == dir
            + seq!['/'] + file,
        dir.len() > 0 && dir.last() == '/' ==> request_of(Place::Dir { path: dir }, file) == dir
            + file,
        dir.len() == 0 ==> request_of(Place::Dir { path: dir }, file) == file,
        request_of(Place::Hub { repo, subfolder: None }, file) == file,
        request_of(Place::Hub { repo, subfolder: Some(sub) }, file) == sub + seq!['/'] + file,
        label_of(Place::Dir { path: dir }) == dir,
        label_of(Place::Hub { repo, subfolder: None }) == repo,
        label_of(Place::Hub { repo, subfolder: Some(sub) }) == repo + seq!['/'] + sub,
{
    reveal_strlit("/");
    assert("/"@ =~= seq!['/']);
    if dir.len() == 0 {
        assert(dir + file =~= file);
    }
    assert(Seq::<char>::empty() + file =~= file);
}

/// A directory is a checkpoint exactly when it is one and the first four files are in it. Each of its
/// files is then the one of that name, and the fifth may be left out.
pub proof fn law_what_a_directory_needs(dir: Seq<char>, is_dir: bool, exists_at: Seq<bool>)
    requires
        exists_at.len() == 5,
    ensures
        located_in(dir, is_dir, exists_at) is Ok <==> is_dir && exists_at[0] && exists_at[1]
            && exists_at[2] && exists_at[3],
        located_in(dir, is_dir, exists_at) matches Ok(c) ==> {
            let place = Place::Dir { path: dir };
            &&& c.agent_config == request_of(place, "rl_agent_config.json"@)
            &&& c.weights == request_of(place, "model.safetensors"@)
            &&& c.encoder_config == request_of(place, "encoder/config.json"@)
            &&& c.tokenizer == request_of(place, "tokenizer/tokenizer.json"@)
            &&& c.tokenizer_config == if exists_at[4] {
                Some(request_of(place, "tokenizer/tokenizer_config.json"@))
            } else {
                None
            }
            &&& c.label == dir
        },
        !is_dir ==> located_in(dir, is_dir, exists_at) == Err::<Located, Failure>(
            not_a_directory(dir),
        ),
        is_dir && !exists_at[0] ==> located_in(dir, is_dir, exists_at) == Err::<Located, Failure>(
            missing(Place::Dir { path: dir }, "rl_agent_config.json"@),
        ),
        is_dir && exists_at[0] && !exists_at[1] ==> located_in(dir, is_dir, exists_at) == Err::<
            Located,
            Failure,
        >(missing(Place::Dir { path: dir }, "model.safetensors"@)),
{
    reveal_with_fuel(first_absent, 5);
    law_files();
}

/// The files that are found go where they belong: the first four are the four that a checkpoint needs, in
/// the order they are looked for, and the fifth is the one that it may do without.
pub proof fn law_found_files_go_where_they_belong(place: Place, found: Seq<Seq<char>>, p: Seq<char>)
    requires
        found.len() < 5,
    ensures
        found.len() < 4 ==> advanced(place, found, Reply::Found(p)) == Progress::More(
            place,
            found.push(p),
        ),
        found.len() < 4 ==> advanced(place, found, Reply::Absent) == Progress::Failed(
            missing(place, FILES@[found.len() as int]@),
        ),
        advanced(place, found, Reply::Failed(p)) == Progress::Failed(
            unreachable_file(place, FILES@[found.len() as int]@, p),
        ),
        found.len() == 4 ==> {
            let found_there = advanced(place, found, Reply::Found(p));
            let absent = advanced(place, found, Reply::Absent);
            &&& found_there matches Progress::Done(c) && c.agent_config == found[0] && c.weights
                == found[1] && c.encoder_config == found[2] && c.tokenizer == found[3]
                && c.tokenizer_config == Some(p) && c.label == label_of(place)
            &&& absent matches Progress::Done(c) && c.agent_config == found[0] && c.weights
                == found[1] && c.encoder_config == found[2] && c.tokenizer == found[3]
                && c.tokenizer_config is None && c.label == label_of(place)
        },
{
}

/// What is missing from a directory, or from a repository, is named with the place it is missing from.
pub proof fn law_what_is_missing_is_named(dir: Seq<char>, repo: Seq<char>, file: Seq<char>)
    ensures
        missing(Place::Dir { path: dir }, file) matches Failure::Checkpoint(m) && begins_with(
            m,
            dir + ": missing "@ + file,
        ),
        missing(Place::Hub { repo, subfolder: None }, file) == Failure::Hub(
            repo + ": "@ + file + " is not in the repository"@,
        ),
{
    let start = dir + ": missing "@ + file;
    let m = (missing(Place::Dir { path: dir }, file))->Checkpoint_0;
    assert(m.take(start.len() as int) =~= start);
    assert(Seq::<char>::empty() + file =~= file);
}

/// The token that the caller gave comes before the one of the environment, and an empty one is none.
pub proof fn law_tokens(given: Seq<char>, env: Option<Seq<char>>)
    ensures
        given.len() > 0 ==> token_of(Some(given), env) == Some(given),
        given.len() == 0 ==> token_of(Some(given), env) is None,
        env matches Some(t) ==> token_of(None, env) == if t.len() > 0 {
            Some(t)
        } else {
            None
        },
        env is None ==> token_of(None, env) is None,
{
}

/// The cache is where `HF_HUB_CACHE` says, else under `HF_HOME`, else under the home directory; only
/// without any of them is there none.
pub proof fn law_where_the_cache_is(
    hub_cache: bool,
    hf_home: bool,
    home: bool,
    r: Result<CachePlace, Error>,
)
    requires
        call_ensures(cache_place, (hub_cache, hf_home, home), r),
    ensures
        hub_cache ==> r == Ok::<CachePlace, Error>(CachePlace::HubCache),
        !hub_cache && hf_home ==> r == Ok::<CachePlace, Error>(CachePlace::HfHome),
        !hub_cache && !hf_home && home ==> r == Ok::<CachePlace, Error>(CachePlace::Home),
        !hub_cache && !hf_home && !home ==> r is Err,
{
}

/// A caller is given a directory as a checkpoint exactly when it holds what one needs.
pub proof fn law_given_checkpoints(
    dir: &str,
    is_dir: bool,
    exists_at: [bool; 5],
    r: Result<Checkpoint, Error>,
)
    requires
        call_ensures(Checkpoint::from_dir, (dir, is_dir, exists_at), r),
    ensures
        r is Ok <==> is_dir && exists_at@[0] && exists_at@[1] && exists_at@[2] && exists_at@[3],
        r matches Ok(c) ==> located_in(dir@, is_dir, exists_at@) == Ok::<Located, Failure>(c@),
{
    law_what_a_directory_needs(dir@, is_dir, exists_at@);
}

} // verus!
