//! A non-autoregressive decision engine: typed questions, answered in one forward pass.
//!
//! `laya` evaluates *typed questions* over any state — a string, an email, a ticket, a JSON
//! document — with a bidirectional encoder and a decision head. Nothing is generated, so there is
//! nothing to parse: every answer is one of three primitives, carrying a probability distribution
//! and a calibrated confidence.
//!
//! | primitive | question | answer |
//! |---|---|---|
//! | `choice` | pick one label from a named set | the label, plus a probability per option |
//! | `score` | rate against ordered levels | the expected level, plus a probability per level |
//! | `noul` | a boolean | the probability the statement holds |
//!
//! A question set is answered in a single batched forward pass: each option becomes a `[MASK]`
//! marker and the answer is read off the marker's hidden state.
//!
//! This crate is everything around the tensors, with what it does stated and proved: how questions
//! render ([`question`], [`pyjson`]), how they are laid out and batched ([`sequence`]), which
//! checkpoint reads a state ([`lang`], [`router`], [`residency`]), whether a checkpoint fits its
//! config ([`checkpoint`], [`config`], [`agent`]), whether its tokenizer can be run on every text
//! ([`tokenizer`], [`pipeline`], [`charsmap`]), and how answers are put together ([`calibration`],
//! [`predict`], [`answer`]). The forward pass itself, files, the network and the command line are
//! the program's.

pub mod agent;
pub mod answer;
pub mod calibration;
pub mod charsmap;
pub mod checkpoint;
pub mod cli;
pub mod config;
pub mod device;
pub mod digits;
pub mod error;
pub mod float;
pub mod json;
pub mod lang;
pub mod ordered;
pub mod pipeline;
pub mod predict;
pub mod presets;
pub mod pyjson;
pub mod question;
pub mod residency;
pub mod router;
pub mod sequence;
pub mod text;
pub mod tokenizer;
pub mod unicode;

pub use answer::{Action, Answer, Prediction, Usage};
pub use checkpoint::{Checkpoint, HubOptions};
pub use config::AgentConfig;
pub use device::DeviceChoice;
pub use error::Error;
pub use lang::{analyse as detect_language, detect_script, is_english, Detection};
pub use question::{QType, Question, Questions};
pub use router::{ModelName, ModelSpec, RouteDecision, RouteOptions, Router, RouterBuilder};
