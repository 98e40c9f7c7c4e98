//! Generation, filtering and selection of short, pronounceable `.com` names.

pub mod answers;
pub mod check;
pub mod cli;
pub mod edit;
pub mod finalists;
pub mod journal;
pub mod json;
pub mod judge;
pub mod keyed;
pub mod markov;
pub mod model;
pub mod names;
pub mod prompts;
pub mod ranking;
pub mod scan;
pub mod selection;
pub mod sort;
pub mod syllable;
pub mod text;
