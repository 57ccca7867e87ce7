//! Workflow integrity verification for service accounts.
//!
//! A workflow is declared once as a coloured Petri net; a run is judged by asking
//! whether any execution of the net could have produced what was observed.

pub mod adapters;
pub mod campaign;
pub mod certificate;
pub mod clauses;
pub mod clocks;
pub mod completeness;
pub mod covering;
pub mod digest;
pub mod expand;
pub mod explain;
pub mod generate;
pub mod github;
pub mod guess;
pub mod index;
pub mod judge;
pub mod keys;
pub mod laws;
pub mod lint;
pub mod load;
pub mod matching;
pub mod model;
pub mod mus;
pub mod mutate;
pub mod net;
pub mod observation;
pub mod ordered;
pub mod permissiveness;
pub mod policy;
pub mod renaming;
pub mod report;
pub mod restriction;
pub mod retelling;
pub mod runs;
pub mod search;
pub mod service;
pub mod shapes;
pub mod states;
pub mod text;
pub mod tokens;
pub mod verify;
