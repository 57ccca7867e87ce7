//! What holds of the library as a whole, stated on what goes into an operation and what comes
//! out of it.

pub mod accepting;
pub mod bundles;
pub mod certifying;
pub mod conditions;
pub mod firing;
pub mod generating;
pub mod importing;
pub mod lint;
pub mod matching;
pub mod mutating;
pub mod naming;
pub mod nets;
pub mod observing;
pub mod patterns;
pub mod permitting;
pub mod policy;
pub mod reasons;
pub mod reporting;
pub mod serving;
pub mod stepping;
pub mod telling;
pub mod texts;
