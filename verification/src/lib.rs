
pub mod count_spec;
pub mod extract;
pub mod run;

pub use count_spec::parse;
pub use run::{Config, HeaderChoice, OutcomeModel, RunOutcome, SourceData, all_succeeded, run_core};
