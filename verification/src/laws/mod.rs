//! What holds of the library as a whole: what each operation promises to those who rely on it, said
//! of the files, the config and the signatures themselves.

pub mod applying;
pub mod asking;
pub mod changes;
pub mod configuring;
pub mod keeping;
pub mod merging;
pub mod publishing;
pub mod refusing;
pub mod reporting;
pub mod signing;
pub mod storing;
pub mod succeeding;
pub mod telling;
pub mod terms;
pub mod updating;
pub mod wording;
pub mod working;
