//! Reports locally installed command-line tools that are both out of date
//! according to the package manager and recently invoked from shell history,
//! and models the deferred metadata-refresh bookkeeping that goes with it.

pub mod bytes;
pub mod history;
pub mod homebrew;
pub mod refresh;
