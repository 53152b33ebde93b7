//! The decisions of a hybrid fuzzer's concolic helper stages, with their contracts.
//!
//! - [`sympatch`]: which test cases are queued for concolic execution.
//! - [`symcc`]: which inputs are run concolically, and what becomes of the runs.
//! - [`symextension`]: how the constraints of a run are solved for further inputs.
//! - [`model`]: solver models: reading, applying and excluding them.
//! - [`harness`]: what the target is given, and what the end of an execution means.
//! - [`runs`]: the numbers and names of stages and runs.
//! - [`text`]: the text functions that these rest on.

pub mod harness;
pub mod model;
pub mod runs;
pub mod symcc;
pub mod symextension;
pub mod sympatch;
pub mod text;
