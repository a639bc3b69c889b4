//! The run configuration value. Reading and validating the configuration
//! file is a collaborator's job; the library only holds the resulting
//! value.

use vstd::prelude::*;

verus! {

/// Where the content project lives on disk.
#[derive(Debug, Clone)]
pub struct Config {
    pub content_project_dir: String,
}

} // verus!
