//! What a project file declares: the project's name and the artifacts to
//! build.

use vstd::prelude::*;

verus! {

/// The kinds of artifact a project can ask for.
#[derive(Clone, Copy, Debug, PartialEq, Eq, Structural)]
pub enum ArtifactType {
    Lib,
    Exe,
    Test,
    Macro,
    CBindingCrate,
    JsBindings,
    PyBindings,
    CMake,
    Esp32,
}

/// One artifact: its name, the module that is its entry point, and its kind.
#[derive(Clone, Debug, PartialEq)]
pub struct Artifact {
    pub name: String,
    pub main: String,
    pub typ: ArtifactType,
}

#[derive(Clone, Debug, PartialEq)]
pub struct Project {
    pub name: String,
}

/// A project file, read.
#[derive(Clone, Debug, PartialEq)]
pub struct Config {
    pub project: Project,
    pub artifacts: Vec<Artifact>,
    pub dependencies: Vec<String>,
}

/// Which artifacts one invocation builds.
#[derive(Clone, Debug, PartialEq)]
pub enum BuildSet {
    /// Test artifacts and everything else that is built by default.
    Tests,
    /// Only what can be run.
    Run,
    /// Check only, optionally restricted to the module read from one source file.
    Check(Option<String>),
    /// Everything but tests.
    All,
    /// The artifact with this name.
    Named(String),
    /// The artifacts made for other build systems and languages.
    Export,
}

} // verus!
