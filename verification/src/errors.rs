//! The engine's error types: what a load, an unload, or a primitive
//! mutation can report, and the runner's umbrella over them.

use vstd::prelude::*;

verus! {

/// A primitive mutation was refused by the filesystem model; `action`
/// describes the attempt.
#[derive(Debug, Clone, PartialEq, Eq)]
pub struct IoError {
    pub action: String,
}

/// Why a load failed.
#[derive(Debug, PartialEq, Eq)]
pub enum LoadError {
    Io(IoError),
    PkgDirNotFound(String),
    SrcNotExists(String),
    DstAlreadyExists { src: String, dst: String },
    DstNotSymlink { src: String, dst: String },
    ParentNotADir { src: String, parent: String },
    DirectoryChanged { old_directory: String, new_directory: String },
}

/// The shape of a load failure; a refused primitive keeps no payload, its
/// message being diagnostic only.
pub enum LoadErrV {
    Io,
    PkgDirNotFound(Seq<char>),
    SrcNotExists(Seq<char>),
    DstAlreadyExists { src: Seq<char>, dst: Seq<char> },
    DstNotSymlink { src: Seq<char>, dst: Seq<char> },
    ParentNotADir { src: Seq<char>, parent: Seq<char> },
    DirectoryChanged,
}

impl View for LoadError {
    type V = LoadErrV;

    open spec fn view(&self) -> LoadErrV {
        match self {
            LoadError::Io(_) => LoadErrV::Io,
            LoadError::PkgDirNotFound(n) => LoadErrV::PkgDirNotFound(n@),
            LoadError::SrcNotExists(s) => LoadErrV::SrcNotExists(s@),
            LoadError::DstAlreadyExists { src, dst } => LoadErrV::DstAlreadyExists {
                src: src@,
                dst: dst@,
            },
            LoadError::DstNotSymlink { src, dst } => LoadErrV::DstNotSymlink {
                src: src@,
                dst: dst@,
            },
            LoadError::ParentNotADir { src, parent } => LoadErrV::ParentNotADir {
                src: src@,
                parent: parent@,
            },
            LoadError::DirectoryChanged { .. } => LoadErrV::DirectoryChanged,
        }
    }
}

/// Why an unload failed.
#[derive(Debug, PartialEq, Eq)]
pub enum UnloadError {
    Io(IoError),
    DstNotFound { src: String, dst: String },
    DstNotSymlink { src: String, dst: String },
}

/// The shape of an unload failure.
pub enum UnloadErrV {
    Io,
    DstNotFound { src: Seq<char>, dst: Seq<char> },
    DstNotSymlink { src: Seq<char>, dst: Seq<char> },
}

impl View for UnloadError {
    type V = UnloadErrV;

    open spec fn view(&self) -> UnloadErrV {
        match self {
            UnloadError::Io(_) => UnloadErrV::Io,
            UnloadError::DstNotFound { src, dst } => UnloadErrV::DstNotFound {
                src: src@,
                dst: dst@,
            },
            UnloadError::DstNotSymlink { src, dst } => UnloadErrV::DstNotSymlink {
                src: src@,
                dst: dst@,
            },
        }
    }
}

/// Why a runner operation failed.
#[derive(Debug, PartialEq, Eq)]
pub enum RunnerError {
    PkgsDirNotFound,
    PkgsDirNotADir,
    Io(IoError),
    LoadModuleError { source: LoadError, module: String },
    UnloadModuleError { source: UnloadError, module: String },
    NoActionToRollback,
}

/// The shape of a runner failure.
pub enum RunnerErrV {
    PkgsDirNotFound,
    PkgsDirNotADir,
    Io,
    LoadModuleError { source: LoadErrV, module: Seq<char> },
    UnloadModuleError { source: UnloadErrV, module: Seq<char> },
    NoActionToRollback,
}

impl View for RunnerError {
    type V = RunnerErrV;

    open spec fn view(&self) -> RunnerErrV {
        match self {
            RunnerError::PkgsDirNotFound => RunnerErrV::PkgsDirNotFound,
            RunnerError::PkgsDirNotADir => RunnerErrV::PkgsDirNotADir,
            RunnerError::Io(_) => RunnerErrV::Io,
            RunnerError::LoadModuleError { source, module } => RunnerErrV::LoadModuleError {
                source: source@,
                module: module@,
            },
            RunnerError::UnloadModuleError { source, module } => RunnerErrV::UnloadModuleError {
                source: source@,
                module: module@,
            },
            RunnerError::NoActionToRollback => RunnerErrV::NoActionToRollback,
        }
    }
}

impl RunnerError {
    /// The load failure inside; only for a load-module error.
    pub fn unwrap_load(self) -> (r: LoadError)
        requires
            self is LoadModuleError,
        ensures
            self@ matches RunnerErrV::LoadModuleError { source, .. } && r@ == source,
    {
        match self {
            RunnerError::LoadModuleError { source, .. } => source,
            _ => LoadError::Io(IoError { action: String::new() }),
        }
    }

    /// The unload failure inside; only for an unload-module error.
    pub fn unwrap_unload(self) -> (r: UnloadError)
        requires
            self is UnloadModuleError,
        ensures
            self@ matches RunnerErrV::UnloadModuleError { source, .. } && r@ == source,
    {
        match self {
            RunnerError::UnloadModuleError { source, .. } => source,
            _ => UnloadError::Io(IoError { action: String::new() }),
        }
    }
}

} // verus!
