//! Journal entries: the primitive filesystem mutations the engine performs,
//! plus the markers that open each top-level operation's run of entries.

use vstd::prelude::*;
use vstd::string::StringExecFns;

verus! {

/// One journal entry, as the executable code records it.
#[derive(Debug, Clone, PartialEq, Eq)]
pub enum LogMessage {
    LoadModule(String),
    UnloadModule(String),
    RollbackLoadModule(String),
    RollbackUnloadModule(String),
    CreateDir(String),
    CreateSymlink { src: String, dst: String },
    RemoveDir(String),
    RemoveSymlink { src: String, dst: String },
}

/// The mathematical shape of a journal entry, over character sequences.
pub enum Action {
    LoadModule(Seq<char>),
    UnloadModule(Seq<char>),
    RollbackLoadModule(Seq<char>),
    RollbackUnloadModule(Seq<char>),
    CreateDir(Seq<char>),
    CreateSymlink { src: Seq<char>, dst: Seq<char> },
    RemoveDir(Seq<char>),
    RemoveSymlink { src: Seq<char>, dst: Seq<char> },
}

impl View for LogMessage {
    type V = Action;

    open spec fn view(&self) -> Action {
        match self {
            LogMessage::LoadModule(m) => Action::LoadModule(m@),
            LogMessage::UnloadModule(m) => Action::UnloadModule(m@),
            LogMessage::RollbackLoadModule(m) => Action::RollbackLoadModule(m@),
            LogMessage::RollbackUnloadModule(m) => Action::RollbackUnloadModule(m@),
            LogMessage::CreateDir(p) => Action::CreateDir(p@),
            LogMessage::CreateSymlink { src, dst } => Action::CreateSymlink { src: src@, dst: dst@ },
            LogMessage::RemoveDir(p) => Action::RemoveDir(p@),
            LogMessage::RemoveSymlink { src, dst } => Action::RemoveSymlink { src: src@, dst: dst@ },
        }
    }
}

/// The human-readable line an entry prints as.
pub open spec fn spec_describe(a: Action) -> Seq<char> {
    match a {
        Action::LoadModule(m) => "Load Module "@ + m,
        Action::UnloadModule(m) => "Unload Module "@ + m,
        Action::RollbackLoadModule(m) => "Rollback Load Module "@ + m,
        Action::RollbackUnloadModule(m) => "Rollback Unload Module "@ + m,
        Action::CreateDir(p) => "Create Directory "@ + p,
        Action::CreateSymlink { src, dst } => "Create Symlink "@ + dst + " -> "@ + src,
        Action::RemoveDir(p) => "Remove Directory "@ + p,
        Action::RemoveSymlink { src, dst } => "Remove Symlink "@ + dst + " -> "@ + src,
    }
}

impl LogMessage {
    /// The human-readable line this entry prints as.
    pub fn describe(&self) -> (r: String)
        ensures
            r@ == spec_describe(self@),
    {
        match self {
            LogMessage::LoadModule(m) => String::from_str("Load Module ").concat(m.as_str()),
            LogMessage::UnloadModule(m) => String::from_str("Unload Module ").concat(m.as_str()),
            LogMessage::RollbackLoadModule(m) => String::from_str("Rollback Load Module ").concat(
                m.as_str(),
            ),
            LogMessage::RollbackUnloadModule(m) => String::from_str(
                "Rollback Unload Module ",
            ).concat(m.as_str()),
            LogMessage::CreateDir(p) => String::from_str("Create Directory ").concat(p.as_str()),
            LogMessage::CreateSymlink { src, dst } => String::from_str("Create Symlink ").concat(
                dst.as_str(),
            ).concat(" -> ").concat(src.as_str()),
            LogMessage::RemoveDir(p) => String::from_str("Remove Directory ").concat(p.as_str()),
            LogMessage::RemoveSymlink { src, dst } => String::from_str("Remove Symlink ").concat(
                dst.as_str(),
            ).concat(" -> ").concat(src.as_str()),
        }
    }
}

impl Action {
    /// Whether this entry is one of the four markers that begin a run.
    pub open spec fn is_marker(self) -> bool {
        match self {
            Action::LoadModule(_) => true,
            Action::UnloadModule(_) => true,
            Action::RollbackLoadModule(_) => true,
            Action::RollbackUnloadModule(_) => true,
            _ => false,
        }
    }

    /// Whether this entry is a primitive mutation (not a marker).
    pub open spec fn is_mutation(self) -> bool {
        !self.is_marker()
    }
}

} // verus!
