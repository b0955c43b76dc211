//! The journal keeper.  Every entry is pushed onto an in-memory list that
//! rollback and tests read back; a pluggable output sink sees each entry as
//! it is recorded.

use vstd::prelude::*;

use crate::message::Action;
use crate::message::LogMessage;

verus! {

/// A sink that observes each journal entry as it is recorded.
pub trait LoggerOutput {
    fn log(&mut self, message: &LogMessage);
}

/// A sink that discards everything.
#[derive(Debug, Clone, Copy, Default)]
pub struct NullOutput;

impl LoggerOutput for NullOutput {
    fn log(&mut self, _message: &LogMessage) {
    }
}

/// Records journal entries in order and forwards each to the output sink.
pub struct Logger<O: LoggerOutput> {
    output: O,
    messages: Vec<LogMessage>,
}

impl<O: LoggerOutput> Logger<O> {
    /// The journal so far, oldest first.
    pub closed spec fn view(&self) -> Seq<Action> {
        self.messages@.map_values(|m: LogMessage| m@)
    }

    /// A fresh logger with an empty journal.
    pub fn new(output: O) -> (r: Logger<O>)
        ensures
            r@ == Seq::<Action>::empty(),
    {
        let r = Logger { output, messages: Vec::new() };
        proof {
            assert(r@ =~= Seq::<Action>::empty());
        }
        r
    }

    /// The recorded entries.
    pub fn messages(&self) -> (r: &Vec<LogMessage>)
        ensures
            r@.len() == self@.len(),
            forall|i: int| 0 <= i < r@.len() ==> r@[i]@ == self@[i],
    {
        &self.messages
    }

    /// Records one entry.
    pub fn log(&mut self, message: LogMessage)
        ensures
            final(self)@ == old(self)@.push(message@),
    {
        self.output.log(&message);
        let ghost pre = self.messages@;
        self.messages.push(message);
        proof {
            assert(self@ =~= old(self)@.push(self.messages@.last()@));
        }
    }

    /// Marks the start of a load operation.
    pub fn load_module(&mut self, module: &String)
        ensures
            final(self)@ == old(self)@.push(Action::LoadModule(module@)),
    {
        self.log(LogMessage::LoadModule(module.clone()));
    }

    /// Marks the start of an unload operation.
    pub fn unload_module(&mut self, module: &String)
        ensures
            final(self)@ == old(self)@.push(Action::UnloadModule(module@)),
    {
        self.log(LogMessage::UnloadModule(module.clone()));
    }

    /// Marks the start of the rollback of a load.
    pub fn rollback_load_module(&mut self, module: &String)
        ensures
            final(self)@ == old(self)@.push(Action::RollbackLoadModule(module@)),
    {
        self.log(LogMessage::RollbackLoadModule(module.clone()));
    }

    /// Marks the start of the rollback of an unload.
    pub fn rollback_unload_module(&mut self, module: &String)
        ensures
            final(self)@ == old(self)@.push(Action::RollbackUnloadModule(module@)),
    {
        self.log(LogMessage::RollbackUnloadModule(module.clone()));
    }

    /// Records a directory creation.
    pub fn create_dir(&mut self, path: &String)
        ensures
            final(self)@ == old(self)@.push(Action::CreateDir(path@)),
    {
        self.log(LogMessage::CreateDir(path.clone()));
    }

    /// Records a symbolic-link creation.
    pub fn create_symlink(&mut self, src: &String, dst: &String)
        ensures
            final(self)@ == old(self)@.push(Action::CreateSymlink { src: src@, dst: dst@ }),
    {
        self.log(LogMessage::CreateSymlink { src: src.clone(), dst: dst.clone() });
    }

    /// Records a directory removal.
    pub fn remove_dir(&mut self, path: &String)
        ensures
            final(self)@ == old(self)@.push(Action::RemoveDir(path@)),
    {
        self.log(LogMessage::RemoveDir(path.clone()));
    }

    /// Records a symbolic-link removal.
    pub fn remove_symlink(&mut self, src: &String, dst: &String)
        ensures
            final(self)@ == old(self)@.push(Action::RemoveSymlink { src: src@, dst: dst@ }),
    {
        self.log(LogMessage::RemoveSymlink { src: src.clone(), dst: dst.clone() });
    }
}

} // verus!
