//! The four primitive mutations.  Each one checks the model, mutates it,
//! and journals the action, or refuses and leaves everything unchanged —
//! exactly the conditions the action semantics describes.

use vstd::prelude::*;
use vstd::string::StringExecFns;

use crate::errors::IoError;
use crate::fs_state::Entry;
use crate::fs_state::FsEntry;
use crate::fs_state::FsState;
use crate::logger::Logger;
use crate::logger::LoggerOutput;
use crate::message::Action;
use crate::semantics::apply;

verus! {

/// Creates directory `path`.  Succeeds silently when a directory is already
/// there; refuses when something else occupies the path.
pub fn create_dir<O: LoggerOutput>(
    fs: &mut FsState,
    logger: &mut Logger<O>,
    path: &String,
) -> (r: Result<(), IoError>)
    requires
        old(fs).wf(),
    ensures
        final(fs).wf(),
        match r {
            Ok(()) => if !old(fs)@.contains_key(path@) {
                final(fs)@ == apply(old(fs)@, Action::CreateDir(path@)) && final(logger)@ == old(
                    logger,
                )@.push(Action::CreateDir(path@))
            } else {
                old(fs)@[path@] is Dir && final(fs)@ == old(fs)@ && final(logger)@ == old(logger)@
            },
            Err(_) => {
                &&& old(fs)@.contains_key(path@)
                &&& !(old(fs)@[path@] is Dir)
                &&& final(fs)@ == old(fs)@
                &&& final(logger)@ == old(logger)@
            },
        },
{
    match fs.entry_at(path) {
        None => {
            fs.set_entry(path, FsEntry::Dir);
            logger.create_dir(path);
            Ok(())
        },
        Some(FsEntry::Dir) => Ok(()),
        Some(_) => Err(
            IoError { action: String::from_str("create dir ").concat(path.as_str()) },
        ),
    }
}

/// Creates a symbolic link at `dst` pointing to `src`.  Refuses when the
/// source does not exist or the destination is occupied.
pub fn create_symlink<O: LoggerOutput>(
    fs: &mut FsState,
    logger: &mut Logger<O>,
    src: &String,
    dst: &String,
) -> (r: Result<(), IoError>)
    requires
        old(fs).wf(),
    ensures
        final(fs).wf(),
        match r {
            Ok(()) => {
                &&& old(fs)@.contains_key(src@)
                &&& !old(fs)@.contains_key(dst@)
                &&& final(fs)@ == apply(old(fs)@, Action::CreateSymlink { src: src@, dst: dst@ })
                &&& final(logger)@ == old(logger)@.push(
                    Action::CreateSymlink { src: src@, dst: dst@ },
                )
            },
            Err(_) => {
                &&& (!old(fs)@.contains_key(src@) || old(fs)@.contains_key(dst@))
                &&& final(fs)@ == old(fs)@
                &&& final(logger)@ == old(logger)@
            },
        },
{
    if !fs.exists_path(src) || fs.exists_path(dst) {
        return Err(IoError { action: String::from_str("create symlink ").concat(dst.as_str()) });
    }
    fs.set_entry(dst, FsEntry::Symlink { target: src.clone() });
    logger.create_symlink(src, dst);
    Ok(())
}

/// Removes the entry at `dst`, journalling it as the removal of the link
/// for `src`.  Refuses when nothing is there or a directory is.
pub fn remove_symlink<O: LoggerOutput>(
    fs: &mut FsState,
    logger: &mut Logger<O>,
    src: &String,
    dst: &String,
) -> (r: Result<(), IoError>)
    requires
        old(fs).wf(),
    ensures
        final(fs).wf(),
        match r {
            Ok(()) => {
                &&& old(fs)@.contains_key(dst@)
                &&& !(old(fs)@[dst@] is Dir)
                &&& final(fs)@ == apply(old(fs)@, Action::RemoveSymlink { src: src@, dst: dst@ })
                &&& final(logger)@ == old(logger)@.push(
                    Action::RemoveSymlink { src: src@, dst: dst@ },
                )
            },
            Err(_) => {
                &&& (!old(fs)@.contains_key(dst@) || old(fs)@[dst@] is Dir)
                &&& final(fs)@ == old(fs)@
                &&& final(logger)@ == old(logger)@
            },
        },
{
    match fs.entry_at(dst) {
        None | Some(FsEntry::Dir) => Err(
            IoError { action: String::from_str("remove symlink ").concat(dst.as_str()) },
        ),
        Some(_) => {
            fs.remove_path(dst);
            logger.remove_symlink(src, dst);
            Ok(())
        },
    }
}

/// Removes the directory at `path`.  Refuses when nothing is there or the
/// entry is not a directory.
pub fn remove_dir<O: LoggerOutput>(fs: &mut FsState, logger: &mut Logger<O>, path: &String) -> (r:
    Result<(), IoError>)
    requires
        old(fs).wf(),
    ensures
        final(fs).wf(),
        match r {
            Ok(()) => {
                &&& old(fs)@.contains_key(path@)
                &&& old(fs)@[path@] is Dir
                &&& final(fs)@ == apply(old(fs)@, Action::RemoveDir(path@))
                &&& final(logger)@ == old(logger)@.push(Action::RemoveDir(path@))
            },
            Err(_) => {
                &&& (!old(fs)@.contains_key(path@) || !(old(fs)@[path@] is Dir))
                &&& final(fs)@ == old(fs)@
                &&& final(logger)@ == old(logger)@
            },
        },
{
    match fs.entry_at(path) {
        Some(FsEntry::Dir) => {
            fs.remove_path(path);
            logger.remove_dir(path);
            Ok(())
        },
        _ => Err(IoError { action: String::from_str("remove dir ").concat(path.as_str()) }),
    }
}

} // verus!
