use pkgs::config::NamedPackage;
use pkgs::config::Package;
use pkgs::config::PackageType;
use pkgs::errors::LoadError;
use pkgs::errors::RunnerError;
use pkgs::errors::UnloadError;
use pkgs::fs_state::FsEntry;
use pkgs::fs_state::FsState;
use pkgs::logger::NullOutput;
use pkgs::message::LogMessage;
use pkgs::runner::Runner;
use pkgs::var::VarMap;

fn s(x: &str) -> String {
    x.to_string()
}

fn pkg(name: &str, maps: &[(&str, &str)]) -> NamedPackage {
    let package = Package {
        kind: PackageType::Local,
        vars: Vec::new(),
        maps: maps.iter().map(|(a, b)| (a.to_string(), b.to_string())).collect(),
    };
    let vars = VarMap::try_new(&Vec::new()).unwrap();
    NamedPackage::try_new(&name.to_string(), package, vars).unwrap()
}

fn base_fs() -> FsState {
    let mut fs = FsState::new();
    fs.set_entry(&s("/work"), FsEntry::Dir);
    fs.set_entry(&s("/work/mypkg"), FsEntry::Dir);
    fs.set_entry(&s("/work/mypkg/conf"), FsEntry::File);
    fs.set_entry(&s("/work/mypkg/data"), FsEntry::Dir);
    fs.set_entry(&s("/tgt"), FsEntry::Dir);
    fs
}

fn runner(fs: FsState) -> Runner<NullOutput> {
    Runner::new(s("/work"), fs, NullOutput)
}

fn std_pkg() -> NamedPackage {
    pkg("mypkg", &[("conf", "/tgt/conf"), ("data", "/tgt/sub/data")])
}

#[test]
fn first_load_links_everything() {
    let mut r = runner(base_fs());
    let trace = r.load_module(&std_pkg(), None).unwrap();
    assert_eq!(trace.directory, s("mypkg"));
    assert_eq!(trace.maps.len(), 2);
    assert_eq!(trace.maps[0], (s("conf"), s("/tgt/conf")));
    assert_eq!(trace.maps[1], (s("data"), s("/tgt/sub/data")));
    assert!(r.fs_state().is_symlink_for(&s("/tgt/conf"), &s("/work/mypkg/conf")));
    assert!(r.fs_state().is_symlink_for(&s("/tgt/sub/data"), &s("/work/mypkg/data")));
    assert!(r.fs_state().is_dir(&s("/tgt/sub")));
    let msgs = r.messages();
    assert_eq!(msgs.len(), 4);
    assert_eq!(msgs[0], LogMessage::LoadModule(s("mypkg")));
    assert_eq!(
        msgs[1],
        LogMessage::CreateSymlink { src: s("/work/mypkg/conf"), dst: s("/tgt/conf") }
    );
    assert_eq!(msgs[2], LogMessage::CreateDir(s("/tgt/sub")));
    assert_eq!(
        msgs[3],
        LogMessage::CreateSymlink { src: s("/work/mypkg/data"), dst: s("/tgt/sub/data") }
    );
}

#[test]
fn load_twice_is_idempotent() {
    let mut r1 = runner(base_fs());
    let trace = r1.load_module(&std_pkg(), None).unwrap();
    let fs_after = r1.fs_state().clone();
    let mut r2 = runner(fs_after);
    let trace2 = r2.load_module(&std_pkg(), Some(&trace)).unwrap();
    assert_eq!(trace2, trace);
    assert_eq!(r2.messages().len(), 1);
    assert_eq!(r2.messages()[0], LogMessage::LoadModule(s("mypkg")));
}

#[test]
fn one_changed_destination_swaps_one_link() {
    let mut r1 = runner(base_fs());
    let trace = r1.load_module(&std_pkg(), None).unwrap();
    let mut r2 = runner(r1.fs_state().clone());
    let changed = pkg("mypkg", &[("conf", "/tgt/conf2"), ("data", "/tgt/sub/data")]);
    let trace2 = r2.load_module(&changed, Some(&trace)).unwrap();
    assert_eq!(trace2.maps[0], (s("conf"), s("/tgt/conf2")));
    assert_eq!(trace2.maps[1], trace.maps[1]);
    let msgs = r2.messages();
    assert_eq!(msgs.len(), 3);
    assert_eq!(msgs[0], LogMessage::LoadModule(s("mypkg")));
    assert_eq!(
        msgs[1],
        LogMessage::RemoveSymlink { src: s("/work/mypkg/conf"), dst: s("/tgt/conf") }
    );
    assert_eq!(
        msgs[2],
        LogMessage::CreateSymlink { src: s("/work/mypkg/conf"), dst: s("/tgt/conf2") }
    );
    assert!(!r2.fs_state().exists_path(&s("/tgt/conf")));
    assert!(r2.fs_state().is_symlink_for(&s("/tgt/conf2"), &s("/work/mypkg/conf")));
}

#[test]
fn added_pair_creates_one_link() {
    let mut fs = base_fs();
    fs.set_entry(&s("/work/mypkg/extra"), FsEntry::File);
    let mut r1 = runner(fs);
    let trace = r1.load_module(&std_pkg(), None).unwrap();
    let mut r2 = runner(r1.fs_state().clone());
    let grown = pkg(
        "mypkg",
        &[("conf", "/tgt/conf"), ("data", "/tgt/sub/data"), ("extra", "/tgt/extra")],
    );
    let trace2 = r2.load_module(&grown, Some(&trace)).unwrap();
    assert_eq!(trace2.maps.len(), trace.maps.len() + 1);
    let msgs = r2.messages();
    assert_eq!(msgs.len(), 2);
    assert_eq!(
        msgs[1],
        LogMessage::CreateSymlink { src: s("/work/mypkg/extra"), dst: s("/tgt/extra") }
    );
}

#[test]
fn added_pair_under_missing_parent_creates_directory_first() {
    let mut fs = base_fs();
    fs.set_entry(&s("/work/mypkg/extra"), FsEntry::File);
    let mut r1 = runner(fs);
    let trace = r1.load_module(&std_pkg(), None).unwrap();
    let mut r2 = runner(r1.fs_state().clone());
    let grown = pkg(
        "mypkg",
        &[("conf", "/tgt/conf"), ("data", "/tgt/sub/data"), ("extra", "/newdir/extra")],
    );
    let trace2 = r2.load_module(&grown, Some(&trace)).unwrap();
    assert_eq!(trace2.maps.len(), trace.maps.len() + 1);
    let msgs = r2.messages();
    assert_eq!(msgs.len(), 3);
    assert_eq!(msgs[1], LogMessage::CreateDir(s("/newdir")));
    assert_eq!(
        msgs[2],
        LogMessage::CreateSymlink { src: s("/work/mypkg/extra"), dst: s("/newdir/extra") }
    );
}

#[test]
fn foreign_file_at_later_traced_destination_is_fatal() {
    let mut r1 = runner(base_fs());
    let trace = r1.load_module(&std_pkg(), None).unwrap();
    let mut r2 = runner(r1.fs_state().clone());
    // the second traced destination was replaced by a plain file
    r2.note_entry(&s("/tgt/sub/data"), FsEntry::File);
    let err = r2.load_module(&std_pkg(), Some(&trace)).unwrap_err().unwrap_load();
    match err {
        LoadError::DstNotSymlink { src, dst } => {
            assert_eq!(src, s("data"));
            assert_eq!(dst, s("/tgt/sub/data"));
        },
        other => panic!("unexpected error: {:?}", other),
    }
    // nothing was mutated: only the marker is journaled
    assert_eq!(r2.messages().len(), 1);
    assert!(r2.fs_state().exists_path(&s("/tgt/sub/data")));
    assert!(!r2.fs_state().is_symlink(&s("/tgt/sub/data")));
}

#[test]
fn removed_pair_removes_one_link() {
    let mut r1 = runner(base_fs());
    let trace = r1.load_module(&std_pkg(), None).unwrap();
    let mut r2 = runner(r1.fs_state().clone());
    let shrunk = pkg("mypkg", &[("conf", "/tgt/conf")]);
    let trace2 = r2.load_module(&shrunk, Some(&trace)).unwrap();
    assert_eq!(trace2.maps.len(), trace.maps.len() - 1);
    assert_eq!(trace2.maps[0], (s("conf"), s("/tgt/conf")));
    let msgs = r2.messages();
    assert_eq!(msgs.len(), 2);
    assert_eq!(
        msgs[1],
        LogMessage::RemoveSymlink { src: s("/work/mypkg/data"), dst: s("/tgt/sub/data") }
    );
    assert!(!r2.fs_state().exists_path(&s("/tgt/sub/data")));
    assert!(r2.fs_state().exists_path(&s("/tgt/conf")));
}

#[test]
fn rollback_after_load_restores_paths() {
    let mut r = runner(base_fs());
    r.load_module(&std_pkg(), None).unwrap();
    r.rollback().unwrap();
    assert!(!r.fs_state().exists_path(&s("/tgt/conf")));
    assert!(!r.fs_state().exists_path(&s("/tgt/sub")));
    assert!(!r.fs_state().exists_path(&s("/tgt/sub/data")));
    assert!(r.fs_state().exists_path(&s("/tgt")));
    assert!(r.fs_state().exists_path(&s("/work/mypkg/conf")));
    let n = r.messages().len();
    assert_eq!(r.messages()[4], LogMessage::RollbackLoadModule(s("mypkg")));
    assert_eq!(n, 8);
}

#[test]
fn second_rollback_has_nothing_to_undo() {
    let mut r = runner(base_fs());
    r.load_module(&std_pkg(), None).unwrap();
    r.rollback().unwrap();
    let err = r.rollback().unwrap_err();
    assert_eq!(err, RunnerError::NoActionToRollback);
}

#[test]
fn rollback_with_empty_journal_fails() {
    let mut r = runner(base_fs());
    let err = r.rollback().unwrap_err();
    assert_eq!(err, RunnerError::NoActionToRollback);
}

#[test]
fn partial_failure_keeps_prefix_and_rolls_back() {
    let mut fs = base_fs();
    // the second mapping's destination is already occupied
    fs.set_entry(&s("/tgt/sub"), FsEntry::Dir);
    fs.set_entry(&s("/tgt/sub/data"), FsEntry::File);
    let mut r = runner(fs);
    let err = r.load_module(&std_pkg(), None).unwrap_err().unwrap_load();
    match err {
        LoadError::DstAlreadyExists { src, dst } => {
            assert_eq!(src, s("data"));
            assert_eq!(dst, s("/tgt/sub/data"));
        },
        other => panic!("unexpected error: {:?}", other),
    }
    // the first mapping's link was made before the failure
    assert!(r.fs_state().is_symlink_for(&s("/tgt/conf"), &s("/work/mypkg/conf")));
    r.rollback().unwrap();
    assert!(!r.fs_state().exists_path(&s("/tgt/conf")));
    assert!(r.fs_state().exists_path(&s("/tgt/sub/data")));
}

#[test]
fn occupied_parent_fails_naming_the_source() {
    // the second mapping's destination parent is occupied by a plain file
    let mut fs = base_fs();
    fs.set_entry(&s("/blocked"), FsEntry::File);
    let p = pkg("mypkg", &[("conf", "/tgt/conf"), ("data", "/blocked/data")]);
    let mut r = runner(fs);
    let err = r.load_module(&p, None).unwrap_err().unwrap_load();
    match err {
        LoadError::ParentNotADir { src, parent } => {
            assert_eq!(src, s("data"));
            assert_eq!(parent, s("/blocked"));
        },
        other => panic!("unexpected error: {:?}", other),
    }
    // the first mapping's link was made; the journal holds only its entries
    {
        let msgs = r.messages();
        assert_eq!(msgs.len(), 2);
        assert_eq!(msgs[0], LogMessage::LoadModule(s("mypkg")));
        assert_eq!(
            msgs[1],
            LogMessage::CreateSymlink { src: s("/work/mypkg/conf"), dst: s("/tgt/conf") }
        );
    }
    assert!(r.fs_state().is_symlink_for(&s("/tgt/conf"), &s("/work/mypkg/conf")));
    assert!(!r.fs_state().exists_path(&s("/blocked/data")));
    // rollback restores the pre-call state; the blocking file is untouched
    r.rollback().unwrap();
    assert!(!r.fs_state().exists_path(&s("/tgt/conf")));
    assert!(r.fs_state().exists_path(&s("/blocked")));
    assert!(!r.fs_state().is_dir(&s("/blocked")));
}

#[test]
fn journal_entries_describe_themselves() {
    assert_eq!(LogMessage::LoadModule(s("x")).describe(), s("Load Module x"));
    assert_eq!(
        LogMessage::CreateSymlink { src: s("a"), dst: s("b") }.describe(),
        s("Create Symlink b -> a")
    );
    assert_eq!(LogMessage::RemoveDir(s("d")).describe(), s("Remove Directory d"));
    assert_eq!(LogMessage::RollbackUnloadModule(s("p")).describe(), s("Rollback Unload Module p"));
}

#[test]
fn foreign_file_at_traced_destination_is_fatal() {
    let mut r1 = runner(base_fs());
    let trace = r1.load_module(&std_pkg(), None).unwrap();
    let mut r2 = runner(r1.fs_state().clone());
    // somebody replaced the link with a plain file
    r2.note_entry(&s("/tgt/conf"), FsEntry::File);
    let err = r2.load_module(&std_pkg(), Some(&trace)).unwrap_err().unwrap_load();
    match err {
        LoadError::DstNotSymlink { src, dst } => {
            assert_eq!(src, s("conf"));
            assert_eq!(dst, s("/tgt/conf"));
        },
        other => panic!("unexpected error: {:?}", other),
    }
    // the foreign file was not deleted
    assert!(r2.fs_state().exists_path(&s("/tgt/conf")));
    assert!(!r2.fs_state().is_symlink(&s("/tgt/conf")));
}

#[test]
fn unload_removes_traced_links() {
    let mut r1 = runner(base_fs());
    let trace = r1.load_module(&std_pkg(), None).unwrap();
    let mut r2 = runner(r1.fs_state().clone());
    r2.unload_module(&s("mypkg"), &trace).unwrap();
    assert!(!r2.fs_state().exists_path(&s("/tgt/conf")));
    assert!(!r2.fs_state().exists_path(&s("/tgt/sub/data")));
    let msgs = r2.messages();
    assert_eq!(msgs.len(), 3);
    assert_eq!(msgs[0], LogMessage::UnloadModule(s("mypkg")));
}

#[test]
fn unload_missing_destination_fails_after_earlier_entries() {
    let mut r1 = runner(base_fs());
    let trace = r1.load_module(&std_pkg(), None).unwrap();
    let mut r2 = runner(r1.fs_state().clone());
    // the second traced destination was deleted by hand
    r2.note_absent(&s("/tgt/sub/data"));
    let err = r2.unload_module(&s("mypkg"), &trace).unwrap_err().unwrap_unload();
    match err {
        UnloadError::DstNotFound { src, dst } => {
            assert_eq!(src, s("data"));
            assert_eq!(dst, s("/tgt/sub/data"));
        },
        other => panic!("unexpected error: {:?}", other),
    }
    // the entry before it in order was already removed
    assert!(!r2.fs_state().exists_path(&s("/tgt/conf")));
}

#[test]
fn unload_foreign_file_is_fatal() {
    let mut r1 = runner(base_fs());
    let trace = r1.load_module(&std_pkg(), None).unwrap();
    let mut r2 = runner(r1.fs_state().clone());
    r2.note_entry(&s("/tgt/conf"), FsEntry::File);
    let err = r2.unload_module(&s("mypkg"), &trace).unwrap_err().unwrap_unload();
    match err {
        UnloadError::DstNotSymlink { src, dst } => {
            assert_eq!(src, s("conf"));
            assert_eq!(dst, s("/tgt/conf"));
        },
        other => panic!("unexpected error: {:?}", other),
    }
    assert!(r2.fs_state().exists_path(&s("/tgt/conf")));
}

#[test]
fn rollback_after_unload_recreates_links() {
    let mut r1 = runner(base_fs());
    let trace = r1.load_module(&std_pkg(), None).unwrap();
    let mut r2 = runner(r1.fs_state().clone());
    r2.unload_module(&s("mypkg"), &trace).unwrap();
    r2.rollback().unwrap();
    assert!(r2.fs_state().is_symlink_for(&s("/tgt/conf"), &s("/work/mypkg/conf")));
    assert!(r2.fs_state().is_symlink_for(&s("/tgt/sub/data"), &s("/work/mypkg/data")));
    let n = r2.messages().len();
    assert_eq!(r2.messages()[3], LogMessage::RollbackUnloadModule(s("mypkg")));
    assert_eq!(n, 6);
}

#[test]
fn missing_package_directory_is_reported() {
    let mut fs = FsState::new();
    fs.set_entry(&s("/work"), FsEntry::Dir);
    fs.set_entry(&s("/tgt"), FsEntry::Dir);
    let mut r = runner(fs);
    let err = r.load_module(&std_pkg(), None).unwrap_err().unwrap_load();
    match err {
        LoadError::PkgDirNotFound(name) => assert_eq!(name, s("mypkg")),
        other => panic!("unexpected error: {:?}", other),
    }
}

#[test]
fn missing_source_is_reported() {
    let mut fs = base_fs();
    fs.remove_path(&s("/work/mypkg/conf"));
    let mut r = runner(fs);
    let err = r.load_module(&std_pkg(), None).unwrap_err().unwrap_load();
    match err {
        LoadError::SrcNotExists(src) => assert_eq!(src, s("conf")),
        other => panic!("unexpected error: {:?}", other),
    }
}

#[test]
fn occupied_destination_is_reported() {
    let mut fs = base_fs();
    fs.set_entry(&s("/tgt/conf"), FsEntry::File);
    let mut r = runner(fs);
    let err = r.load_module(&std_pkg(), None).unwrap_err().unwrap_load();
    match err {
        LoadError::DstAlreadyExists { src, dst } => {
            assert_eq!(src, s("conf"));
            assert_eq!(dst, s("/tgt/conf"));
        },
        other => panic!("unexpected error: {:?}", other),
    }
}

#[test]
fn changed_storage_directory_is_refused() {
    let mut r = runner(base_fs());
    let prior = pkgs::trace::PkgTrace::new(s("otherdir"));
    let err = r.load_module(&std_pkg(), Some(&prior)).unwrap_err().unwrap_load();
    match err {
        LoadError::DirectoryChanged { old_directory, new_directory } => {
            assert_eq!(old_directory, s("otherdir"));
            assert_eq!(new_directory, s("mypkg"));
        },
        other => panic!("unexpected error: {:?}", other),
    }
}

#[test]
fn stale_trace_entry_with_missing_link_is_recreated() {
    let mut r1 = runner(base_fs());
    let trace = r1.load_module(&std_pkg(), None).unwrap();
    let mut r2 = runner(r1.fs_state().clone());
    // the traced link vanished; reload recreates it without complaint
    r2.note_absent(&s("/tgt/conf"));
    let trace2 = r2.load_module(&std_pkg(), Some(&trace)).unwrap();
    assert_eq!(trace2, trace);
    assert!(r2.fs_state().is_symlink_for(&s("/tgt/conf"), &s("/work/mypkg/conf")));
}

#[test]
fn create_pkgs_dir_creates_once() {
    let mut fs = FsState::new();
    fs.set_entry(&s("/work"), FsEntry::Dir);
    let mut r = runner(fs);
    let d = r.create_pkgs_dir().unwrap();
    assert_eq!(d, s("/work/.pkgs"));
    assert!(r.fs_state().is_dir(&s("/work/.pkgs")));
    assert_eq!(r.messages().len(), 1);
    let d2 = r.create_pkgs_dir().unwrap();
    assert_eq!(d2, s("/work/.pkgs"));
    assert_eq!(r.messages().len(), 1);
}

#[test]
fn pkgs_dir_occupied_by_file_is_refused() {
    let mut fs = FsState::new();
    fs.set_entry(&s("/work"), FsEntry::Dir);
    fs.set_entry(&s("/work/.pkgs"), FsEntry::File);
    let mut r = runner(fs);
    assert_eq!(r.create_pkgs_dir().unwrap_err(), RunnerError::PkgsDirNotADir);
    assert_eq!(r.get_pkgs_dir().unwrap_err(), RunnerError::PkgsDirNotADir);
}

#[test]
fn get_pkgs_dir_requires_existence() {
    let mut fs = FsState::new();
    fs.set_entry(&s("/work"), FsEntry::Dir);
    let r = runner(fs);
    assert_eq!(r.get_pkgs_dir().unwrap_err(), RunnerError::PkgsDirNotFound);
}

#[test]
fn engine_functions_drive_a_plain_logger() {
    let mut fs = base_fs();
    let mut logger = pkgs::logger::Logger::new(NullOutput);
    let trace = pkgs::engine::load(&mut fs, &s("/work"), &std_pkg(), None, &mut logger).unwrap();
    assert_eq!(logger.messages().len(), 4);
    assert_eq!(logger.messages()[0], LogMessage::LoadModule(s("mypkg")));
    pkgs::engine::unload(&mut fs, &s("/work"), &trace, &mut logger).unwrap();
    assert_eq!(logger.messages().len(), 6);
    assert!(!fs.exists_path(&s("/tgt/conf")));
    assert!(!fs.exists_path(&s("/tgt/sub/data")));
}

#[test]
fn absolute_path_from_joins_relative() {
    let r = runner(base_fs());
    assert_eq!(r.absolute_path_from(&s("a/b")), s("/work/a/b"));
    assert_eq!(r.absolute_path_from(&s("/a/b")), s("/a/b"));
}
