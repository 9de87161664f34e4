use chiral::paths::{db_dir, db_file, install_dest, install_prefix, join_path, path_hint};

#[test]
fn prefix_for_root_and_user() {
    assert_eq!(install_prefix(true, None), Ok("/usr/local".to_string()));
    assert_eq!(install_prefix(false, Some("/home/u")), Ok("/home/u/.local".to_string()));
    assert_eq!(install_prefix(false, Some("/home/u/")), Ok("/home/u/.local".to_string()));
    assert_eq!(install_prefix(false, None), Err("$HOME is not set".to_string()));
}

#[test]
fn database_location() {
    assert_eq!(db_dir(true, Some("/home/u")), Ok("/var/lib/chiral".to_string()));
    assert_eq!(db_dir(false, Some("/home/u")), Ok("/home/u/.local/share/chiral".to_string()));
    assert_eq!(db_file(true, None), Ok("/var/lib/chiral/installed.db".to_string()));
    assert_eq!(db_file(false, Some("/h")), Ok("/h/.local/share/chiral/installed.db".to_string()));
    assert_eq!(db_file(false, None), Err("$HOME is not set".to_string()));
}

#[test]
fn join_like_pathbuf() {
    assert_eq!(join_path("/a", "b"), "/a/b");
    assert_eq!(join_path("/a/", "b"), "/a/b");
    assert_eq!(join_path("", "b"), "b");
    assert_eq!(join_path("/a", "/b"), "/b");
}

#[test]
fn entries_land_under_the_prefix() {
    assert_eq!(install_dest("/usr/local", "./usr/bin/foo"), Some("/usr/local/bin/foo".to_string()));
    assert_eq!(install_dest("/p", "opt/x/y"), Some("/p/opt/x/y".to_string()));
    assert_eq!(install_dest("/p", "bin//tool"), Some("/p/bin/tool".to_string()));
}

#[test]
fn entries_cannot_climb_out() {
    assert_eq!(install_dest("/p", "../../etc/passwd"), Some("/p/etc/passwd".to_string()));
    assert_eq!(install_dest("/p", "/etc/shadow"), Some("/p/etc/shadow".to_string()));
    assert_eq!(install_dest("/p", "a/../b"), Some("/p/a/b".to_string()));
}

#[test]
fn empty_entries_are_skipped() {
    assert_eq!(install_dest("/p", "./"), None);
    assert_eq!(install_dest("/p", "usr/"), None);
    assert_eq!(install_dest("/p", ""), None);
    assert_eq!(install_dest("/p", "/.."), None);
}

#[test]
fn hints_after_install() {
    assert_eq!(path_hint("/home/u/.local", "/usr/bin:/home/u/.local/bin", "", false), (false, true));
    assert_eq!(path_hint("/home/u/.local", "/usr/bin", "/home/u/.local/lib", false), (true, false));
    assert_eq!(path_hint("/usr/local", "/usr/local/bin/", "", true), (false, false));
    assert_eq!(path_hint("/usr/local", "/usr/local//bin:/bin", "", true), (false, false));
    assert_eq!(path_hint("/usr/local", "", "", true), (true, false));
}

use chiral::paths::{plan_entry, EntryAction, EntryKind};

#[test]
fn entry_plans() {
    assert_eq!(plan_entry("/p", "./usr/share/", EntryKind::Directory, Some(0o755), None), EntryAction::MakeDir("/p/share".to_string()));
    assert_eq!(
        plan_entry("/p", "usr/bin/tool", EntryKind::File, Some(0o755), None),
        EntryAction::Unpack { dest: "/p/bin/tool".to_string(), mode: 0o755 }
    );
    assert_eq!(
        plan_entry("/p", "lib/libx.so.1", EntryKind::File, None, None),
        EntryAction::Unpack { dest: "/p/lib/libx.so.1".to_string(), mode: 0o644 }
    );
    assert_eq!(
        plan_entry("/p", "lib/libx.so", EntryKind::Symlink, None, Some("libx.so.1".to_string())),
        EntryAction::Link { dest: "/p/lib/libx.so".to_string(), target: "libx.so.1".to_string() }
    );
    assert_eq!(plan_entry("/p", "lib/bad", EntryKind::Symlink, None, None), EntryAction::LinkWithoutTarget("/p/lib/bad".to_string()));
    assert_eq!(plan_entry("/p", "dev/null", EntryKind::Other, None, None), EntryAction::ParentOnly("/p/dev/null".to_string()));
    assert_eq!(plan_entry("/p", "usr", EntryKind::Directory, None, None), EntryAction::Skip);
}

#[test]
fn documented_package_layout() {
    assert_eq!(install_dest("/home/u/.local", "usr/bin/pkgname"), Some("/home/u/.local/bin/pkgname".to_string()));
    assert_eq!(install_dest("/usr/local", "usr/lib/libpkgname.so"), Some("/usr/local/lib/libpkgname.so".to_string()));
    assert_eq!(
        plan_entry("/usr/local", "usr/include/pkgname/", EntryKind::Directory, None, None),
        EntryAction::MakeDir("/usr/local/include/pkgname".to_string())
    );
}
