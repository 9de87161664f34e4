use chiral::db::{db_add, db_files_for, db_get_entry, db_is_installed, db_list, db_remove_entry};

const RAW: &str = "[foo=1.0|github]\n/home/u/.local/bin/foo\n\n[bar=2.1-1|arch]\n/home/u/.local/lib/libbar.so\n\n";

fn entry(n: &str, v: &str, s: &str) -> (String, String, String) {
    (n.to_string(), v.to_string(), s.to_string())
}

#[test]
fn list_reads_every_header() {
    assert_eq!(db_list(RAW), vec![entry("foo", "1.0", "github"), entry("bar", "2.1-1", "arch")]);
}

#[test]
fn list_of_empty_database() {
    assert_eq!(db_list(""), Vec::<(String, String, String)>::new());
}

#[test]
fn list_fills_in_unknown_fields() {
    let raw = "  [x]  \n[y=1]\nnot a header\n[z=2|src|extra]\r\n";
    assert_eq!(
        db_list(raw),
        vec![entry("x", "unknown", "unknown"), entry("y", "1", "unknown"), entry("z", "2", "src|extra")]
    );
}

#[test]
fn files_of_a_package() {
    assert_eq!(db_files_for(RAW, "foo"), vec!["/home/u/.local/bin/foo".to_string()]);
    assert_eq!(db_files_for(RAW, "bar"), vec!["/home/u/.local/lib/libbar.so".to_string()]);
    assert_eq!(db_files_for(RAW, "baz"), Vec::<String>::new());
}

#[test]
fn files_are_trimmed() {
    let raw = "[foo=1|x]\n   /a/b  \n\t/c\n";
    assert_eq!(db_files_for(raw, "foo"), vec!["/a/b".to_string(), "/c".to_string()]);
}

#[test]
fn installed_and_entry() {
    assert!(db_is_installed(RAW, "foo"));
    assert!(db_is_installed(RAW, "bar"));
    assert!(!db_is_installed(RAW, "fo"));
    assert!(!db_is_installed("", "foo"));
    assert_eq!(db_get_entry(RAW, "bar"), Some(("2.1-1".to_string(), "arch".to_string())));
    assert_eq!(db_get_entry(RAW, "baz"), None);
}

#[test]
fn add_to_empty_database() {
    let files = vec!["/x/y".to_string()];
    assert_eq!(db_add("", "baz", "3", "debian", &files), "[baz=3|debian]\n/x/y\n\n");
}

#[test]
fn add_replaces_an_existing_block() {
    let files = vec!["/n/bin/foo".to_string(), "/n/lib/libfoo.so".to_string()];
    let out = db_add(RAW, "foo", "2.0", "arch", &files);
    assert_eq!(
        out,
        "[bar=2.1-1|arch]\n/home/u/.local/lib/libbar.so\n\n[foo=2.0|arch]\n/n/bin/foo\n/n/lib/libfoo.so\n\n"
    );
}

#[test]
fn add_then_lookup_gives_what_was_written() {
    let files = vec!["/p/bin/tool".to_string()];
    let out = db_add(RAW, "tool", "0.9", "github", &files);
    assert!(db_is_installed(&out, "tool"));
    assert_eq!(db_get_entry(&out, "tool"), Some(("0.9".to_string(), "github".to_string())));
    assert_eq!(db_files_for(&out, "tool"), files);
    assert_eq!(db_list(&out).last(), Some(&entry("tool", "0.9", "github")));
}

#[test]
fn remove_drops_the_block() {
    assert_eq!(db_remove_entry(RAW, "foo"), "[bar=2.1-1|arch]\n/home/u/.local/lib/libbar.so\n\n");
}

#[test]
fn remove_forgets_and_keeps_the_others() {
    let out = db_remove_entry(RAW, "bar");
    assert!(!db_is_installed(&out, "bar"));
    assert_eq!(db_files_for(&out, "bar"), Vec::<String>::new());
    assert_eq!(db_list(&out), vec![entry("foo", "1.0", "github")]);
    assert_eq!(db_files_for(&out, "foo"), vec!["/home/u/.local/bin/foo".to_string()]);
}

#[test]
fn remove_of_a_missing_package_keeps_the_text() {
    assert_eq!(db_remove_entry(RAW, "nothing"), RAW);
}

#[test]
fn add_then_remove_leaves_the_others() {
    let files = vec!["/p/bin/new".to_string()];
    let added = db_add(RAW, "new", "1", "debian", &files);
    let removed = db_remove_entry(&added, "new");
    assert_eq!(db_list(&removed), db_list(&db_remove_entry(RAW, "new")));
    assert_eq!(db_files_for(&removed, "new"), Vec::<String>::new());
    assert_eq!(removed, RAW);
}

#[test]
fn listed_exactly_when_an_entry_is_found() {
    for name in ["foo", "bar", "baz", "", "fo"] {
        assert_eq!(db_is_installed(RAW, name), db_get_entry(RAW, name).is_some());
    }
}

#[test]
fn documented_database_format() {
    let raw = "[alsa-lib=1.2.10-1|arch]\n/usr/local/lib/libasound.so\n/usr/local/include/alsa/asoundlib.h\n";
    assert_eq!(db_list(raw), vec![entry("alsa-lib", "1.2.10-1", "arch")]);
    assert_eq!(
        db_files_for(raw, "alsa-lib"),
        vec!["/usr/local/lib/libasound.so".to_string(), "/usr/local/include/alsa/asoundlib.h".to_string()]
    );
}

#[test]
fn adding_twice_is_adding_once() {
    let files = vec!["/p/bin/x".to_string(), "/p/lib/libx.so".to_string()];
    let once = db_add(RAW, "x", "1.0", "arch", &files);
    assert_eq!(db_add(&once, "x", "1.0", "arch", &files), once);
    let again = db_add(RAW, "foo", "1.0", "github", &vec!["/home/u/.local/bin/foo".to_string()]);
    assert_eq!(db_add(&again, "foo", "1.0", "github", &vec!["/home/u/.local/bin/foo".to_string()]), again);
}

#[test]
fn adding_twice_over_a_block_with_stray_returns() {
    let raw = "[x=0|a]\n/old\r\r\n[y=1|b]\n/y\n";
    let files = vec!["/p/bin/x".to_string()];
    let once = db_add(raw, "x", "1", "arch", &files);
    assert_eq!(db_add(&once, "x", "1", "arch", &files), once);
}
