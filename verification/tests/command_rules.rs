use chiral::commands::{group_files, info_status, install_check, remove_check, update_target, InfoStatus, UpdateTarget};

const RAW: &str = "[foo=1.0|github]\n/u/bin/foo\n\n[bar=2|arch]\n/u/lib/libbar.so\n\n";

fn s(x: &str) -> String {
    x.to_string()
}

#[test]
fn install_refused_when_installed() {
    assert_eq!(install_check(RAW, "foo"), Err(s("'foo' is already installed. Use 'chiral update foo' to upgrade.")));
    assert_eq!(install_check(RAW, "baz"), Ok(()));
    assert_eq!(install_check("", "foo"), Ok(()));
}

#[test]
fn remove_refused_when_missing() {
    assert_eq!(remove_check(RAW, "baz"), Err(s("'baz' is not installed.")));
    assert_eq!(remove_check(RAW, "bar"), Ok(()));
}

#[test]
fn update_targets() {
    assert_eq!(update_target(RAW, "all"), Ok(UpdateTarget::Every(vec![s("foo"), s("bar")])));
    assert_eq!(update_target("", "all"), Ok(UpdateTarget::Every(vec![])));
    assert_eq!(update_target(RAW, "foo"), Ok(UpdateTarget::One));
    assert_eq!(update_target(RAW, "baz"), Err(s("'baz' is not installed. Use 'chiral install baz' first.")));
}

#[test]
fn info_reports() {
    assert_eq!(info_status(RAW, "foo", false), InfoStatus::Managed(s("1.0"), s("github")));
    assert_eq!(info_status(RAW, "bar", true), InfoStatus::Managed(s("2"), s("arch")));
    assert_eq!(info_status(RAW, "zsh", true), InfoStatus::Foreign);
    assert_eq!(info_status(RAW, "zsh", false), InfoStatus::Missing(s("'zsh' is not installed by chiral or found on this system.")));
}

#[test]
fn files_grouped_for_display() {
    let files = vec![
        s("/u/.local/bin/foo"),
        s("/u/.local/lib/libfoo.so"),
        s("/u/.local/include/foo.h"),
        s("/u/.local/share/man/man1/foo.1"),
        s("/u/.local/share/doc/x"),
        s("/u/.local/lib/bin/odd"),
    ];
    let [bins, libs, hdrs, mans, rest] = group_files(&files);
    assert_eq!(bins, vec![s("/u/.local/bin/foo"), s("/u/.local/lib/bin/odd")]);
    assert_eq!(libs, vec![s("/u/.local/lib/libfoo.so")]);
    assert_eq!(hdrs, vec![s("/u/.local/include/foo.h")]);
    assert_eq!(mans, vec![s("/u/.local/share/man/man1/foo.1")]);
    assert_eq!(rest, vec![s("/u/.local/share/doc/x")]);
}

use chiral::commands::{install_queue, upgrade_plan, UpgradeStep};

#[test]
fn install_queue_skips_present_and_ends_with_the_package() {
    let deps = vec![s("lib"), s("tool"), s("data")];
    assert_eq!(install_queue("app", &deps, &vec![true, false, false]), vec![s("tool"), s("data"), s("app")]);
    assert_eq!(install_queue("app", &deps, &vec![true, true, true]), vec![s("app")]);
    assert_eq!(install_queue("app", &vec![], &vec![]), vec![s("app")]);
}

#[test]
fn upgrade_removes_then_installs_each() {
    let steps = upgrade_plan(&vec![s("foo"), s("bar")]);
    assert_eq!(
        steps,
        vec![
            UpgradeStep::Remove(s("foo")),
            UpgradeStep::Install(s("foo")),
            UpgradeStep::Remove(s("bar")),
            UpgradeStep::Install(s("bar")),
        ]
    );
    assert_eq!(upgrade_plan(&vec![]), vec![]);
}
