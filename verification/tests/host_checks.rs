use chiral::probes::{
    chain_position, detect_host_pm, detect_install_source, get_system_version, host_query, replace_exec,
    split_words, system_has, system_probe_list, trim_start_matches_exec, Chain, HostPm, Probe, Step,
};

fn cmd(program: &str, args: &[&str], quiet: bool) -> Probe {
    Probe::Command { program: program.to_string(), args: args.iter().map(|a| a.to_string()).collect(), quiet }
}

fn path(p: &str) -> Probe {
    Probe::PathExists(p.to_string())
}

fn chars(s: &str) -> Vec<char> {
    s.chars().collect()
}

fn text(cs: Vec<char>) -> String {
    cs.into_iter().collect()
}

#[test]
fn chain_positions() {
    assert_eq!(chain_position(3, &[]), Chain::Next(0));
    assert_eq!(chain_position(3, &[false, false]), Chain::Next(2));
    assert_eq!(chain_position(3, &[false, true]), Chain::Hit(1));
    assert_eq!(chain_position(3, &[false, false, false]), Chain::Exhausted);
    assert_eq!(chain_position(2, &[false, false, true]), Chain::Exhausted);
}

#[test]
fn host_checks_in_order() {
    let ps = system_probe_list("zlib", HostPm::Pacman);
    assert_eq!(ps.len(), 19);
    assert_eq!(ps[0], Probe::InDatabase("zlib".to_string()));
    assert_eq!(ps[1], cmd("pacman", &["-Q", "zlib"], true));
    assert_eq!(ps[2], cmd("sh", &["-c", "command -v zlib"], true));
    assert_eq!(ps[3], cmd("pkg-config", &["--exists", "zlib"], true));
    assert_eq!(ps[4], cmd("pkg-config", &["--exists", "zlib"], true));
    assert_eq!(ps[5], cmd("pkg-config", &["--exists", "zlib"], true));
    assert_eq!(ps[6], cmd("pkg-config", &["--exists", "z"], true));
    assert_eq!(ps[7], path("/usr/bin/zlib"));
    assert_eq!(ps[10], path("/usr/lib/libzlib.so"));
    assert_eq!(ps[12], path("/usr/lib/libzlib.a"));
    assert_eq!(ps[14], path("/usr/include/zlib"));
    assert_eq!(ps[18], path("/usr/local/lib/pkgconfig/zlib.pc"));
}

#[test]
fn shared_library_checks() {
    let ps = system_probe_list("libz.so.1", HostPm::Unknown);
    assert_eq!(ps[0], Probe::InDatabase("libz.so.1".to_string()));
    assert_eq!(ps[1], cmd("sh", &["-c", "command -v libz.so.1"], true));
    assert_eq!(ps[2], cmd("sh", &["-c", "ldconfig -p 2>/dev/null | grep -q 'libz.so.1'"], false));
    assert_eq!(ps[3], path("/usr/lib/libz.so.1"));
    assert_eq!(ps[4], path("/lib/libz.so.1"));
    assert_eq!(ps[5], path("/usr/local/lib/libz.so.1"));
    assert_eq!(ps[6], path("/usr/lib/x86_64-linux-gnu/libz.so.1"));
    assert_eq!(ps[7], cmd("pkg-config", &["--exists", "libz.so.1"], true));
    assert_eq!(ps[8], cmd("pkg-config", &["--exists", "z.so.1"], true));
    assert_eq!(ps[18], path("/usr/include/z.so.1"));
    assert_eq!(ps.len(), 23);
}

#[test]
fn pkg_config_name_variants() {
    let ps = system_probe_list("alsa-lib", HostPm::Apt);
    assert_eq!(ps[1], cmd("dpkg", &["-s", "alsa-lib"], true));
    assert_eq!(ps[4], cmd("pkg-config", &["--exists", "alsa-lib"], true));
    assert_eq!(ps[5], cmd("pkg-config", &["--exists", "alsa_lib"], true));
    assert_eq!(ps[6], cmd("pkg-config", &["--exists", "alsa"], true));
    let ps = system_probe_list("libfoo-bar", HostPm::Rpm);
    assert_eq!(ps[1], cmd("rpm", &["-q", "libfoo-bar"], true));
    assert_eq!(ps[4], cmd("pkg-config", &["--exists", "foo-bar"], true));
    assert_eq!(ps[5], cmd("pkg-config", &["--exists", "libfoo_bar"], true));
    assert_eq!(ps[6], cmd("pkg-config", &["--exists", "foobar"], true));
}

#[test]
fn host_check_steps() {
    assert_eq!(system_has("zlib", HostPm::Pacman, &[]), Step::Run(Probe::InDatabase("zlib".to_string())));
    assert_eq!(system_has("zlib", HostPm::Pacman, &[false]), Step::Run(cmd("pacman", &["-Q", "zlib"], true)));
    assert_eq!(system_has("zlib", HostPm::Pacman, &[false, true]), Step::Done(true));
    assert_eq!(system_has("zlib", HostPm::Pacman, &[true]), Step::Done(true));
    assert_eq!(system_has("zlib", HostPm::Pacman, &[false; 19]), Step::Done(false));
    let mut answers = vec![false; 18];
    assert_eq!(system_has("zlib", HostPm::Pacman, &answers), Step::Run(path("/usr/local/lib/pkgconfig/zlib.pc")));
    answers.push(true);
    assert_eq!(system_has("zlib", HostPm::Pacman, &answers), Step::Done(true));
}

#[test]
fn host_package_manager() {
    assert_eq!(detect_host_pm(&[]), Step::Run(cmd("pacman", &["--version"], true)));
    assert_eq!(detect_host_pm(&[false]), Step::Run(cmd("dpkg", &["--version"], true)));
    assert_eq!(detect_host_pm(&[false, false]), Step::Run(cmd("rpm", &["--version"], true)));
    assert_eq!(detect_host_pm(&[true]), Step::Done(HostPm::Pacman));
    assert_eq!(detect_host_pm(&[false, true]), Step::Done(HostPm::Apt));
    assert_eq!(detect_host_pm(&[false, false, true]), Step::Done(HostPm::Rpm));
    assert_eq!(detect_host_pm(&[false, false, false]), Step::Done(HostPm::Unknown));
}

#[test]
fn host_queries() {
    assert_eq!(host_query(HostPm::Apt, "curl"), Some(cmd("dpkg", &["-s", "curl"], true)));
    assert_eq!(host_query(HostPm::Unknown, "curl"), None);
}

#[test]
fn install_source_of_rust_tools() {
    assert_eq!(detect_install_source("cargo", HostPm::Pacman, &[]), Step::Run(cmd("pacman", &["-Q", "cargo"], true)));
    assert_eq!(detect_install_source("cargo", HostPm::Pacman, &[false]), Step::Run(cmd("rustup", &["show"], true)));
    assert_eq!(detect_install_source("cargo", HostPm::Pacman, &[true]), Step::Done("pacman".to_string()));
    assert_eq!(detect_install_source("cargo", HostPm::Pacman, &[false, true]), Step::Done("rustup".to_string()));
    assert_eq!(detect_install_source("cargo", HostPm::Apt, &[false, false, true]), Step::Done("manual/PATH".to_string()));
}

#[test]
fn install_source_of_others() {
    assert_eq!(detect_install_source("gcc", HostPm::Apt, &[true]), Step::Done("apt/dpkg".to_string()));
    assert_eq!(detect_install_source("gcc", HostPm::Rpm, &[true]), Step::Done("rpm".to_string()));
    assert_eq!(detect_install_source("gcc", HostPm::Unknown, &[]), Step::Run(cmd("sh", &["-c", "command -v gcc"], true)));
    assert_eq!(detect_install_source("gcc", HostPm::Unknown, &[false]), Step::Run(cmd("pkg-config", &["--exists", "gcc"], true)));
    assert_eq!(detect_install_source("gcc", HostPm::Unknown, &[false, true]), Step::Done("manual/pkg-config".to_string()));
    assert_eq!(detect_install_source("gcc", HostPm::Unknown, &[false, false]), Step::Done("unknown".to_string()));
}

#[test]
fn versions_from_the_host() {
    assert_eq!(get_system_version(HostPm::Pacman, "zlib 1:1.3.1-2\n"), Some("1:1.3.1-2".to_string()));
    assert_eq!(get_system_version(HostPm::Pacman, "zlib"), None);
    assert_eq!(get_system_version(HostPm::Pacman, ""), None);
    let dpkg = "Package: make\nStatus: install ok installed\nVersion: 4.3-4.1\nDepends: libc6\n";
    assert_eq!(get_system_version(HostPm::Apt, dpkg), Some("4.3-4.1".to_string()));
    let epoch = "Package: zlib1g\nVersion: 1:1.2.13.dfsg-1\n";
    assert_eq!(get_system_version(HostPm::Apt, epoch), Some("1:1.2.13.dfsg-1".to_string()));
    let foo = "Package: foo\nStatus: install ok installed\nVersion: 1:2.3-4\n";
    assert_eq!(get_system_version(HostPm::Apt, foo), Some("1:2.3-4".to_string()));
    assert_eq!(get_system_version(HostPm::Apt, "dpkg-query: package 'x' is not installed\n"), None);
    assert_eq!(get_system_version(HostPm::Rpm, "  zlib-1.2.13-4.fc39.x86_64\n"), Some("zlib-1.2.13-4.fc39.x86_64".to_string()));
    assert_eq!(get_system_version(HostPm::Unknown, "anything"), None);
}

#[test]
fn text_helpers() {
    assert_eq!(text(trim_start_matches_exec(&chars("liblibx"), &chars("lib"))), "x");
    assert_eq!(text(trim_start_matches_exec(&chars("abc"), &chars(""))), "abc");
    assert_eq!(text(replace_exec(&chars("a-b-c"), &chars("-"), &chars("_"))), "a_b_c");
    assert_eq!(text(replace_exec(&chars("libxlib"), &chars("lib"), &chars(""))), "x");
    let ws: Vec<String> = split_words(&chars("  a b\t\nc  ")).into_iter().map(text).collect();
    assert_eq!(ws, vec!["a".to_string(), "b".to_string(), "c".to_string()]);
}
