use chiral::remote::{
    arch_download_url, arch_query, data_member, debian_find_deb, download_package, search_packages, self_update,
    ArchCandidate, ArchPkg, FetchStep, ReleaseAsset, UpdatePlan,
};

fn s(x: &str) -> String {
    x.to_string()
}

fn some(x: &str) -> Option<String> {
    Some(s(x))
}

fn candidate(repo: Option<&str>, name: Option<&str>, ver: Option<&str>, rel: Option<&str>) -> ArchCandidate {
    ArchCandidate {
        repo: repo.map(s),
        arch: None,
        pkgname: name.map(s),
        pkgver: ver.map(s),
        pkgrel: rel.map(s),
        depends: None,
    }
}

#[test]
fn arch_reply_without_results() {
    assert_eq!(arch_query("foo", &None), Err(s("No results from Arch API")));
    assert_eq!(arch_query("foo", &Some(vec![])), Err(s("'foo' not found in Arch repos")));
}

#[test]
fn arch_prefers_core_and_extra() {
    let mut main = candidate(Some("extra"), Some("foo"), Some("1.2"), Some("3"));
    main.arch = some("x86_64");
    main.depends = Some(vec![some("glib2>=2.80"), None, some(" bar = 1 "), some("sh")]);
    let results = Some(vec![candidate(Some("multilib"), Some("lib32-foo"), Some("9"), Some("9")), main]);
    let pkg = arch_query("foo", &results).unwrap();
    assert_eq!(
        pkg,
        ArchPkg {
            repo: s("extra"),
            pkgname: s("foo"),
            version: s("1.2-3"),
            arch: s("x86_64"),
            depends: vec![s("glib2"), s("bar"), s("sh")],
        }
    );
}

#[test]
fn arch_falls_back_to_the_first_result() {
    let results = Some(vec![candidate(Some("multilib"), None, None, None), candidate(None, Some("x"), Some("2"), None)]);
    let pkg = arch_query("foo", &results).unwrap();
    assert_eq!(pkg.repo, "multilib");
    assert_eq!(pkg.pkgname, "foo");
    assert_eq!(pkg.version, "-1");
    assert_eq!(pkg.arch, "x86_64");
    assert_eq!(pkg.depends, Vec::<String>::new());
}

#[test]
fn arch_defaults_for_missing_fields() {
    let results = Some(vec![candidate(None, None, Some("0.5"), None)]);
    let pkg = arch_query("bar", &results).unwrap();
    assert_eq!(pkg.repo, "extra");
    assert_eq!(pkg.pkgname, "bar");
    assert_eq!(pkg.version, "0.5-1");
}

#[test]
fn arch_mirror_address() {
    let pkg = ArchPkg { repo: s("core"), pkgname: s("zlib"), version: s("1:1.3.1-2"), arch: s("x86_64"), depends: vec![] };
    assert_eq!(
        arch_download_url(&pkg),
        "https://mirror.rackspace.com/archlinux/core/os/x86_64/zlib-1:1.3.1-2-x86_64.pkg.tar.zst"
    );
}

#[test]
fn debian_page_link() {
    let page = "<html>\n<li><a href=\"http://ftp.us.debian.org/x.deb\">us</a></li>\n<li><a href=\"http://deb.debian.org/debian/pool/main/h/hello/hello_2.10-3_amd64.deb\">deb.debian.org/debian</a></li>\n</html>\n";
    assert_eq!(
        debian_find_deb("hello", page),
        Ok((s("http://deb.debian.org/debian/pool/main/h/hello/hello_2.10-3_amd64.deb"), s("2.10-3")))
    );
}

#[test]
fn debian_page_without_link() {
    let page = "<p>deb.debian.org has no .deb link here</p>\n<a href=\"http://deb.debian.org/x.deb.html\">deb</a>\n";
    assert_eq!(debian_find_deb("hello", page), Err(s("Could not find 'hello' in Debian stable")));
}

#[test]
fn debian_version_unknown_without_underscore() {
    let page = "<a href=\"http://deb.debian.org/pool/foo.deb\">.deb</a>";
    assert_eq!(debian_find_deb("foo", page), Ok((s("http://deb.debian.org/pool/foo.deb"), s("unknown"))));
}

#[test]
fn debian_data_member() {
    let names = vec![s("debian-binary"), s("control.tar.xz"), s("data.tar.xz")];
    assert_eq!(data_member(&names), Some(2));
    assert_eq!(data_member(&vec![s("control.tar.gz")]), None);
}

#[test]
fn search_ignores_case() {
    let names = vec![some("zlib.tar.gz"), some("ZLIBX.tar.gz"), some("zlib.txt"), None, some("foo.tar.gz")];
    let installed = vec![(s("zlib"), s("1"), s("github"))];
    assert_eq!(
        search_packages("ZL", &names, &installed),
        vec![(s("zlib"), true), (s("ZLIBX"), false)]
    );
}

#[test]
fn search_with_empty_query_lists_all_packages() {
    let names = vec![some("a.tar.gz"), some("b.tar.gz.tar.gz"), some("readme")];
    assert_eq!(search_packages("", &names, &vec![]), vec![(s("a"), false), (s("b"), false)]);
}

#[test]
fn self_update_plans() {
    assert_eq!(self_update("2.0.0", &None, &None), Err(s("Could not get latest version")));
    assert_eq!(self_update("2.0.0", &some("v2.0.0"), &None), Ok(UpdatePlan::UpToDate));
    assert_eq!(self_update("2.0.0", &some("2.0.0"), &None), Ok(UpdatePlan::UpToDate));
    assert_eq!(self_update("2.0.0", &some("v2.1.0"), &None), Err(s("No assets in release")));
    let assets = vec![
        ReleaseAsset { name: some("chiral.sha256"), url: some("u1") },
        ReleaseAsset { name: None, url: some("u0") },
        ReleaseAsset { name: some("chiral-x86_64-linux"), url: some("u2") },
        ReleaseAsset { name: some("chiral"), url: some("u3") },
    ];
    assert_eq!(
        self_update("2.0.0", &some("vv2.1.0"), &Some(assets)),
        Ok(UpdatePlan::Download { version: s("2.1.0"), url: s("u2") })
    );
}

#[test]
fn self_update_without_program() {
    let no_url = vec![ReleaseAsset { name: some("chiral"), url: None }, ReleaseAsset { name: some("chiral-x86_64"), url: some("u") }];
    assert_eq!(self_update("1", &some("v2"), &Some(no_url)), Err(s("No 'chiral' binary found in release assets")));
    let none = vec![ReleaseAsset { name: some("readme"), url: some("u") }];
    assert_eq!(self_update("1", &some("v2"), &Some(none)), Err(s("No 'chiral' binary found in release assets")));
}

#[test]
fn fetch_tries_sources_in_turn() {
    assert_eq!(
        download_package("foo", &vec![]),
        FetchStep::TryGitHub(s("https://raw.githubusercontent.com/Amaterus1125/chpm/main/packages/foo.tar.gz"))
    );
    assert_eq!(download_package("foo", &vec![None]), FetchStep::TryDebian);
    assert_eq!(download_package("foo", &vec![None, None]), FetchStep::TryArch);
    assert_eq!(
        download_package("foo", &vec![None, None, None]),
        FetchStep::NotFound(s("'foo' not found in GitHub packages, Debian stable, or Arch Linux repos."))
    );
}

#[test]
fn fetch_reports_the_first_success() {
    assert_eq!(download_package("foo", &vec![some("x")]), FetchStep::Fetched { source: s("github"), version: s("latest") });
    assert_eq!(download_package("foo", &vec![None, some("2.10-3")]), FetchStep::Fetched { source: s("debian"), version: s("2.10-3") });
    assert_eq!(download_package("foo", &vec![None, None, some("1.2-3")]), FetchStep::Fetched { source: s("arch"), version: s("1.2-3") });
}

use chiral::remote::{arch_query_text, search_index, self_update_text};

#[test]
fn arch_reply_text() {
    let body = r#"{"version":2,"results":[{"repo":"community","pkgname":"x"},{"repo":"core","arch":"x86_64","pkgname":"zlib","pkgver":"1:1.3.1","pkgrel":2,"depends":["glibc>=2.38",3,"sh"]}]}"#;
    let pkg = arch_query_text("zlib", body).unwrap();
    assert_eq!(pkg.repo, "core");
    assert_eq!(pkg.version, "1:1.3.1-1");
    assert_eq!(pkg.depends, vec![s("glibc"), s("sh")]);
    assert_eq!(arch_query_text("zlib", r#"{"results":[]}"#), Err(s("'zlib' not found in Arch repos")));
    assert_eq!(arch_query_text("zlib", r#"{"error":"x"}"#), Err(s("No results from Arch API")));
    assert!(arch_query_text("zlib", "not json").unwrap_err().starts_with("Arch API parse error: "));
}

#[test]
fn index_reply_text() {
    let body = r#"[{"name":"Zlib.tar.gz"},{"name":"readme.md"},{"path":"x"},{"name":"zstd.tar.gz"}]"#;
    let installed = vec![(s("zstd"), s("1"), s("github"))];
    assert_eq!(search_index("z", body, &installed), Ok(vec![(s("Zlib"), false), (s("zstd"), true)]));
    assert_eq!(search_index("z", r#"{"message":"rate limited"}"#, &vec![]), Err(s("Unexpected response from GitHub")));
    assert!(search_index("z", "<html>", &vec![]).unwrap_err().starts_with("Failed to parse index: "));
}

#[test]
fn release_reply_text() {
    let body = r#"{"tag_name":"v2.1.0","assets":[{"name":"chiral","browser_download_url":"https://x/chiral"}]}"#;
    assert_eq!(
        self_update_text("2.0.0", body),
        (Some(s("2.1.0")), Ok(UpdatePlan::Download { version: s("2.1.0"), url: s("https://x/chiral") }))
    );
    assert_eq!(self_update_text("2.1.0", body), (Some(s("2.1.0")), Ok(UpdatePlan::UpToDate)));
    assert_eq!(self_update_text("2.0.0", r#"{"tag_name":"v3"}"#), (Some(s("3")), Err(s("No assets in release"))));
    assert_eq!(self_update_text("2.0.0", "{}"), (None, Err(s("Could not get latest version"))));
    let (latest, plan) = self_update_text("2.0.0", "oops");
    assert_eq!(latest, None);
    assert!(plan.unwrap_err().starts_with("Parse error: "));
}
