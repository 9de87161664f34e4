//! What the package manager makes of the answers of the package sources: the Arch
//! package search, Debian's download page, the release feed. Fetching them is the
//! caller's; the replies come here as plain values.
use vstd::prelude::*;
use crate::text::{chars_of, stop_index, copy_range, trim_chars, string_of, has_suffix, has_prefix, contains_chars, find_chars, same_chars};

verus! {

/// A string field of a reply, as text.
pub open spec fn opt_view(o: Option<String>) -> Option<Seq<char>> {
    match o {
        Some(s) => Some(s@),
        None => None,
    }
}

/// The text of `o`, or `d` when it is absent.
pub open spec fn or_text(o: Option<Seq<char>>, d: Seq<char>) -> Seq<char> {
    match o {
        Some(s) => s,
        None => d,
    }
}

fn opt_text(o: &Option<String>, d: &str) -> (out: String)
    ensures
        out@ == or_text(opt_view(*o), d@),
{
    match o {
        Some(s) => s.clone(),
        None => String::from_str(d),
    }
}

// ---------------------------------------------------------------------------
// The Arch package search
// ---------------------------------------------------------------------------

/// One result of the Arch package search: each field the string the reply holds
/// there, absent where it holds none; `depends` absent when the reply has no list there,
/// and an entry absent where the list holds something other than a string.
#[derive(Debug, PartialEq, Eq)]
pub struct ArchCandidate {
    pub repo: Option<String>,
    pub arch: Option<String>,
    pub pkgname: Option<String>,
    pub pkgver: Option<String>,
    pub pkgrel: Option<String>,
    pub depends: Option<Vec<Option<String>>>,
}

/// A search result as text.
pub struct CandidateView {
    pub repo: Option<Seq<char>>,
    pub arch: Option<Seq<char>>,
    pub pkgname: Option<Seq<char>>,
    pub pkgver: Option<Seq<char>>,
    pub pkgrel: Option<Seq<char>>,
    pub depends: Option<Seq<Option<Seq<char>>>>,
}

impl View for ArchCandidate {
    type V = CandidateView;

    open spec fn view(&self) -> CandidateView {
        CandidateView {
            repo: opt_view(self.repo),
            arch: opt_view(self.arch),
            pkgname: opt_view(self.pkgname),
            pkgver: opt_view(self.pkgver),
            pkgrel: opt_view(self.pkgrel),
            depends: match self.depends {
                Some(ds) => Some(ds@.map_values(|d: Option<String>| opt_view(d))),
                None => None,
            },
        }
    }
}

/// A package found in the Arch repositories.
#[derive(Debug, PartialEq, Eq)]
pub struct ArchPkg {
    pub repo: String,
    pub pkgname: String,
    /// `pkgver-pkgrel`.
    pub version: String,
    pub arch: String,
    pub depends: Vec<String>,
}

/// An Arch package as text.
pub struct ArchPkgView {
    pub repo: Seq<char>,
    pub pkgname: Seq<char>,
    pub version: Seq<char>,
    pub arch: Seq<char>,
    pub depends: Seq<Seq<char>>,
}

impl View for ArchPkg {
    type V = ArchPkgView;

    open spec fn view(&self) -> ArchPkgView {
        ArchPkgView {
            repo: self.repo@,
            pkgname: self.pkgname@,
            version: self.version@,
            arch: self.arch@,
            depends: self.depends.deep_view(),
        }
    }
}

/// The characters that start a version constraint in an Arch dependency.
pub open spec fn constraint_stops() -> Seq<char> {
    seq!['>', '<', '=']
}

/// An Arch dependency without its version constraint ("glib2>=2.80" gives "glib2").
pub open spec fn dep_name(d: Seq<char>) -> Seq<char> {
    crate::text::trimmed(crate::text::before_stop(d, constraint_stops()))
}

/// The names of the string entries of a dependency list, in order.
pub open spec fn dep_names(ds: Seq<Option<Seq<char>>>) -> Seq<Seq<char>>
    decreases ds.len(),
{
    if ds.len() == 0 {
        seq![]
    } else {
        let rest = dep_names(ds.drop_last());
        match ds.last() {
            Some(d) => rest.push(dep_name(d)),
            None => rest,
        }
    }
}

/// A result from the core or extra repository.
pub open spec fn is_main_repo(c: CandidateView) -> bool {
    c.repo == Some("core"@) || c.repo == Some("extra"@)
}

/// The first result from `k` on that comes from core or extra.
pub open spec fn first_main(cs: Seq<CandidateView>, k: int) -> Option<int>
    decreases cs.len() - k,
{
    if k < 0 || k >= cs.len() {
        None
    } else if is_main_repo(cs[k]) {
        Some(k)
    } else {
        first_main(cs, k + 1)
    }
}

/// The result taken: the first from core or extra, else the first of all.
pub open spec fn chosen(cs: Seq<CandidateView>) -> int {
    match first_main(cs, 0) {
        Some(i) => i,
        None => 0,
    }
}

/// The package a result describes, with the defaults for what it lacks: repository
/// `extra`, the searched name, an empty `pkgver`, `pkgrel` 1, architecture `x86_64`, no
/// dependencies.
pub open spec fn pkg_of(c: CandidateView, package: Seq<char>) -> ArchPkgView {
    ArchPkgView {
        repo: or_text(c.repo, "extra"@),
        pkgname: or_text(c.pkgname, package),
        version: or_text(c.pkgver, Seq::empty()) + seq!['-'] + or_text(c.pkgrel, "1"@),
        arch: or_text(c.arch, "x86_64"@),
        depends: match c.depends {
            Some(ds) => dep_names(ds),
            None => seq![],
        },
    }
}

/// What the Arch search answers for `package`, given the reply's result list (absent
/// when the reply has none).
pub open spec fn arch_pick(package: Seq<char>, results: Option<Seq<CandidateView>>) -> Result<ArchPkgView, Seq<char>> {
    match results {
        None => Err("No results from Arch API"@),
        Some(cs) => if cs.len() == 0 {
            Err("'"@ + package + "' not found in Arch repos"@)
        } else {
            Ok(pkg_of(cs[chosen(cs)], package))
        },
    }
}

/// The result list of a reply, as text.
pub open spec fn results_view(results: Option<Vec<ArchCandidate>>) -> Option<Seq<CandidateView>> {
    match results {
        Some(v) => Some(v@.map_values(|c: ArchCandidate| c@)),
        None => None,
    }
}

/// A package or an error, as text.
pub open spec fn pkg_result_view(r: Result<ArchPkg, String>) -> Result<ArchPkgView, Seq<char>> {
    match r {
        Ok(p) => Ok(p@),
        Err(e) => Err(e@),
    }
}

fn dep_name_exec(d: &String) -> (out: String)
    ensures
        out@ == dep_name(d@),
{
    let cs = chars_of(d.as_str());
    let stops = ['>', '<', '='];
    let k = stop_index(cs.as_slice(), stops.as_slice());
    proof {
        assert(stops@ == constraint_stops());
    }
    let head = copy_range(cs.as_slice(), 0, k);
    let t = trim_chars(head.as_slice());
    string_of(t.as_slice())
}

fn dep_names_exec(ds: &Vec<Option<String>>) -> (out: Vec<String>)
    ensures
        out.deep_view() == dep_names(ds@.map_values(|d: Option<String>| opt_view(d))),
{
    let ghost view = ds@.map_values(|d: Option<String>| opt_view(d));
    let mut out: Vec<String> = Vec::new();
    let mut i: usize = 0;
    while i < ds.len()
        invariant
            i <= ds@.len(),
            view == ds@.map_values(|d: Option<String>| opt_view(d)),
            out.deep_view() == dep_names(view.take(i as int)),
        decreases ds@.len() - i,
    {
        proof {
            assert(view.take(i + 1).drop_last() =~= view.take(i as int));
            assert(view.take(i + 1).last() == opt_view(ds@[i as int]));
        }
        match &ds[i] {
            Some(d) => {
                let ghost before = out.deep_view();
                out.push(dep_name_exec(d));
                proof {
                    assert(out.deep_view() =~= before.push(dep_name(d@)));
                }
            },
            None => {},
        }
        i = i + 1;
    }
    proof {
        assert(view.take(ds@.len() as int) =~= view);
    }
    out
}

fn first_main_exec(cs: &Vec<ArchCandidate>) -> (r: Option<usize>)
    ensures
        match r {
            Some(i) => first_main(cs@.map_values(|c: ArchCandidate| c@), 0) == Some(i as int),
            None => first_main(cs@.map_values(|c: ArchCandidate| c@), 0) is None,
        },
{
    let ghost view = cs@.map_values(|c: ArchCandidate| c@);
    let core = chars_of("core");
    let extra = chars_of("extra");
    let mut k: usize = 0;
    while k < cs.len()
        invariant
            k <= cs@.len(),
            view == cs@.map_values(|c: ArchCandidate| c@),
            core@ == "core"@,
            extra@ == "extra"@,
            first_main(view, 0) == first_main(view, k as int),
        decreases cs@.len() - k,
    {
        proof {
            assert(view[k as int] == cs@[k as int]@);
        }
        let main = match &cs[k].repo {
            Some(r) => {
                let rc = chars_of(r.as_str());
                crate::text::same_chars(rc.as_slice(), core.as_slice())
                    || crate::text::same_chars(rc.as_slice(), extra.as_slice())
            },
            None => false,
        };
        if main {
            return Some(k);
        }
        k = k + 1;
    }
    None
}

fn pkg_of_exec(c: &ArchCandidate, package: &str) -> (p: ArchPkg)
    ensures
        p@ == pkg_of(c@, package@),
{
    let repo = opt_text(&c.repo, "extra");
    let pkgname = opt_text(&c.pkgname, package);
    let mut version = opt_text(&c.pkgver, "");
    let rel = opt_text(&c.pkgrel, "1");
    version.append("-");
    version.append(rel.as_str());
    let arch = opt_text(&c.arch, "x86_64");
    let depends = match &c.depends {
        Some(ds) => dep_names_exec(ds),
        None => Vec::new(),
    };
    proof {
        reveal_strlit("");
        reveal_strlit("-");
        assert(version@ =~= or_text(c@.pkgver, Seq::empty()) + seq!['-'] + or_text(c@.pkgrel, "1"@));
        assert(c.depends is None ==> depends.deep_view() =~= Seq::<Seq<char>>::empty());
    }
    ArchPkg { repo, pkgname, version, arch, depends }
}

/// The package that the Arch search reply describes for `package`: the first result from
/// core or extra, else the first result, with defaults for what it lacks and the
/// dependencies stripped of their version constraints; an error when the reply holds no
/// result list or an empty one.
pub fn arch_query(package: &str, results: &Option<Vec<ArchCandidate>>) -> (r: Result<ArchPkg, String>)
    ensures
        pkg_result_view(r) == arch_pick(package@, results_view(*results)),
{
    match results {
        None => Err(String::from_str("No results from Arch API")),
        Some(cs) => {
            if cs.len() == 0 {
                let mut e = String::from_str("'");
                e.append(package);
                e.append("' not found in Arch repos");
                return Err(e);
            }
            let ghost view = cs@.map_values(|c: ArchCandidate| c@);
            let i = match first_main_exec(cs) {
                Some(i) => {
                    proof {
                        lemma_first_main(view, 0);
                    }
                    i
                },
                None => 0,
            };
            proof {
                assert(view[i as int] == cs@[i as int]@);
            }
            Ok(pkg_of_exec(&cs[i], package))
        },
    }
}

/// What the Arch package search reply `body` holds: its result list, read field by field
/// (absent where the reply has none), or, when `body` is not JSON, serde_json's error
/// message. It depends on the text alone.
pub uninterp spec fn arch_reply(body: Seq<char>) -> Result<Option<Seq<CandidateView>>, Seq<char>>;

/// A decoded result list, as text.
pub open spec fn decoded_results(r: Result<Option<Vec<ArchCandidate>>, String>) -> Result<Option<Seq<CandidateView>>, Seq<char>> {
    match r {
        Ok(results) => Ok(results_view(results)),
        Err(e) => Err(e@),
    }
}

/// serde_json's `from_str` into a `Value`, then `results` read as an array of objects whose
/// `repo`, `arch`, `pkgname`, `pkgver`, `pkgrel` are read with `as_str` and `depends` as an
/// array of `as_str`. Claimed: the result is `arch_reply` of the text.
#[verifier::external_body]
fn decode_arch_reply(body: &str) -> (r: Result<Option<Vec<ArchCandidate>>, String>)
    ensures
        decoded_results(r) == arch_reply(body@),
{
    let v: serde_json::Value = serde_json::from_str(body).map_err(|e| e.to_string())?;
    let s = |x: &serde_json::Value, k: &str| x[k].as_str().map(String::from);
    Ok(v["results"].as_array().map(|rs| rs.iter().map(|r| ArchCandidate {
        repo: s(r, "repo"), arch: s(r, "arch"), pkgname: s(r, "pkgname"), pkgver: s(r, "pkgver"),
        pkgrel: s(r, "pkgrel"),
        depends: r["depends"].as_array().map(|ds| ds.iter().map(|d| d.as_str().map(String::from)).collect()),
    }).collect()))
}

/// The package that the Arch search reply `body` describes for `package` (see
/// `arch_query`); an error when the reply is not JSON.
pub fn arch_query_text(package: &str, body: &str) -> (r: Result<ArchPkg, String>)
    ensures
        match arch_reply(body@) {
            Err(e) => pkg_result_view(r) == Err::<ArchPkgView, Seq<char>>("Arch API parse error: "@ + e),
            Ok(results) => pkg_result_view(r) == arch_pick(package@, results),
        },
{
    match decode_arch_reply(body) {
        Err(e) => {
            let mut m = String::from_str("Arch API parse error: ");
            m.append(e.as_str());
            Err(m)
        },
        Ok(results) => arch_query(package, &results),
    }
}

/// What `first_main` finds lies in range and comes from core or extra; when it finds
/// nothing, no result from `k` on does.
pub proof fn lemma_first_main(cs: Seq<CandidateView>, k: int)
    requires
        0 <= k,
    ensures
        first_main(cs, k) matches Some(i) ==> k <= i < cs.len() && is_main_repo(cs[i])
            && forall|j: int| k <= j < i ==> !is_main_repo(#[trigger] cs[j]),
        first_main(cs, k) is None ==> forall|j: int| k <= j < cs.len() ==> !is_main_repo(#[trigger] cs[j]),
    decreases cs.len() - k,
{
    if k < cs.len() && !is_main_repo(cs[k]) {
        lemma_first_main(cs, k + 1);
    }
}

/// The Arch package search for `package`.
pub open spec fn arch_search(package: Seq<char>) -> Seq<char> {
    "https://archlinux.org/packages/search/json/?name="@ + package
}

/// The address of the Arch package search for `package`.
pub fn arch_search_url(package: &str) -> (url: String)
    ensures
        url@ == arch_search(package@),
{
    let mut url = String::from_str("https://archlinux.org/packages/search/json/?name=");
    url.append(package);
    url
}

/// Where the Arch mirror keeps a package's file.
pub open spec fn arch_url(p: ArchPkgView) -> Seq<char> {
    "https://mirror.rackspace.com/archlinux/"@ + p.repo + "/os/x86_64/"@ + p.pkgname + seq!['-']
        + p.version + seq!['-'] + p.arch + ".pkg.tar.zst"@
}

/// The mirror address of an Arch package's file.
pub fn arch_download_url(pkg: &ArchPkg) -> (url: String)
    ensures
        url@ == arch_url(pkg@),
{
    let mut url = String::from_str("https://mirror.rackspace.com/archlinux/");
    url.append(pkg.repo.as_str());
    url.append("/os/x86_64/");
    url.append(pkg.pkgname.as_str());
    url.append("-");
    url.append(pkg.version.as_str());
    url.append("-");
    url.append(pkg.arch.as_str());
    url.append(".pkg.tar.zst");
    proof {
        reveal_strlit("-");
        assert(url@ =~= arch_url(pkg@));
    }
    url
}

// ---------------------------------------------------------------------------
// Debian's download page
// ---------------------------------------------------------------------------

/// `s` with every trailing occurrence of `p` removed (`str::trim_end_matches`).
pub open spec fn trim_end_matches(s: Seq<char>, p: Seq<char>) -> Seq<char>
    decreases s.len(),
{
    if p.len() > 0 && crate::text::ends_with(s, p) {
        trim_end_matches(s.take(s.len() - p.len()), p)
    } else {
        s
    }
}

/// `str::trim_end_matches` on a character slice.
pub fn trim_end_matches_exec(s: &[char], p: &[char]) -> (out: Vec<char>)
    ensures
        out@ == trim_end_matches(s@, p@),
{
    if p.len() == 0 {
        return copy_range(s, 0, s.len());
    }
    let mut cur = copy_range(s, 0, s.len());
    proof {
        assert(cur@ =~= s@);
    }
    while has_suffix(cur.as_slice(), p)
        invariant
            p@.len() > 0,
            trim_end_matches(s@, p@) == trim_end_matches(cur@, p@),
        decreases cur@.len(),
    {
        let k = cur.len() - p.len();
        let next = copy_range(cur.as_slice(), 0, k);
        proof {
            assert(next@ =~= cur@.take(cur@.len() - p@.len()));
        }
        cur = next;
    }
    cur
}

/// The file name at the end of a path or address: what follows its last `/`.
pub open spec fn last_piece(s: Seq<char>) -> Seq<char> {
    crate::paths::pieces(s, '/').last()
}

/// The version in a Debian package file name `name_version_amd64.deb`: what follows the
/// first `_` once the architecture suffix is gone, `unknown` when there is no `_`.
pub open spec fn deb_version(filename: Seq<char>) -> Seq<char> {
    match crate::text::after_stop(trim_end_matches(filename, "_amd64.deb"@), seq!['_']) {
        Some(v) => v,
        None => "unknown"@,
    }
}

/// The package link on a line of the download page: a line that names `deb.debian.org`
/// and `.deb`, whose first `href="` opens an address that closes with `"` and ends with
/// `.deb`; the address and the version in its file name.
pub open spec fn deb_link(line: Seq<char>) -> Option<(Seq<char>, Seq<char>)> {
    if crate::text::contains_seq(line, "deb.debian.org"@) && crate::text::contains_seq(line, ".deb"@) {
        match crate::text::find_seq(line, "href=\""@) {
            Some(start) => {
                let rest = line.skip(start + 6);
                match crate::text::find_seq(rest, seq!['"']) {
                    Some(end) => {
                        let url = rest.take(end);
                        if crate::text::ends_with(url, ".deb"@) {
                            Some((url, deb_version(last_piece(url))))
                        } else {
                            None
                        }
                    },
                    None => None,
                }
            },
            None => None,
        }
    } else {
        None
    }
}

/// The first package link on the lines from the `k`th on.
pub open spec fn first_link(ls: Seq<Seq<char>>, k: int) -> Option<(Seq<char>, Seq<char>)>
    decreases ls.len() - k,
{
    if k < 0 || k >= ls.len() {
        None
    } else {
        match deb_link(ls[k]) {
            Some(x) => Some(x),
            None => first_link(ls, k + 1),
        }
    }
}

/// The package address and version that Debian's download page for `package` offers.
pub open spec fn debian_pick(package: Seq<char>, page: Seq<char>) -> Result<(Seq<char>, Seq<char>), Seq<char>> {
    match first_link(crate::text::lines(page), 0) {
        Some(x) => Ok(x),
        None => Err("Could not find '"@ + package + "' in Debian stable"@),
    }
}

fn after_char(s: &[char], c: char) -> (out: Option<Vec<char>>)
    ensures
        match out {
            Some(v) => crate::text::after_stop(s@, seq![c]) == Some(v@),
            None => crate::text::after_stop(s@, seq![c]) is None,
        },
{
    let stops = [c];
    proof {
        assert(stops@ =~= seq![c]);
    }
    let k = stop_index(s, stops.as_slice());
    if k < s.len() {
        let v = copy_range(s, k + 1, s.len());
        proof {
            assert(v@ =~= s@.skip(k + 1));
        }
        Some(v)
    } else {
        None
    }
}

fn deb_version_exec(filename: &[char]) -> (v: String)
    ensures
        v@ == deb_version(filename@),
{
    let suffix = chars_of("_amd64.deb");
    let base = trim_end_matches_exec(filename, suffix.as_slice());
    match after_char(base.as_slice(), '_') {
        Some(v) => string_of(v.as_slice()),
        None => String::from_str("unknown"),
    }
}

fn deb_link_exec(line: &[char]) -> (r: Option<(String, String)>)
    ensures
        match r {
            Some((u, v)) => deb_link(line@) == Some((u@, v@)),
            None => deb_link(line@) is None,
        },
{
    let host = chars_of("deb.debian.org");
    let ext = chars_of(".deb");
    if !(contains_chars(line, host.as_slice()) && contains_chars(line, ext.as_slice())) {
        return None;
    }
    let href = chars_of("href=\"");
    proof {
        reveal_strlit("href=\"");
    }
    let start = match find_chars(line, href.as_slice()) {
        Some(start) => start,
        None => {
            return None;
        },
    };
    proof {
        crate::text::lemma_find_from_found(line@, href@, 0);
        assert(href@.len() == 6);
        assert(crate::text::occurs_at(line@, href@, start as int));
        assert(start + 6 <= line@.len());
    }
    let n = line.len();
    let rest = copy_range(line, start + 6, n);
    proof {
        assert(rest@ =~= line@.skip(start + 6));
    }
    let quote = ['"'];
    proof {
        assert(quote@ =~= seq!['"']);
    }
    let end = match find_chars(rest.as_slice(), quote.as_slice()) {
        Some(end) => end,
        None => {
            return None;
        },
    };
    proof {
        crate::text::lemma_find_from_found(rest@, quote@, 0);
    }
    let url = copy_range(rest.as_slice(), 0, end);
    proof {
        assert(url@ =~= rest@.take(end as int));
    }
    if !has_suffix(url.as_slice(), ext.as_slice()) {
        return None;
    }
    let parts = crate::paths::split_pieces(url.as_slice(), '/');
    proof {
        assert(parts.deep_view().len() == parts@.len());
        assert(crate::paths::pieces(url@, '/').len() > 0);
        assert(parts.deep_view().last() == parts@[parts@.len() - 1]@);
    }
    let last = parts.len() - 1;
    let version = deb_version_exec(parts[last].as_slice());
    Some((string_of(url.as_slice()), version))
}

/// Debian's download page for `package` (stable, amd64).
pub open spec fn debian_page(package: Seq<char>) -> Seq<char> {
    "https://packages.debian.org/stable/amd64/"@ + package + "/download"@
}

/// The address of Debian's download page for `package`.
pub fn debian_page_url(package: &str) -> (url: String)
    ensures
        url@ == debian_page(package@),
{
    let mut url = String::from_str("https://packages.debian.org/stable/amd64/");
    url.append(package);
    url.append("/download");
    url
}

/// The package address and version offered by Debian's download page for `package`:
/// from the first line that holds a package link; an error when none does.
pub fn debian_find_deb(package: &str, page: &str) -> (r: Result<(String, String), String>)
    ensures
        match r {
            Ok((u, v)) => debian_pick(package@, page@) == Ok::<(Seq<char>, Seq<char>), Seq<char>>((u@, v@)),
            Err(e) => debian_pick(package@, page@) == Err::<(Seq<char>, Seq<char>), Seq<char>>(e@),
        },
{
    let cs = chars_of(page);
    let ls = crate::text::split_lines(cs.as_slice());
    let mut k: usize = 0;
    while k < ls.len()
        invariant
            k <= ls@.len(),
            ls.deep_view() == crate::text::lines(page@),
            first_link(ls.deep_view(), 0) == first_link(ls.deep_view(), k as int),
        decreases ls@.len() - k,
    {
        proof {
            assert(ls.deep_view()[k as int] == ls@[k as int]@);
        }
        match deb_link_exec(ls[k].as_slice()) {
            Some(found) => {
                return Ok(found);
            },
            None => {},
        }
        k = k + 1;
    }
    let mut e = String::from_str("Could not find '");
    e.append(package);
    e.append("' in Debian stable");
    Err(e)
}

/// The first name, from the `k`th on, that starts with `data.tar`.
pub open spec fn first_data_member(names: Seq<Seq<char>>, k: int) -> Option<int>
    decreases names.len() - k,
{
    if k < 0 || k >= names.len() {
        None
    } else if crate::text::starts_with(names[k], "data.tar"@) {
        Some(k)
    } else {
        first_data_member(names, k + 1)
    }
}

/// Which of the members of an unpacked Debian package, listed in the order given, holds
/// the package's files: the first whose name starts with `data.tar`.
pub fn data_member(names: &Vec<String>) -> (r: Option<usize>)
    ensures
        match r {
            Some(i) => first_data_member(names.deep_view(), 0) == Some(i as int),
            None => first_data_member(names.deep_view(), 0) is None,
        },
{
    let key = chars_of("data.tar");
    let mut k: usize = 0;
    while k < names.len()
        invariant
            k <= names@.len(),
            key@ == "data.tar"@,
            first_data_member(names.deep_view(), 0) == first_data_member(names.deep_view(), k as int),
        decreases names@.len() - k,
    {
        proof {
            assert(names.deep_view()[k as int] == names@[k as int]@);
        }
        let n = chars_of(names[k].as_str());
        if has_prefix(n.as_slice(), key.as_slice()) {
            return Some(k);
        }
        k = k + 1;
    }
    None
}

// ---------------------------------------------------------------------------
// The package index
// ---------------------------------------------------------------------------

/// What `str::to_lowercase` gives for a text: Unicode's lowercase mapping of each
/// character, with the final-sigma rule. It depends on the text alone.
pub uninterp spec fn lowercase(s: Seq<char>) -> Seq<char>;

/// std's `str::to_lowercase`. Claimed: the result is `lowercase` of the argument.
#[verifier::external_body]
fn to_lower(s: &str) -> (out: String)
    ensures
        out@ == lowercase(s@),
{
    s.to_lowercase()
}

/// The names of the packages that a list of database entries holds.
pub open spec fn entry_names(es: Seq<(Seq<char>, Seq<char>, Seq<char>)>) -> Seq<Seq<char>> {
    es.map_values(|e: (Seq<char>, Seq<char>, Seq<char>)| e.0)
}

/// The index entries that match a query: each file name that ends in `.tar.gz` and whose
/// lowercase form holds the lowercase query, as the package name (without `.tar.gz`) and
/// whether that package is installed. `lowered[i]` is the lowercase form of `names[i]`.
pub open spec fn hits(names: Seq<Seq<char>>, lowered: Seq<Seq<char>>, query: Seq<char>, installed: Seq<Seq<char>>) -> Seq<(Seq<char>, bool)>
    decreases names.len(),
{
    if names.len() == 0 {
        seq![]
    } else {
        let k = names.len() - 1;
        let rest = hits(names.drop_last(), lowered, query, installed);
        if crate::text::ends_with(names[k], ".tar.gz"@) && crate::text::contains_seq(lowered[k], query) {
            let pkg = trim_end_matches(names[k], ".tar.gz"@);
            rest.push((pkg, installed.contains(pkg)))
        } else {
            rest
        }
    }
}

/// The names of the index entries: each entry's name, empty where it has none.
pub open spec fn index_names(names: Seq<Option<String>>) -> Seq<Seq<char>> {
    names.map_values(|n: Option<String>| or_text(opt_view(n), Seq::empty()))
}

fn names_of(es: &Vec<(String, String, String)>) -> (out: Vec<String>)
    ensures
        out.deep_view() == entry_names(es.deep_view()),
{
    let mut out: Vec<String> = Vec::new();
    let mut i: usize = 0;
    while i < es.len()
        invariant
            i <= es@.len(),
            out.deep_view() == entry_names(es.deep_view()).take(i as int),
        decreases es@.len() - i,
    {
        let ghost before = out.deep_view();
        let name = es[i].0.clone();
        out.push(name);
        proof {
            assert(out.deep_view() =~= before.push(es@[i as int].0@));
            assert(es.deep_view()[i as int] == es@[i as int].deep_view());
            assert(entry_names(es.deep_view())[i as int] == es@[i as int].0@);
            assert(out.deep_view() =~= entry_names(es.deep_view()).take(i + 1));
        }
        i = i + 1;
    }
    proof {
        assert(entry_names(es.deep_view()).take(es@.len() as int) =~= entry_names(es.deep_view()));
    }
    out
}

fn contains_name(ns: &Vec<String>, n: &Vec<char>) -> (r: bool)
    ensures
        r == ns.deep_view().contains(n@),
{
    let mut i: usize = 0;
    while i < ns.len()
        invariant
            i <= ns@.len(),
            forall|j: int| 0 <= j < i ==> ns.deep_view()[j] != n@,
        decreases ns@.len() - i,
    {
        let c = chars_of(ns[i].as_str());
        if same_chars(c.as_slice(), n.as_slice()) {
            proof {
                assert(ns.deep_view()[i as int] == n@);
            }
            return true;
        }
        i = i + 1;
    }
    false
}

/// The index entries that match `query`, given the lowercase form of every name and of
/// the query: see `hits`.
pub fn search_hits(names: &Vec<String>, lowered: &Vec<String>, query: &str, installed: &Vec<(String, String, String)>) -> (out: Vec<(String, bool)>)
    requires
        lowered@.len() == names@.len(),
    ensures
        out.deep_view() == hits(names.deep_view(), lowered.deep_view(), query@, entry_names(installed.deep_view())),
{
    let inst = names_of(installed);
    let q = chars_of(query);
    let suffix = chars_of(".tar.gz");
    let mut out: Vec<(String, bool)> = Vec::new();
    let mut i: usize = 0;
    while i < names.len()
        invariant
            i <= names@.len(),
            lowered@.len() == names@.len(),
            q@ == query@,
            suffix@ == ".tar.gz"@,
            inst.deep_view() == entry_names(installed.deep_view()),
            out.deep_view() == hits(names.deep_view().take(i as int), lowered.deep_view(), query@, inst.deep_view()),
        decreases names@.len() - i,
    {
        proof {
            assert(names.deep_view().take(i + 1).drop_last() =~= names.deep_view().take(i as int));
            assert(names.deep_view().take(i + 1)[i as int] == names@[i as int]@);
            assert(lowered.deep_view()[i as int] == lowered@[i as int]@);
        }
        let n = chars_of(names[i].as_str());
        let l = chars_of(lowered[i].as_str());
        if has_suffix(n.as_slice(), suffix.as_slice()) && contains_chars(l.as_slice(), q.as_slice()) {
            let pkg = trim_end_matches_exec(n.as_slice(), suffix.as_slice());
            let there = contains_name(&inst, &pkg);
            let ghost before = out.deep_view();
            out.push((string_of(pkg.as_slice()), there));
            proof {
                assert(out.deep_view() =~= before.push((pkg@, there)));
            }
        }
        i = i + 1;
    }
    proof {
        assert(names.deep_view().take(names@.len() as int) =~= names.deep_view());
    }
    out
}

/// The packages of the index whose names match `query`, ignoring case: the index's
/// entries are named by `names` (absent where an entry has no name); each hit is the
/// package name and whether the database `installed` lists it.
pub fn search_packages(query: &str, names: &Vec<Option<String>>, installed: &Vec<(String, String, String)>) -> (out: Vec<(String, bool)>)
    ensures
        out.deep_view() == hits(
            index_names(names@),
            index_names(names@).map_values(|n: Seq<char>| lowercase(n)),
            lowercase(query@),
            entry_names(installed.deep_view()),
        ),
{
    let q = to_lower(query);
    let mut plain: Vec<String> = Vec::new();
    let mut lowered: Vec<String> = Vec::new();
    let mut i: usize = 0;
    while i < names.len()
        invariant
            i <= names@.len(),
            plain@.len() == i,
            lowered@.len() == i,
            plain.deep_view() == index_names(names@).take(i as int),
            forall|j: int| 0 <= j < i ==> #[trigger] lowered.deep_view()[j] == lowercase(index_names(names@)[j]),
        decreases names@.len() - i,
    {
        let n = opt_text(&names[i], "");
        proof {
            reveal_strlit("");
            assert(""@ =~= Seq::<char>::empty());
            assert(n@ == index_names(names@)[i as int]);
        }
        let ln = to_lower(n.as_str());
        let ghost before = plain.deep_view();
        let ghost lbefore = lowered.deep_view();
        plain.push(n);
        lowered.push(ln);
        proof {
            assert(plain.deep_view() =~= index_names(names@).take(i + 1));
            assert(lowered.deep_view() =~= lbefore.push(lowercase(index_names(names@)[i as int])));
        }
        i = i + 1;
    }
    proof {
        assert(index_names(names@).take(names@.len() as int) =~= index_names(names@));
        assert(lowered.deep_view() =~= index_names(names@).map_values(|n: Seq<char>| lowercase(n)));
    }
    search_hits(&plain, &lowered, q.as_str(), installed)
}

/// What the package index reply `body` holds: the `name` of each of its entries (absent
/// where an entry has none), none when the reply is not a list, or, when `body` is not
/// JSON, serde_json's error message. It depends on the text alone.
pub uninterp spec fn index_reply(body: Seq<char>) -> Result<Option<Seq<Option<Seq<char>>>>, Seq<char>>;

/// Decoded index names, as text.
pub open spec fn decoded_names(r: Result<Option<Vec<Option<String>>>, String>) -> Result<Option<Seq<Option<Seq<char>>>>, Seq<char>> {
    match r {
        Ok(Some(ns)) => Ok(Some(ns@.map_values(|n: Option<String>| opt_view(n)))),
        Ok(None) => Ok(None),
        Err(e) => Err(e@),
    }
}

/// The index entries' names, empty where an entry has none.
pub open spec fn names_or_empty(ns: Seq<Option<Seq<char>>>) -> Seq<Seq<char>> {
    ns.map_values(|n: Option<Seq<char>>| or_text(n, Seq::empty()))
}

/// serde_json's `from_str` into a `Value`, read as an array whose entries' `name` is read
/// with `as_str`. Claimed: the result is `index_reply` of the text.
#[verifier::external_body]
fn decode_index_reply(body: &str) -> (r: Result<Option<Vec<Option<String>>>, String>)
    ensures
        decoded_names(r) == index_reply(body@),
{
    let v: serde_json::Value = serde_json::from_str(body).map_err(|e| e.to_string())?;
    Ok(v.as_array().map(|fs| fs.iter().map(|f| f["name"].as_str().map(String::from)).collect()))
}

/// The packages of the index reply `body` whose names match `query`, ignoring case (see
/// `search_packages`); an error when the reply is not JSON or not a list.
pub fn search_index(query: &str, body: &str, installed: &Vec<(String, String, String)>) -> (r: Result<Vec<(String, bool)>, String>)
    ensures
        match index_reply(body@) {
            Err(e) => r matches Err(m) && m@ == "Failed to parse index: "@ + e,
            Ok(None) => r matches Err(m) && m@ == "Unexpected response from GitHub"@,
            Ok(Some(ns)) => r matches Ok(out) && out.deep_view() == hits(
                names_or_empty(ns),
                names_or_empty(ns).map_values(|n: Seq<char>| lowercase(n)),
                lowercase(query@),
                entry_names(installed.deep_view()),
            ),
        },
{
    match decode_index_reply(body) {
        Err(e) => {
            let mut m = String::from_str("Failed to parse index: ");
            m.append(e.as_str());
            Err(m)
        },
        Ok(None) => Err(String::from_str("Unexpected response from GitHub")),
        Ok(Some(names)) => {
            proof {
                assert(index_names(names@) =~= names_or_empty(names@.map_values(|n: Option<String>| opt_view(n))));
            }
            Ok(search_packages(query, &names, installed))
        },
    }
}

// ---------------------------------------------------------------------------
// The release feed
// ---------------------------------------------------------------------------

/// A file of a release: its name and download address, absent where the feed holds none.
#[derive(Debug, PartialEq, Eq)]
pub struct ReleaseAsset {
    pub name: Option<String>,
    pub url: Option<String>,
}

/// What to do about a new release.
#[derive(Debug, PartialEq, Eq)]
pub enum UpdatePlan {
    /// The running version is the latest.
    UpToDate,
    /// Fetch the program of the release `version` from `url`.
    Download { version: String, url: String },
}

/// An update plan as text.
pub enum UpdatePlanView {
    UpToDate,
    Download(Seq<char>, Seq<char>),
}

impl View for UpdatePlan {
    type V = UpdatePlanView;

    open spec fn view(&self) -> UpdatePlanView {
        match self {
            UpdatePlan::UpToDate => UpdatePlanView::UpToDate,
            UpdatePlan::Download { version, url } => UpdatePlanView::Download(version@, url@),
        }
    }
}

/// A release file that holds the program: named `chiral`, or starting `chiral-x86_64`.
pub open spec fn is_program_asset(name: Seq<char>) -> bool {
    name == "chiral"@ || crate::text::starts_with(name, "chiral-x86_64"@)
}

/// The first release file from the `k`th on that holds the program.
pub open spec fn first_program(assets: Seq<(Option<Seq<char>>, Option<Seq<char>>)>, k: int) -> Option<int>
    decreases assets.len() - k,
{
    if k < 0 || k >= assets.len() {
        None
    } else if is_program_asset(or_text(assets[k].0, Seq::empty())) {
        Some(k)
    } else {
        first_program(assets, k + 1)
    }
}

/// The download of release `latest`: the address of the first file that holds the
/// program, an error when there is none or it has no address.
pub open spec fn pick_asset(latest: Seq<char>, a: Seq<(Option<Seq<char>>, Option<Seq<char>>)>) -> Result<UpdatePlanView, Seq<char>> {
    match first_program(a, 0) {
        Some(i) => match a[i].1 {
            Some(url) => Ok(UpdatePlanView::Download(latest, url)),
            None => Err("No 'chiral' binary found in release assets"@),
        },
        None => Err("No 'chiral' binary found in release assets"@),
    }
}

/// The release files as text.
pub open spec fn assets_view(assets: Option<Vec<ReleaseAsset>>) -> Option<Seq<(Option<Seq<char>>, Option<Seq<char>>)>> {
    match assets {
        Some(v) => Some(v@.map_values(|a: ReleaseAsset| (opt_view(a.name), opt_view(a.url)))),
        None => None,
    }
}

/// The update for the running version `current`, given the latest release's tag and
/// files: none when the tag, without leading `v`s, is `current`; else the address of the
/// first file that holds the program. Errors: no tag, no file list, and no program file
/// or no address for the first one.
pub open spec fn update_plan(current: Seq<char>, tag: Option<Seq<char>>, assets: Option<Seq<(Option<Seq<char>>, Option<Seq<char>>)>>) -> Result<UpdatePlanView, Seq<char>> {
    match tag {
        None => Err("Could not get latest version"@),
        Some(t) => {
            let latest = crate::probes::trim_start_matches(t, seq!['v']);
            if latest == current {
                Ok(UpdatePlanView::UpToDate)
            } else {
                match assets {
                    None => Err("No assets in release"@),
                    Some(a) => pick_asset(latest, a),
                }
            }
        },
    }
}

/// What `first_program` finds lies in range.
pub proof fn lemma_first_program(assets: Seq<(Option<Seq<char>>, Option<Seq<char>>)>, k: int)
    requires
        0 <= k,
    ensures
        first_program(assets, k) matches Some(i) ==> k <= i < assets.len(),
    decreases assets.len() - k,
{
    if k < assets.len() && !is_program_asset(or_text(assets[k].0, Seq::empty())) {
        lemma_first_program(assets, k + 1);
    }
}

fn is_program_asset_exec(name: &Option<String>) -> (r: bool)
    ensures
        r == is_program_asset(or_text(opt_view(*name), Seq::empty())),
{
    let n = match name {
        Some(n) => chars_of(n.as_str()),
        None => Vec::new(),
    };
    proof {
        assert(n@ =~= or_text(opt_view(*name), Seq::empty()));
    }
    let exact = chars_of("chiral");
    let prefix = chars_of("chiral-x86_64");
    same_chars(n.as_slice(), exact.as_slice()) || has_prefix(n.as_slice(), prefix.as_slice())
}

/// The version a release tag names: the tag without its leading `v`s.
pub fn release_version(tag: &str) -> (v: String)
    ensures
        v@ == crate::probes::trim_start_matches(tag@, seq!['v']),
{
    let tc = chars_of(tag);
    let v = ['v'];
    proof {
        assert(v@ =~= seq!['v']);
    }
    let latest = crate::probes::trim_start_matches_exec(tc.as_slice(), v.as_slice());
    string_of(latest.as_slice())
}

/// The update to make from the running version `current`, given the latest release's
/// tag and files as the release feed holds them.
pub fn self_update(current: &str, tag: &Option<String>, assets: &Option<Vec<ReleaseAsset>>) -> (r: Result<UpdatePlan, String>)
    ensures
        match r {
            Ok(p) => update_plan(current@, opt_view(*tag), assets_view(*assets)) == Ok::<UpdatePlanView, Seq<char>>(p@),
            Err(e) => update_plan(current@, opt_view(*tag), assets_view(*assets)) == Err::<UpdatePlanView, Seq<char>>(e@),
        },
{
    let t = match tag {
        Some(t) => t,
        None => {
            return Err(String::from_str("Could not get latest version"));
        },
    };
    let latest = chars_of(release_version(t.as_str()).as_str());
    let cur = chars_of(current);
    if same_chars(latest.as_slice(), cur.as_slice()) {
        return Ok(UpdatePlan::UpToDate);
    }
    let list = match assets {
        Some(a) => a,
        None => {
            return Err(String::from_str("No assets in release"));
        },
    };
    let ghost view = list@.map_values(|a: ReleaseAsset| (opt_view(a.name), opt_view(a.url)));
    proof {
        assert(update_plan(current@, opt_view(*tag), assets_view(*assets)) == pick_asset(latest@, view));
    }
    let mut k: usize = 0;
    while k < list.len()
        invariant
            k <= list@.len(),
            view == list@.map_values(|a: ReleaseAsset| (opt_view(a.name), opt_view(a.url))),
            update_plan(current@, opt_view(*tag), assets_view(*assets)) == pick_asset(latest@, view),
            first_program(view, 0) == first_program(view, k as int),
        decreases list@.len() - k,
    {
        proof {
            assert(view[k as int] == (opt_view(list@[k as int].name), opt_view(list@[k as int].url)));
        }
        if is_program_asset_exec(&list[k].name) {
            return match &list[k].url {
                Some(u) => Ok(UpdatePlan::Download { version: string_of(latest.as_slice()), url: u.clone() }),
                None => Err(String::from_str("No 'chiral' binary found in release assets")),
            };
        }
        k = k + 1;
    }
    Err(String::from_str("No 'chiral' binary found in release assets"))
}

/// What the release feed reply `body` holds: its `tag_name`, and its `assets` with each
/// one's `name` and `browser_download_url` (each absent where the reply has none), or, when
/// `body` is not JSON, serde_json's error message. It depends on the text alone.
pub uninterp spec fn release_reply(body: Seq<char>) -> Result<(Option<Seq<char>>, Option<Seq<(Option<Seq<char>>, Option<Seq<char>>)>>), Seq<char>>;

/// A decoded release, as text.
pub open spec fn decoded_release(r: Result<(Option<String>, Option<Vec<ReleaseAsset>>), String>) -> Result<(Option<Seq<char>>, Option<Seq<(Option<Seq<char>>, Option<Seq<char>>)>>), Seq<char>> {
    match r {
        Ok((tag, assets)) => Ok((opt_view(tag), assets_view(assets))),
        Err(e) => Err(e@),
    }
}

/// serde_json's `from_str` into a `Value`, then `tag_name` read with `as_str` and `assets`
/// as an array whose entries' `name` and `browser_download_url` are read with `as_str`.
/// Claimed: the result is `release_reply` of the text.
#[verifier::external_body]
fn decode_release_reply(body: &str) -> (r: Result<(Option<String>, Option<Vec<ReleaseAsset>>), String>)
    ensures
        decoded_release(r) == release_reply(body@),
{
    let v: serde_json::Value = serde_json::from_str(body).map_err(|e| e.to_string())?;
    let s = |x: &serde_json::Value, k: &str| x[k].as_str().map(String::from);
    let assets = v["assets"].as_array().map(|a| a.iter().map(|x| ReleaseAsset {
        name: s(x, "name"), url: s(x, "browser_download_url") }).collect());
    Ok((s(&v, "tag_name"), assets))
}

/// An update plan or an error, as text.
pub open spec fn plan_result_view(r: Result<UpdatePlan, String>) -> Result<UpdatePlanView, Seq<char>> {
    match r {
        Ok(p) => Ok(p@),
        Err(e) => Err(e@),
    }
}

/// The update to make from the running version `current`, given the release feed reply
/// `body` (see `self_update`), with the latest version that the reply's tag names (to
/// announce it); an error when the reply is not JSON.
pub fn self_update_text(current: &str, body: &str) -> (r: (Option<String>, Result<UpdatePlan, String>))
    ensures
        match release_reply(body@) {
            Err(e) => r.0 is None && plan_result_view(r.1) == Err::<UpdatePlanView, Seq<char>>("Parse error: "@ + e),
            Ok((tag, assets)) => {
                &&& opt_view(r.0) == match tag {
                    Some(t) => Some(crate::probes::trim_start_matches(t, seq!['v'])),
                    None => None,
                }
                &&& plan_result_view(r.1) == update_plan(current@, tag, assets)
            },
        },
{
    match decode_release_reply(body) {
        Err(e) => {
            let mut m = String::from_str("Parse error: ");
            m.append(e.as_str());
            (None, Err(m))
        },
        Ok((tag, assets)) => {
            let latest = match &tag {
                Some(t) => Some(release_version(t.as_str())),
                None => None,
            };
            let plan = self_update(current, &tag, &assets);
            (latest, plan)
        },
    }
}

// ---------------------------------------------------------------------------
// Fetching a package: the sources in turn
// ---------------------------------------------------------------------------

/// Where the project's own packages are published.
pub open spec fn github_url(package: Seq<char>) -> Seq<char> {
    "https://raw.githubusercontent.com/Amaterus1125/chpm/main/packages/"@ + package + ".tar.gz"@
}

/// A step of fetching a package.
#[derive(Debug, PartialEq, Eq)]
pub enum FetchStep {
    /// Download the project's own package from this address.
    TryGitHub(String),
    /// Look the package up on Debian and fetch it from there.
    TryDebian,
    /// Look the package up in the Arch repositories and fetch it from there.
    TryArch,
    /// Fetched from this source, at this version.
    Fetched { source: String, version: String },
    /// No source has it.
    NotFound(String),
}

/// A fetch step as text.
pub enum FetchStepView {
    TryGitHub(Seq<char>),
    TryDebian,
    TryArch,
    Fetched(Seq<char>, Seq<char>),
    NotFound(Seq<char>),
}

impl View for FetchStep {
    type V = FetchStepView;

    open spec fn view(&self) -> FetchStepView {
        match self {
            FetchStep::TryGitHub(u) => FetchStepView::TryGitHub(u@),
            FetchStep::TryDebian => FetchStepView::TryDebian,
            FetchStep::TryArch => FetchStepView::TryArch,
            FetchStep::Fetched { source, version } => FetchStepView::Fetched(source@, version@),
            FetchStep::NotFound(m) => FetchStepView::NotFound(m@),
        }
    }
}

/// Which tries have succeeded.
pub open spec fn succeeded(outcomes: Seq<Option<String>>) -> Seq<bool> {
    outcomes.map_values(|o: Option<String>| o is Some)
}

/// The next step of fetching `package`, after the tries whose outcomes are `outcomes`
/// (GitHub, then Debian, then Arch; each the version fetched, or absent when the try
/// failed): the first success is the answer (GitHub's version is `latest`); else the
/// next source; when all three failed, the package is not found.
pub open spec fn fetch_step(package: Seq<char>, outcomes: Seq<Option<String>>) -> FetchStepView {
    match crate::probes::chain_spec(3, succeeded(outcomes)) {
        crate::probes::Chain::Hit(i) => if i == 0 {
            FetchStepView::Fetched("github"@, "latest"@)
        } else if i == 1 {
            FetchStepView::Fetched("debian"@, opt_view(outcomes[1]).unwrap())
        } else {
            FetchStepView::Fetched("arch"@, opt_view(outcomes[2]).unwrap())
        },
        crate::probes::Chain::Next(i) => if i == 0 {
            FetchStepView::TryGitHub(github_url(package))
        } else if i == 1 {
            FetchStepView::TryDebian
        } else {
            FetchStepView::TryArch
        },
        crate::probes::Chain::Exhausted => FetchStepView::NotFound(
            "'"@ + package + "' not found in GitHub packages, Debian stable, or Arch Linux repos."@,
        ),
    }
}

/// Fetching a package, one source at a time: given the outcomes of the tries made so
/// far, the next try or the answer.
pub fn download_package(package: &str, outcomes: &Vec<Option<String>>) -> (step: FetchStep)
    ensures
        step@ == fetch_step(package@, outcomes@),
{
    let mut ok: Vec<bool> = Vec::new();
    let mut i: usize = 0;
    while i < outcomes.len()
        invariant
            i <= outcomes@.len(),
            ok@ == succeeded(outcomes@).take(i as int),
        decreases outcomes@.len() - i,
    {
        ok.push(outcomes[i].is_some());
        proof {
            assert(ok@ =~= succeeded(outcomes@).take(i + 1));
        }
        i = i + 1;
    }
    proof {
        assert(succeeded(outcomes@).take(outcomes@.len() as int) =~= succeeded(outcomes@));
    }
    match crate::probes::chain_position(3, ok.as_slice()) {
        crate::probes::Chain::Hit(i) => {
            proof {
                crate::probes::lemma_first_true_bounds(ok@, 0, 3);
            }
            if i == 0 {
                FetchStep::Fetched { source: String::from_str("github"), version: String::from_str("latest") }
            } else {
                let source = if i == 1 {
                    String::from_str("debian")
                } else {
                    String::from_str("arch")
                };
                let version = match &outcomes[i] {
                    Some(v) => v.clone(),
                    None => String::new(),
                };
                FetchStep::Fetched { source, version }
            }
        },
        crate::probes::Chain::Next(i) => {
            if i == 0 {
                let mut url = String::from_str("https://raw.githubusercontent.com/Amaterus1125/chpm/main/packages/");
                url.append(package);
                url.append(".tar.gz");
                FetchStep::TryGitHub(url)
            } else if i == 1 {
                FetchStep::TryDebian
            } else {
                FetchStep::TryArch
            }
        },
        crate::probes::Chain::Exhausted => {
            let mut m = String::from_str("'");
            m.append(package);
            m.append("' not found in GitHub packages, Debian stable, or Arch Linux repos.");
            FetchStep::NotFound(m)
        },
    }
}

} // verus!

verus! {

/// `s` ends in `.tar.gz`.
pub open spec fn is_tarball(s: Seq<char>) -> bool {
    s.len() >= ".tar.gz"@.len() && s.subrange(s.len() - ".tar.gz"@.len(), s.len() as int) == ".tar.gz"@
}

/// `q` occurs in `s` starting at position `j`.
pub open spec fn found_at(s: Seq<char>, q: Seq<char>, j: int) -> bool {
    0 <= j && j + q.len() <= s.len() && s.subrange(j, j + q.len()) == q
}

/// The hit an index name gives: the name without `.tar.gz`, and whether it is installed.
pub open spec fn hit_of(name: Seq<char>, installed: Seq<Seq<char>>) -> (Seq<char>, bool) {
    (trim_end_matches(name, ".tar.gz"@), installed.contains(trim_end_matches(name, ".tar.gz"@)))
}

/// Law: a search finds every index name that ends in `.tar.gz` and whose lowercase form
/// holds the (lowercase) query at some position, anywhere in the name, not only at its
/// start. `lowered[i]` is the lowercase form of `names[i]` (entries beyond are unused).
pub proof fn law_search_finds_every_match(
    names: Seq<Seq<char>>,
    lowered: Seq<Seq<char>>,
    query: Seq<char>,
    installed: Seq<Seq<char>>,
    i: int,
    j: int,
)
    requires
        lowered.len() >= names.len(),
        0 <= i < names.len(),
        is_tarball(names[i]),
        found_at(lowered[i], query, j),
    ensures
        hits(names, lowered, query, installed).contains(hit_of(names[i], installed)),
    decreases names.len(),
{
    let h = hits(names, lowered, query, installed);
    let init = names.drop_last();
    let n = names.len() - 1;
    let rest = hits(init, lowered, query, installed);
    assert(names.last() == names[n]);
    let cond = crate::text::ends_with(names[n], ".tar.gz"@) && crate::text::contains_seq(lowered[n], query);
    if i < n {
        assert(init[i] == names[i]);
        law_search_finds_every_match(init, lowered, query, installed, i, j);
        let k = choose|k: int| 0 <= k < rest.len() && rest[k] == hit_of(init[i], installed);
        if cond {
            assert(h == rest.push(hit_of(names[n], installed)));
            assert(h[k] == rest[k]);
        } else {
            assert(h == rest);
        }
        assert(h[k] == hit_of(names[i], installed));
    } else {
        assert(crate::text::occurs_at(lowered[n], query, j));
        assert(cond);
        assert(h == rest.push(hit_of(names[n], installed)));
        assert(h[rest.len() as int] == hit_of(names[i], installed));
    }
}

/// Law: every hit of a search comes from an index name that ends in `.tar.gz` and whose
/// lowercase form holds the query at some position.
pub proof fn law_search_hits_match(
    names: Seq<Seq<char>>,
    lowered: Seq<Seq<char>>,
    query: Seq<char>,
    installed: Seq<Seq<char>>,
    k: int,
)
    requires
        lowered.len() >= names.len(),
        0 <= k < hits(names, lowered, query, installed).len(),
    ensures
        exists|i: int, j: int|
            0 <= i < names.len() && is_tarball(names[i]) && #[trigger] found_at(lowered[i], query, j)
                && hits(names, lowered, query, installed)[k] == hit_of(names[i], installed),
    decreases names.len(),
{
    let h = hits(names, lowered, query, installed);
    let init = names.drop_last();
    let n = names.len() - 1;
    let rest = hits(init, lowered, query, installed);
    assert(names.last() == names[n]);
    let cond = crate::text::ends_with(names[n], ".tar.gz"@) && crate::text::contains_seq(lowered[n], query);
    if cond {
        assert(h == rest.push(hit_of(names[n], installed)));
    } else {
        assert(h == rest);
    }
    if k < rest.len() {
        assert(h[k] == rest[k]);
        law_search_hits_match(init, lowered, query, installed, k);
        let (i, j) = choose|i: int, j: int|
            0 <= i < init.len() && is_tarball(init[i]) && #[trigger] found_at(lowered[i], query, j)
                && rest[k] == hit_of(init[i], installed);
        assert(init[i] == names[i]);
        assert(found_at(lowered[i], query, j));
    } else {
        let j = choose|j: int| crate::text::occurs_at(lowered[n], query, j);
        assert(found_at(lowered[n], query, j));
    }
}

/// Law: the Arch search answer for a non-empty result list is one result's package: its
/// repository, name, version `pkgver-pkgrel` and architecture as the result gives them (the
/// defaults `extra`, the searched name, an empty `pkgver`, `pkgrel` 1 and `x86_64` only
/// where it gives none), and that result is the first from core or extra, or the first
/// of all when none is.
pub proof fn law_arch_pick_takes_one_result(package: Seq<char>, cs: Seq<CandidateView>)
    ensures
        cs.len() > 0 ==> arch_pick(package, Some(cs)) is Ok,
        arch_pick(package, Some(cs)) matches Ok(p) ==> exists|i: int| {
            &&& 0 <= i < cs.len()
            &&& p.arch == (match #[trigger] cs[i].arch { Some(a) => a, None => "x86_64"@ })
            &&& p.repo == (match cs[i].repo { Some(r) => r, None => "extra"@ })
            &&& p.pkgname == (match cs[i].pkgname { Some(n) => n, None => package })
            &&& p.version == (match cs[i].pkgver { Some(v) => v, None => Seq::<char>::empty() }) + seq!['-']
                + (match cs[i].pkgrel { Some(r) => r, None => "1"@ })
            &&& (cs[i].repo == Some("core"@) || cs[i].repo == Some("extra"@) || i == 0)
            &&& forall|j: int| 0 <= j < i ==> !(cs[j].repo == Some("core"@) || cs[j].repo == Some("extra"@))
            &&& (i == 0 && !(cs[0].repo == Some("core"@) || cs[0].repo == Some("extra"@))) ==> forall|j: int|
                0 <= j < cs.len() ==> !(cs[j].repo == Some("core"@) || cs[j].repo == Some("extra"@))
        },
{
    if cs.len() > 0 {
        lemma_first_main(cs, 0);
        let i = chosen(cs);
        let p = pkg_of(cs[i], package);
        assert(arch_pick(package, Some(cs)) == Ok::<ArchPkgView, Seq<char>>(p));
        assert(0 <= i < cs.len());
        if first_main(cs, 0) is None {
            assert(i == 0);
        }
        assert(forall|j: int| 0 <= j < i ==> !is_main_repo(#[trigger] cs[j]));
        assert(is_main_repo(cs[i]) || i == 0);
        assert(p.arch == (match cs[i].arch { Some(a) => a, None => "x86_64"@ }));
        assert(p.version == (match cs[i].pkgver { Some(v) => v, None => Seq::<char>::empty() }) + seq!['-']
            + (match cs[i].pkgrel { Some(r) => r, None => "1"@ }));
    }
}

} // verus!
