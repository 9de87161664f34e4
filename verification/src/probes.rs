//! The checks that tell whether a package is already on the host, which package manager
//! the host uses, and where a package came from. Running a check is the caller's (it
//! starts a process or looks at the file system); what to check, in which order, and
//! what the outcomes mean is decided here.
use vstd::prelude::*;
use crate::text::{chars_of, string_of, push_all, has_prefix, contains_chars, same_chars, copy_range};

verus! {

/// The host's own package manager.
#[derive(PartialEq, Eq, Structural, Clone, Copy, Debug)]
pub enum HostPm {
    Pacman,
    Apt,
    Rpm,
    Unknown,
}

/// One check on the host; it succeeds or fails.
#[derive(Debug, PartialEq, Eq)]
pub enum Probe {
    /// chiral's database lists the package.
    InDatabase(String),
    /// The program, run with these arguments, exits successfully (its output discarded
    /// when `quiet`).
    Command { program: String, args: Vec<String>, quiet: bool },
    /// The path exists.
    PathExists(String),
}

/// A probe as text.
pub enum ProbeSpec {
    InDatabase(Seq<char>),
    Command(Seq<char>, Seq<Seq<char>>, bool),
    PathExists(Seq<char>),
}

impl Probe {
    /// The check, with its strings as text.
    pub open spec fn spec(&self) -> ProbeSpec {
        match self {
            Probe::InDatabase(n) => ProbeSpec::InDatabase(n@),
            Probe::Command { program, args, quiet } => ProbeSpec::Command(program@, args.deep_view(), *quiet),
            Probe::PathExists(p) => ProbeSpec::PathExists(p@),
        }
    }
}

/// A command whose output is discarded.
pub open spec fn quiet_command(program: Seq<char>, args: Seq<Seq<char>>) -> ProbeSpec {
    ProbeSpec::Command(program, args, true)
}

fn text(s: &str) -> (out: String)
    ensures
        out@ == s@,
{
    String::from_str(s)
}

fn concat(a: &str, b: &str) -> (out: String)
    ensures
        out@ == a@ + b@,
{
    let mut out = String::from_str(a);
    out.append(b);
    out
}

fn concat3(a: &str, b: &str, c: &str) -> (out: String)
    ensures
        out@ == a@ + b@ + c@,
{
    let mut out = String::from_str(a);
    out.append(b);
    out.append(c);
    out
}

fn command(program: &str, a: String, b: Option<String>, quiet: bool) -> (p: Probe)
    ensures
        p.spec() == ProbeSpec::Command(
            program@,
            match b { Some(b) => seq![a@, b@], None => seq![a@] },
            quiet,
        ),
{
    let mut args: Vec<String> = Vec::new();
    let ghost av = a@;
    args.push(a);
    match b {
        Some(b) => {
            let ghost bv = b@;
            args.push(b);
            proof {
                assert(args.deep_view() =~= seq![av, bv]);
            }
        },
        None => {
            proof {
                assert(args.deep_view() =~= seq![av]);
            }
        },
    }
    Probe::Command { program: text(program), args, quiet }
}

/// The query of the host package manager for `name` (`pacman -Q`, `dpkg -s`, `rpm -q`).
pub open spec fn pm_query(pm: HostPm, name: Seq<char>) -> Seq<ProbeSpec> {
    match pm {
        HostPm::Pacman => seq![quiet_command("pacman"@, seq!["-Q"@, name])],
        HostPm::Apt => seq![quiet_command("dpkg"@, seq!["-s"@, name])],
        HostPm::Rpm => seq![quiet_command("rpm"@, seq!["-q"@, name])],
        HostPm::Unknown => seq![],
    }
}

/// The query of the host package manager for `name`, or none on an unknown host.
pub fn host_query(pm: HostPm, name: &str) -> (p: Option<Probe>)
    ensures
        pm_query(pm, name@) == match p { Some(p) => seq![p.spec()], None => Seq::<ProbeSpec>::empty() },
{
    match pm {
        HostPm::Pacman => Some(command("pacman", text("-Q"), Some(text(name)), true)),
        HostPm::Apt => Some(command("dpkg", text("-s"), Some(text(name)), true)),
        HostPm::Rpm => Some(command("rpm", text("-q"), Some(text(name)), true)),
        HostPm::Unknown => None,
    }
}

/// `s` with every leading occurrence of `p` removed (`str::trim_start_matches`).
pub open spec fn trim_start_matches(s: Seq<char>, p: Seq<char>) -> Seq<char>
    decreases s.len(),
{
    if p.len() > 0 && crate::text::starts_with(s, p) {
        trim_start_matches(s.skip(p.len() as int), p)
    } else {
        s
    }
}

/// `s` with every occurrence of `from` replaced by `to`, left to right (`str::replace`).
pub open spec fn replace_all(s: Seq<char>, from: Seq<char>, to: Seq<char>) -> Seq<char>
    decreases s.len(),
{
    if s.len() == 0 || from.len() == 0 {
        s
    } else if crate::text::starts_with(s, from) {
        to + replace_all(s.skip(from.len() as int), from, to)
    } else {
        seq![s[0]] + replace_all(s.drop_first(), from, to)
    }
}

/// `str::trim_start_matches` on a character slice.
pub fn trim_start_matches_exec(s: &[char], p: &[char]) -> (out: Vec<char>)
    ensures
        out@ == trim_start_matches(s@, p@),
{
    let mut i: usize = 0;
    if p.len() == 0 {
        return crate::text::copy_range(s, 0, s.len());
    }
    assert(s@.skip(0) =~= s@);
    while i < s.len()
        invariant
            p@.len() > 0,
            i <= s@.len(),
            trim_start_matches(s@, p@) == trim_start_matches(s@.skip(i as int), p@),
        decreases s@.len() - i,
    {
        let rest = crate::text::copy_range(s, i, s.len());
        proof {
            assert(rest@ =~= s@.skip(i as int));
        }
        if !has_prefix(rest.as_slice(), p) {
            return rest;
        }
        proof {
            assert(s@.skip(i as int).skip(p@.len() as int) =~= s@.skip(i + p@.len()));
        }
        i = i + p.len();
    }
    proof {
        assert(s@.skip(i as int) =~= Seq::<char>::empty());
        assert(!crate::text::starts_with(Seq::<char>::empty(), p@));
    }
    Vec::new()
}

/// `str::replace` on a character slice (with a pattern that is not empty).
pub fn replace_exec(s: &[char], from: &[char], to: &[char]) -> (out: Vec<char>)
    requires
        from@.len() > 0,
    ensures
        out@ == replace_all(s@, from@, to@),
{
    let mut out: Vec<char> = Vec::new();
    let mut i: usize = 0;
    assert(s@.skip(0) =~= s@);
    while i < s.len()
        invariant
            from@.len() > 0,
            i <= s@.len(),
            replace_all(s@, from@, to@) == out@ + replace_all(s@.skip(i as int), from@, to@),
        decreases s@.len() - i,
    {
        let ghost rest = s@.skip(i as int);
        if crate::text::occurs_at_exec(s, from, i) {
            proof {
                assert(rest.subrange(0, from@.len() as int) =~= s@.subrange(i as int, i + from@.len()));
                assert(rest.skip(from@.len() as int) =~= s@.skip(i + from@.len()));
            }
            let ghost before = out@;
            push_all(&mut out, to);
            proof {
                assert(out@ + replace_all(s@.skip(i + from@.len()), from@, to@) =~= before + (to@ + replace_all(rest.skip(from@.len() as int), from@, to@)));
            }
            i = i + from.len();
        } else {
            proof {
                if i + from@.len() <= s@.len() {
                    assert(rest.subrange(0, from@.len() as int) =~= s@.subrange(i as int, i + from@.len()));
                }
                assert(rest.drop_first() =~= s@.skip(i + 1));
                assert(rest[0] == s@[i as int]);
            }
            let ghost before = out@;
            out.push(s[i]);
            proof {
                assert(out@ + replace_all(s@.skip(i + 1), from@, to@) =~= before + (seq![s@[i as int]] + replace_all(rest.drop_first(), from@, to@)));
            }
            i = i + 1;
        }
    }
    proof {
        assert(s@.skip(i as int) =~= Seq::<char>::empty());
        assert(out@ + Seq::<char>::empty() =~= out@);
    }
    out
}

impl View for HostPm {
    type V = HostPm;

    open spec fn view(&self) -> HostPm {
        *self
    }
}

/// Where a chain of checks stands, given the outcomes of the checks run so far: the
/// first check that succeeded, the next check to run, or every check failed.
#[derive(PartialEq, Eq, Structural, Clone, Copy, Debug)]
pub enum Chain {
    Hit(usize),
    Next(usize),
    Exhausted,
}

/// The first successful outcome at or after `k` among the first `n` checks.
pub open spec fn first_true(a: Seq<bool>, k: int, n: int) -> Option<int>
    decreases n - k,
{
    if k >= n || k >= a.len() {
        None
    } else if a[k] {
        Some(k)
    } else {
        first_true(a, k + 1, n)
    }
}

/// The position of a chain of `n` checks whose outcomes so far are `answers` (outcomes
/// beyond the `n` checks are ignored). Checks run in order and the chain stops at the
/// first success.
pub open spec fn chain_spec(n: int, answers: Seq<bool>) -> Chain {
    match first_true(answers, 0, n) {
        Some(i) => Chain::Hit(i as usize),
        None => if answers.len() < n {
            Chain::Next(answers.len() as usize)
        } else {
            Chain::Exhausted
        },
    }
}

/// The first success found lies in range and is a success.
pub proof fn lemma_first_true_bounds(a: Seq<bool>, k: int, n: int)
    requires
        0 <= k,
    ensures
        first_true(a, k, n) matches Some(i) ==> k <= i < n && i < a.len() && a[i],
    decreases n - k,
{
    if k < n && k < a.len() && !a[k] {
        lemma_first_true_bounds(a, k + 1, n);
    }
}

/// Where a chain of `n` checks stands.
pub fn chain_position(n: usize, answers: &[bool]) -> (c: Chain)
    ensures
        c == chain_spec(n as int, answers@),
{
    let mut k: usize = 0;
    while k < n && k < answers.len()
        invariant
            k <= n,
            k <= answers@.len(),
            first_true(answers@, 0, n as int) == first_true(answers@, k as int, n as int),
        decreases n - k,
    {
        if answers[k] {
            proof {
                lemma_first_true_bounds(answers@, 0, n as int);
            }
            return Chain::Hit(k);
        }
        k = k + 1;
    }
    if answers.len() < n {
        Chain::Next(answers.len())
    } else {
        Chain::Exhausted
    }
}

/// A step of a chain of checks: run this check, or the answer.
#[derive(Debug, PartialEq, Eq)]
pub enum Step<T> {
    Run(Probe),
    Done(T),
}

/// A step as text.
pub enum Outcome<V> {
    Run(ProbeSpec),
    Done(V),
}

impl<T: View> Step<T> {
    /// The step, with its check as text and its answer by its view.
    pub open spec fn view(&self) -> Outcome<T::V> {
        match self {
            Step::Run(p) => Outcome::Run(p.spec()),
            Step::Done(v) => Outcome::Done(v@),
        }
    }
}

/// The checks of a list, as text.
pub open spec fn specs_of(ps: Seq<Probe>) -> Seq<ProbeSpec> {
    ps.map_values(|p: Probe| p.spec())
}

fn push_probe(ps: &mut Vec<Probe>, p: Probe)
    ensures
        specs_of(final(ps)@) == specs_of(old(ps)@).push(p.spec()),
{
    let ghost ps0 = ps@;
    let ghost sp = p.spec();
    ps.push(p);
    proof {
        assert(specs_of(ps@) =~= specs_of(ps0).push(sp));
    }
}

fn push_probes(ps: &mut Vec<Probe>, more: Vec<Probe>)
    ensures
        specs_of(final(ps)@) == specs_of(old(ps)@) + specs_of(more@),
{
    let ghost ps0 = ps@;
    let ghost m0 = more@;
    let mut more = more;
    ps.append(&mut more);
    proof {
        assert(specs_of(ps@) =~= specs_of(ps0) + specs_of(m0));
    }
}

/// `sh -c script`.
pub open spec fn sh_probe(script: Seq<char>, quiet: bool) -> ProbeSpec {
    ProbeSpec::Command("sh"@, seq!["-c"@, script], quiet)
}

/// `pkg-config --exists name`.
pub open spec fn pkg_config_probe(name: Seq<char>) -> ProbeSpec {
    quiet_command("pkg-config"@, seq!["--exists"@, name])
}

/// The checks for a shared library, made only for a name that holds `.so`: the
/// `ldconfig` cache, then four library directories.
pub open spec fn library_probes(dep: Seq<char>) -> Seq<ProbeSpec> {
    if crate::text::contains_seq(dep, ".so"@) {
        seq![
            sh_probe("ldconfig -p 2>/dev/null | grep -q '"@ + dep + "'"@, false),
            ProbeSpec::PathExists("/usr/lib/"@ + dep),
            ProbeSpec::PathExists("/lib/"@ + dep),
            ProbeSpec::PathExists("/usr/local/lib/"@ + dep),
            ProbeSpec::PathExists("/usr/lib/x86_64-linux-gnu/"@ + dep),
        ]
    } else {
        seq![]
    }
}

/// The other `pkg-config` names tried for `dep`: without leading `lib`s, with `-` made
/// `_`, and with every `lib` and `-` taken out.
pub open spec fn name_variants(dep: Seq<char>) -> Seq<Seq<char>> {
    seq![
        trim_start_matches(dep, "lib"@),
        replace_all(dep, "-"@, "_"@),
        replace_all(replace_all(dep, "lib"@, Seq::empty()), "-"@, Seq::empty()),
    ]
}

/// The places where a hand-installed package leaves files.
pub open spec fn file_probes(dep: Seq<char>) -> Seq<ProbeSpec> {
    seq![
        ProbeSpec::PathExists("/usr/bin/"@ + dep),
        ProbeSpec::PathExists("/usr/local/bin/"@ + dep),
        ProbeSpec::PathExists("/usr/sbin/"@ + dep),
        ProbeSpec::PathExists("/usr/lib/lib"@ + dep + ".so"@),
        ProbeSpec::PathExists("/usr/local/lib/lib"@ + dep + ".so"@),
        ProbeSpec::PathExists("/usr/lib/lib"@ + dep + ".a"@),
        ProbeSpec::PathExists("/usr/include/"@ + dep),
        ProbeSpec::PathExists("/usr/include/"@ + trim_start_matches(dep, "lib"@)),
        ProbeSpec::PathExists("/usr/local/include/"@ + dep),
        ProbeSpec::PathExists("/usr/lib/pkgconfig/"@ + dep + ".pc"@),
        ProbeSpec::PathExists("/usr/share/pkgconfig/"@ + dep + ".pc"@),
        ProbeSpec::PathExists("/usr/local/lib/pkgconfig/"@ + dep + ".pc"@),
    ]
}

/// Every check that can show `dep` to be on the host, in the order they are made:
/// chiral's database, the host package manager, a program on `PATH`, a shared library,
/// `pkg-config` under the name and its variants, and files in the usual places.
pub open spec fn system_probes(dep: Seq<char>, pm: HostPm) -> Seq<ProbeSpec> {
    seq![ProbeSpec::InDatabase(dep)]
        + pm_query(pm, dep)
        + seq![sh_probe("command -v "@ + dep, true)]
        + library_probes(dep)
        + seq![pkg_config_probe(dep)]
        + name_variants(dep).map_values(|v: Seq<char>| pkg_config_probe(v))
        + file_probes(dep)
}

fn sh(script: String, quiet: bool) -> (p: Probe)
    ensures
        p.spec() == sh_probe(script@, quiet),
{
    command("sh", text("-c"), Some(script), quiet)
}

fn pkg_config(name: String) -> (p: Probe)
    ensures
        p.spec() == pkg_config_probe(name@),
{
    command("pkg-config", text("--exists"), Some(name), true)
}

fn path_probe(dir: &str, name: &str, suffix: &str) -> (p: Probe)
    ensures
        p.spec() == ProbeSpec::PathExists(dir@ + name@ + suffix@),
{
    Probe::PathExists(concat3(dir, name, suffix))
}

fn without_lib(dep: &str) -> (out: String)
    ensures
        out@ == trim_start_matches(dep@, "lib"@),
{
    let d = chars_of(dep);
    let l = chars_of("lib");
    let t = trim_start_matches_exec(d.as_slice(), l.as_slice());
    string_of(t.as_slice())
}

fn library_probe_list(dep: &str) -> (ps: Vec<Probe>)
    ensures
        specs_of(ps@) == library_probes(dep@),
{
    let mut ps: Vec<Probe> = Vec::new();
    let d = chars_of(dep);
    let so = chars_of(".so");
    if !contains_chars(d.as_slice(), so.as_slice()) {
        proof {
            assert(specs_of(ps@) =~= Seq::<ProbeSpec>::empty());
        }
        return ps;
    }
    push_probe(&mut ps, sh(concat3("ldconfig -p 2>/dev/null | grep -q '", dep, "'"), false));
    push_probe(&mut ps, path_probe("/usr/lib/", dep, ""));
    push_probe(&mut ps, path_probe("/lib/", dep, ""));
    push_probe(&mut ps, path_probe("/usr/local/lib/", dep, ""));
    push_probe(&mut ps, path_probe("/usr/lib/x86_64-linux-gnu/", dep, ""));
    proof {
        reveal_strlit("");
        assert("/usr/lib/"@ + dep@ + ""@ =~= "/usr/lib/"@ + dep@);
        assert("/lib/"@ + dep@ + ""@ =~= "/lib/"@ + dep@);
        assert("/usr/local/lib/"@ + dep@ + ""@ =~= "/usr/local/lib/"@ + dep@);
        assert("/usr/lib/x86_64-linux-gnu/"@ + dep@ + ""@ =~= "/usr/lib/x86_64-linux-gnu/"@ + dep@);
        assert(specs_of(ps@) =~= library_probes(dep@));
    }
    ps
}

fn variant_probe_list(dep: &str) -> (ps: Vec<Probe>)
    ensures
        specs_of(ps@) == name_variants(dep@).map_values(|v: Seq<char>| pkg_config_probe(v)),
{
    let d = chars_of(dep);
    let lib = chars_of("lib");
    let dash = chars_of("-");
    let under = chars_of("_");
    let none: Vec<char> = Vec::new();
    proof {
        reveal_strlit("-");
        reveal_strlit("lib");
    }
    let v1 = trim_start_matches_exec(d.as_slice(), lib.as_slice());
    let v2 = replace_exec(d.as_slice(), dash.as_slice(), under.as_slice());
    let v3a = replace_exec(d.as_slice(), lib.as_slice(), none.as_slice());
    let v3 = replace_exec(v3a.as_slice(), dash.as_slice(), none.as_slice());
    let mut ps: Vec<Probe> = Vec::new();
    push_probe(&mut ps, pkg_config(string_of(v1.as_slice())));
    push_probe(&mut ps, pkg_config(string_of(v2.as_slice())));
    push_probe(&mut ps, pkg_config(string_of(v3.as_slice())));
    proof {
        assert(none@ =~= Seq::<char>::empty());
        assert(specs_of(ps@) =~= name_variants(dep@).map_values(|v: Seq<char>| pkg_config_probe(v)));
    }
    ps
}

fn file_probe_list(dep: &str) -> (ps: Vec<Probe>)
    ensures
        specs_of(ps@) == file_probes(dep@),
{
    let bare = without_lib(dep);
    let mut ps: Vec<Probe> = Vec::new();
    push_probe(&mut ps, path_probe("/usr/bin/", dep, ""));
    push_probe(&mut ps, path_probe("/usr/local/bin/", dep, ""));
    push_probe(&mut ps, path_probe("/usr/sbin/", dep, ""));
    push_probe(&mut ps, path_probe("/usr/lib/lib", dep, ".so"));
    push_probe(&mut ps, path_probe("/usr/local/lib/lib", dep, ".so"));
    push_probe(&mut ps, path_probe("/usr/lib/lib", dep, ".a"));
    push_probe(&mut ps, path_probe("/usr/include/", dep, ""));
    push_probe(&mut ps, path_probe("/usr/include/", bare.as_str(), ""));
    push_probe(&mut ps, path_probe("/usr/local/include/", dep, ""));
    push_probe(&mut ps, path_probe("/usr/lib/pkgconfig/", dep, ".pc"));
    push_probe(&mut ps, path_probe("/usr/share/pkgconfig/", dep, ".pc"));
    push_probe(&mut ps, path_probe("/usr/local/lib/pkgconfig/", dep, ".pc"));
    proof {
        reveal_strlit("");
        assert(forall|a: Seq<char>, b: Seq<char>| #![auto] a + b + ""@ =~= a + b);
        assert(specs_of(ps@) =~= file_probes(dep@));
    }
    ps
}

/// The checks of `system_probes`, in order.
pub fn system_probe_list(dep: &str, pm: HostPm) -> (ps: Vec<Probe>)
    ensures
        specs_of(ps@) == system_probes(dep@, pm),
{
    let mut ps: Vec<Probe> = Vec::new();
    push_probe(&mut ps, Probe::InDatabase(text(dep)));
    match host_query(pm, dep) {
        Some(p) => push_probe(&mut ps, p),
        None => {},
    }
    push_probe(&mut ps, sh(concat("command -v ", dep), true));
    push_probes(&mut ps, library_probe_list(dep));
    push_probe(&mut ps, pkg_config(text(dep)));
    push_probes(&mut ps, variant_probe_list(dep));
    push_probes(&mut ps, file_probe_list(dep));
    proof {
        assert(specs_of(ps@) =~= system_probes(dep@, pm));
    }
    ps
}

/// What the checks say of `dep` after the outcomes `answers`: run the next check, or
/// the answer (present at the first success, absent when every check failed).
pub open spec fn has_outcome(dep: Seq<char>, pm: HostPm, answers: Seq<bool>) -> Outcome<bool> {
    let ps = system_probes(dep, pm);
    match chain_spec(ps.len() as int, answers) {
        Chain::Hit(_) => Outcome::Done(true),
        Chain::Next(i) => Outcome::Run(ps[i as int]),
        Chain::Exhausted => Outcome::Done(false),
    }
}

/// Whether `dep` is already on the host, one check at a time: given the outcomes of the
/// checks run so far, the next check to run or the answer.
pub fn system_has(dep: &str, pm: HostPm, answers: &[bool]) -> (step: Step<bool>)
    ensures
        step@ == has_outcome(dep@, pm, answers@),
{
    let mut ps = system_probe_list(dep, pm);
    let c = chain_position(ps.len(), answers);
    match c {
        Chain::Hit(_) => Step::Done(true),
        Chain::Next(i) => {
            proof {
                lemma_first_true_bounds(answers@, 0, ps@.len() as int);
                assert(specs_of(ps@)[i as int] == ps@[i as int].spec());
            }
            Step::Run(ps.remove(i))
        },
        Chain::Exhausted => Step::Done(false),
    }
}

// ---------------------------------------------------------------------------
// Which package manager the host uses
// ---------------------------------------------------------------------------

/// `pacman --version`, `dpkg --version`, `rpm --version`, tried in this order.
pub open spec fn pm_probes() -> Seq<ProbeSpec> {
    seq![
        quiet_command("pacman"@, seq!["--version"@]),
        quiet_command("dpkg"@, seq!["--version"@]),
        quiet_command("rpm"@, seq!["--version"@]),
    ]
}

/// The package manager that the `i`th check of `pm_probes` finds.
pub open spec fn pm_found(i: int) -> HostPm {
    if i == 0 {
        HostPm::Pacman
    } else if i == 1 {
        HostPm::Apt
    } else {
        HostPm::Rpm
    }
}

/// The host's package manager is the first whose program runs; none is `Unknown`.
pub open spec fn pm_outcome(answers: Seq<bool>) -> Outcome<HostPm> {
    match chain_spec(3, answers) {
        Chain::Hit(i) => Outcome::Done(pm_found(i as int)),
        Chain::Next(i) => Outcome::Run(pm_probes()[i as int]),
        Chain::Exhausted => Outcome::Done(HostPm::Unknown),
    }
}

/// Which package manager the host uses, one check at a time.
pub fn detect_host_pm(answers: &[bool]) -> (step: Step<HostPm>)
    ensures
        step@ == pm_outcome(answers@),
{
    match chain_position(3, answers) {
        Chain::Hit(i) => {
            proof {
                lemma_first_true_bounds(answers@, 0, 3);
            }
            if i == 0 {
                Step::Done(HostPm::Pacman)
            } else if i == 1 {
                Step::Done(HostPm::Apt)
            } else {
                Step::Done(HostPm::Rpm)
            }
        },
        Chain::Next(i) => {
            let program = if i == 0 {
                "pacman"
            } else if i == 1 {
                "dpkg"
            } else {
                "rpm"
            };
            Step::Run(command(program, text("--version"), None, true))
        },
        Chain::Exhausted => Step::Done(HostPm::Unknown),
    }
}

// ---------------------------------------------------------------------------
// Where a package came from
// ---------------------------------------------------------------------------

/// The names that `rustup` manages.
pub open spec fn is_rust_tool(name: Seq<char>) -> bool {
    name == "rust"@ || name == "rustc"@ || name == "cargo"@ || name == "rustup"@
}

/// How the host package manager is named in a report.
pub open spec fn pm_label(pm: HostPm) -> Seq<char> {
    match pm {
        HostPm::Pacman => "pacman"@,
        HostPm::Apt => "apt/dpkg"@,
        HostPm::Rpm => "rpm"@,
        HostPm::Unknown => "system"@,
    }
}

/// The checks that tell where `name` came from, each with the source it names: the host
/// package manager, `rustup` (for its own tools), `PATH`, `pkg-config`.
pub open spec fn source_checks(name: Seq<char>, pm: HostPm) -> Seq<(ProbeSpec, Seq<char>)> {
    pm_query(pm, name).map_values(|q: ProbeSpec| (q, pm_label(pm)))
        + (if is_rust_tool(name) {
            seq![(quiet_command("rustup"@, seq!["show"@]), "rustup"@)]
        } else {
            seq![]
        })
        + seq![
            (sh_probe("command -v "@ + name, true), "manual/PATH"@),
            (pkg_config_probe(name), "manual/pkg-config"@),
        ]
}

/// The source is the one named by the first check that succeeds, `unknown` when none does.
pub open spec fn source_outcome(name: Seq<char>, pm: HostPm, answers: Seq<bool>) -> Outcome<Seq<char>> {
    let cs = source_checks(name, pm);
    match chain_spec(cs.len() as int, answers) {
        Chain::Hit(i) => Outcome::Done(cs[i as int].1),
        Chain::Next(i) => Outcome::Run(cs[i as int].0),
        Chain::Exhausted => Outcome::Done("unknown"@),
    }
}

fn pm_label_exec(pm: HostPm) -> (s: String)
    ensures
        s@ == pm_label(pm),
{
    match pm {
        HostPm::Pacman => text("pacman"),
        HostPm::Apt => text("apt/dpkg"),
        HostPm::Rpm => text("rpm"),
        HostPm::Unknown => text("system"),
    }
}

fn is_rust_tool_exec(name: &str) -> (r: bool)
    ensures
        r == is_rust_tool(name@),
{
    let n = chars_of(name);
    let a = chars_of("rust");
    let b = chars_of("rustc");
    let c = chars_of("cargo");
    let d = chars_of("rustup");
    same_chars(n.as_slice(), a.as_slice()) || same_chars(n.as_slice(), b.as_slice())
        || same_chars(n.as_slice(), c.as_slice()) || same_chars(n.as_slice(), d.as_slice())
}

/// Where `name` came from, one check at a time.
pub fn detect_install_source(name: &str, pm: HostPm, answers: &[bool]) -> (step: Step<String>)
    ensures
        step@ == source_outcome(name@, pm, answers@),
{
    let mut ps: Vec<Probe> = Vec::new();
    let mut labels: Vec<String> = Vec::new();
    match host_query(pm, name) {
        Some(q) => {
            push_probe(&mut ps, q);
            labels.push(pm_label_exec(pm));
        },
        None => {},
    }
    if is_rust_tool_exec(name) {
        push_probe(&mut ps, command("rustup", text("show"), None, true));
        labels.push(text("rustup"));
    }
    push_probe(&mut ps, sh(concat("command -v ", name), true));
    labels.push(text("manual/PATH"));
    push_probe(&mut ps, pkg_config(text(name)));
    labels.push(text("manual/pkg-config"));
    let ghost cs = source_checks(name@, pm);
    proof {
        assert(specs_of(ps@).len() == cs.len());
        assert(labels@.len() == cs.len());
        assert forall|i: int| 0 <= i < cs.len() implies #[trigger] cs[i] == (specs_of(ps@)[i], labels@[i]@) by {
        }
    }
    match chain_position(ps.len(), answers) {
        Chain::Hit(i) => {
            proof {
                lemma_first_true_bounds(answers@, 0, ps@.len() as int);
            }
            Step::Done(labels.remove(i))
        },
        Chain::Next(i) => {
            proof {
                assert(specs_of(ps@)[i as int] == ps@[i as int].spec());
            }
            Step::Run(ps.remove(i))
        },
        Chain::Exhausted => Step::Done(text("unknown")),
    }
}

// ---------------------------------------------------------------------------
// The version the host package manager reports
// ---------------------------------------------------------------------------

/// Splitting state after reading `s`: the finished words and the word being read.
pub open spec fn word_scan(s: Seq<char>) -> (Seq<Seq<char>>, Seq<char>)
    decreases s.len(),
{
    if s.len() == 0 {
        (seq![], seq![])
    } else {
        let p = word_scan(s.drop_last());
        if crate::text::is_space(s.last()) {
            (if p.1.len() > 0 { p.0.push(p.1) } else { p.0 }, seq![])
        } else {
            (p.0, p.1.push(s.last()))
        }
    }
}

/// The words of `s` (`str::split_whitespace`): the longest runs without white space.
pub open spec fn words(s: Seq<char>) -> Seq<Seq<char>> {
    let p = word_scan(s);
    if p.1.len() > 0 {
        p.0.push(p.1)
    } else {
        p.0
    }
}

/// `str::split_whitespace` on a character slice.
pub fn split_words(s: &[char]) -> (out: Vec<Vec<char>>)
    ensures
        out.deep_view() == words(s@),
{
    let mut done: Vec<Vec<char>> = Vec::new();
    let mut cur: Vec<char> = Vec::new();
    let mut i: usize = 0;
    while i < s.len()
        invariant
            i <= s@.len(),
            (done.deep_view(), cur@) == word_scan(s@.take(i as int)),
        decreases s@.len() - i,
    {
        proof {
            assert(s@.take(i + 1).drop_last() =~= s@.take(i as int));
            assert(s@.take(i + 1).last() == s@[i as int]);
        }
        if crate::text::is_space_char(s[i]) {
            if cur.len() > 0 {
                let ghost before = done.deep_view();
                let word = cur;
                cur = Vec::new();
                done.push(word);
                proof {
                    assert(word.deep_view() =~= word@);
                    assert(done.deep_view() =~= before.push(word@));
                }
            }
            proof {
                assert(cur@ =~= Seq::<char>::empty());
            }
        } else {
            cur.push(s[i]);
        }
        i = i + 1;
    }
    proof {
        assert(s@.take(s@.len() as int) =~= s@);
    }
    if cur.len() > 0 {
        let ghost before = done.deep_view();
        proof {
            assert(cur.deep_view() =~= cur@);
        }
        done.push(cur);
        proof {
            assert(done.deep_view() =~= before.push(word_scan(s@).1));
        }
    }
    done
}

/// The first of `ls`, from the `k`th on, that starts with `p`.
pub open spec fn first_starting(ls: Seq<Seq<char>>, p: Seq<char>, k: int) -> Option<int>
    decreases ls.len() - k,
{
    if k < 0 || k >= ls.len() {
        None
    } else if crate::text::starts_with(ls[k], p) {
        Some(k)
    } else {
        first_starting(ls, p, k + 1)
    }
}

/// What `first_starting` finds starts with the prefix, and nothing before it does.
pub proof fn lemma_first_starting(ls: Seq<Seq<char>>, p: Seq<char>, k: int)
    requires
        0 <= k,
    ensures
        first_starting(ls, p, k) matches Some(i) ==> k <= i < ls.len() && crate::text::starts_with(ls[i], p),
        first_starting(ls, p, k) is None ==> forall|j: int| k <= j < ls.len() ==> !crate::text::starts_with(#[trigger] ls[j], p),
    decreases ls.len() - k,
{
    if k < ls.len() && !crate::text::starts_with(ls[k], p) {
        lemma_first_starting(ls, p, k + 1);
    }
}

/// The version in what the host package manager printed for a package: the second word
/// of `pacman -Q`; all that follows `Version:` on the first line of `dpkg -s` that starts
/// with it (an epoch such as `1:` included); all of `rpm -q`; each without surrounding
/// white space.
pub open spec fn system_version(pm: HostPm, out: Seq<char>) -> Option<Seq<char>> {
    match pm {
        HostPm::Pacman => if words(out).len() > 1 {
            Some(words(out)[1])
        } else {
            None
        },
        HostPm::Apt => match first_starting(crate::text::lines(out), "Version:"@, 0) {
            Some(i) => Some(crate::text::trimmed(crate::text::lines(out)[i].skip(8))),
            None => None,
        },
        HostPm::Rpm => Some(crate::text::trimmed(out)),
        HostPm::Unknown => None,
    }
}

/// The version that the host package manager reported, from what its query printed.
pub fn get_system_version(pm: HostPm, out: &str) -> (v: Option<String>)
    ensures
        match v {
            Some(v) => system_version(pm, out@) == Some(v@),
            None => system_version(pm, out@) is None,
        },
{
    let cs = chars_of(out);
    match pm {
        HostPm::Pacman => {
            let ws = split_words(cs.as_slice());
            if ws.len() > 1 {
                proof {
                    assert(ws.deep_view()[1] == ws@[1]@);
                }
                Some(string_of(ws[1].as_slice()))
            } else {
                None
            }
        },
        HostPm::Apt => {
            let ls = crate::text::split_lines(cs.as_slice());
            let key = chars_of("Version:");
            let mut k: usize = 0;
            proof {
                lemma_first_starting(ls.deep_view(), key@, 0);
            }
            while k < ls.len()
                invariant
                    pm == HostPm::Apt,
                    k <= ls@.len(),
                    ls.deep_view() == crate::text::lines(out@),
                    key@ == "Version:"@,
                    first_starting(ls.deep_view(), key@, 0) == first_starting(ls.deep_view(), key@, k as int),
                decreases ls@.len() - k,
            {
                proof {
                    assert(ls.deep_view()[k as int] == ls@[k as int]@);
                }
                if has_prefix(ls[k].as_slice(), key.as_slice()) {
                    proof {
                        reveal_strlit("Version:");
                        assert(first_starting(ls.deep_view(), key@, k as int) == Some(k as int));
                    }
                    let line = &ls[k];
                    let value = copy_range(line.as_slice(), 8, line.len());
                    proof {
                        assert(value@ =~= ls@[k as int]@.skip(8));
                    }
                    let t = crate::text::trim_chars(value.as_slice());
                    return Some(string_of(t.as_slice()));
                }
                k = k + 1;
            }
            None
        },
        HostPm::Rpm => {
            let t = crate::text::trim_chars(cs.as_slice());
            Some(string_of(t.as_slice()))
        },
        HostPm::Unknown => None,
    }
}

} // verus!
