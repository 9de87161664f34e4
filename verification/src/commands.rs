//! The decisions of the commands (install, remove, update, info) that depend on the
//! database alone, and the grouping of a package's files for display.
use vstd::prelude::*;
use crate::text::{chars_of, contains_chars, same_chars};
use crate::db::{db_is_installed, db_get_entry, db_list};

verus! {

/// Installing `package` is refused when the database `raw` already lists it.
pub open spec fn install_refusal(raw: Seq<char>, package: Seq<char>) -> Option<Seq<char>> {
    if crate::db::is_listed(raw, package) {
        Some("'"@ + package + "' is already installed. Use 'chiral update "@ + package + "' to upgrade."@)
    } else {
        None
    }
}

/// Whether `package` may be installed over the database `raw`: an error when it is
/// already installed.
pub fn install_check(raw: &str, package: &str) -> (r: Result<(), String>)
    ensures
        match r {
            Ok(()) => install_refusal(raw@, package@) is None,
            Err(e) => install_refusal(raw@, package@) == Some(e@),
        },
{
    if db_is_installed(raw, package) {
        let mut e = String::from_str("'");
        e.append(package);
        e.append("' is already installed. Use 'chiral update ");
        e.append(package);
        e.append("' to upgrade.");
        Err(e)
    } else {
        Ok(())
    }
}

/// Removing `package` is refused when the database `raw` does not list it.
pub open spec fn remove_refusal(raw: Seq<char>, package: Seq<char>) -> Option<Seq<char>> {
    if crate::db::is_listed(raw, package) {
        None
    } else {
        Some("'"@ + package + "' is not installed."@)
    }
}

/// Whether `package` may be removed: an error when it is not installed.
pub fn remove_check(raw: &str, package: &str) -> (r: Result<(), String>)
    ensures
        match r {
            Ok(()) => remove_refusal(raw@, package@) is None,
            Err(e) => remove_refusal(raw@, package@) == Some(e@),
        },
{
    if db_is_installed(raw, package) {
        Ok(())
    } else {
        let mut e = String::from_str("'");
        e.append(package);
        e.append("' is not installed.");
        Err(e)
    }
}

/// What an update is about.
#[derive(Debug, PartialEq, Eq)]
pub enum UpdateTarget {
    /// Every installed package, in the database's order (`all`).
    Every(Vec<String>),
    /// The one package named.
    One,
}

/// An update target as text.
pub enum UpdateTargetView {
    Every(Seq<Seq<char>>),
    One,
}

impl View for UpdateTarget {
    type V = UpdateTargetView;

    open spec fn view(&self) -> UpdateTargetView {
        match self {
            UpdateTarget::Every(ns) => UpdateTargetView::Every(ns.deep_view()),
            UpdateTarget::One => UpdateTargetView::One,
        }
    }
}

/// `all` updates every installed package; another name is updated only if installed.
pub open spec fn update_spec(raw: Seq<char>, package: Seq<char>) -> Result<UpdateTargetView, Seq<char>> {
    if package == "all"@ {
        Ok(UpdateTargetView::Every(crate::remote::entry_names(crate::db::listed(raw))))
    } else if crate::db::is_listed(raw, package) {
        Ok(UpdateTargetView::One)
    } else {
        Err("'"@ + package + "' is not installed. Use 'chiral install "@ + package + "' first."@)
    }
}

/// What `chiral update package` updates, given the database `raw`.
pub fn update_target(raw: &str, package: &str) -> (r: Result<UpdateTarget, String>)
    ensures
        match r {
            Ok(t) => update_spec(raw@, package@) == Ok::<UpdateTargetView, Seq<char>>(t@),
            Err(e) => update_spec(raw@, package@) == Err::<UpdateTargetView, Seq<char>>(e@),
        },
{
    let p = chars_of(package);
    let all = chars_of("all");
    if same_chars(p.as_slice(), all.as_slice()) {
        let es = db_list(raw);
        let mut names: Vec<String> = Vec::new();
        let mut i: usize = 0;
        while i < es.len()
            invariant
                i <= es@.len(),
                es.deep_view() == crate::db::listed(raw@),
                names.deep_view() == crate::remote::entry_names(es.deep_view()).take(i as int),
            decreases es@.len() - i,
        {
            let ghost before = names.deep_view();
            let name = es[i].0.clone();
            names.push(name);
            proof {
                assert(es.deep_view()[i as int] == es@[i as int].deep_view());
                assert(names.deep_view() =~= before.push(es@[i as int].0@));
                assert(names.deep_view() =~= crate::remote::entry_names(es.deep_view()).take(i + 1));
            }
            i = i + 1;
        }
        proof {
            assert(crate::remote::entry_names(es.deep_view()).take(es@.len() as int) =~= crate::remote::entry_names(es.deep_view()));
        }
        return Ok(UpdateTarget::Every(names));
    }
    if db_is_installed(raw, package) {
        Ok(UpdateTarget::One)
    } else {
        let mut e = String::from_str("'");
        e.append(package);
        e.append("' is not installed. Use 'chiral install ");
        e.append(package);
        e.append("' first.");
        Err(e)
    }
}

/// What `chiral info` reports on a package.
#[derive(Debug, PartialEq, Eq)]
pub enum InfoStatus {
    /// chiral installed it: its version and source.
    Managed(String, String),
    /// It is on the host, put there by something else.
    Foreign,
    /// Neither.
    Missing(String),
}

/// An info report as text.
pub enum InfoStatusView {
    Managed(Seq<char>, Seq<char>),
    Foreign,
    Missing(Seq<char>),
}

impl View for InfoStatus {
    type V = InfoStatusView;

    open spec fn view(&self) -> InfoStatusView {
        match self {
            InfoStatus::Managed(v, s) => InfoStatusView::Managed(v@, s@),
            InfoStatus::Foreign => InfoStatusView::Foreign,
            InfoStatus::Missing(m) => InfoStatusView::Missing(m@),
        }
    }
}

/// A package the database lists is reported with its first entry's version and source;
/// another is reported as foreign when the host has it (`on_system`), else as missing.
pub open spec fn info_spec(raw: Seq<char>, package: Seq<char>, on_system: bool) -> InfoStatusView {
    if crate::db::is_listed(raw, package) {
        match crate::db::first_entry(crate::db::listed(raw), package) {
            Some(e) => InfoStatusView::Managed(e.0, e.1),
            None => InfoStatusView::Missing("'"@ + package + "' not found in DB"@),
        }
    } else if on_system {
        InfoStatusView::Foreign
    } else {
        InfoStatusView::Missing("'"@ + package + "' is not installed by chiral or found on this system."@)
    }
}

/// What `chiral info package` reports, given the database `raw` and whether the host has
/// the package (asked only about a package the database does not list).
pub fn info_status(raw: &str, package: &str, on_system: bool) -> (r: InfoStatus)
    ensures
        r@ == info_spec(raw@, package@, on_system),
{
    if db_is_installed(raw, package) {
        match db_get_entry(raw, package) {
            Some((v, s)) => InfoStatus::Managed(v, s),
            None => {
                let mut e = String::from_str("'");
                e.append(package);
                e.append("' not found in DB");
                InfoStatus::Missing(e)
            },
        }
    } else if on_system {
        InfoStatus::Foreign
    } else {
        let mut e = String::from_str("'");
        e.append(package);
        e.append("' is not installed by chiral or found on this system.");
        InfoStatus::Missing(e)
    }
}

/// The group a file is shown in: 0 programs (`/bin/`), 1 libraries (`/lib/`), 2 headers
/// (`/include/`), 3 manual pages (`/man/`), 4 the rest; the first that applies.
pub open spec fn file_kind(f: Seq<char>) -> int {
    if crate::text::contains_seq(f, "/bin/"@) {
        0
    } else if crate::text::contains_seq(f, "/lib/"@) {
        1
    } else if crate::text::contains_seq(f, "/include/"@) {
        2
    } else if crate::text::contains_seq(f, "/man/"@) {
        3
    } else {
        4
    }
}

/// The files of `fs` in group `k`, in order.
pub open spec fn of_kind(fs: Seq<Seq<char>>, k: int) -> Seq<Seq<char>>
    decreases fs.len(),
{
    if fs.len() == 0 {
        seq![]
    } else if file_kind(fs.last()) == k {
        of_kind(fs.drop_last(), k).push(fs.last())
    } else {
        of_kind(fs.drop_last(), k)
    }
}

fn file_kind_exec(f: &String) -> (k: usize)
    ensures
        k == file_kind(f@),
{
    let c = chars_of(f.as_str());
    let bin = chars_of("/bin/");
    let lib = chars_of("/lib/");
    let inc = chars_of("/include/");
    let man = chars_of("/man/");
    if contains_chars(c.as_slice(), bin.as_slice()) {
        0
    } else if contains_chars(c.as_slice(), lib.as_slice()) {
        1
    } else if contains_chars(c.as_slice(), inc.as_slice()) {
        2
    } else if contains_chars(c.as_slice(), man.as_slice()) {
        3
    } else {
        4
    }
}

/// A package's files in the groups `chiral info` shows: programs, libraries, headers,
/// manual pages, the rest; each in the order of `files`.
pub fn group_files(files: &Vec<String>) -> (groups: [Vec<String>; 5])
    ensures
        forall|k: int| 0 <= k < 5 ==> #[trigger] groups@[k].deep_view() == of_kind(files.deep_view(), k),
{
    let mut groups: [Vec<String>; 5] = [Vec::new(), Vec::new(), Vec::new(), Vec::new(), Vec::new()];
    let ghost fv = files.deep_view();
    proof {
        assert forall|k: int| 0 <= k < 5 implies #[trigger] groups@[k].deep_view() == of_kind(fv.take(0), k) by {
            assert(groups@[k].deep_view() =~= Seq::<Seq<char>>::empty());
        }
    }
    let mut i: usize = 0;
    while i < files.len()
        invariant
            i <= files@.len(),
            fv == files.deep_view(),
            forall|k: int| 0 <= k < 5 ==> #[trigger] groups@[k].deep_view() == of_kind(fv.take(i as int), k),
        decreases files@.len() - i,
    {
        let k = file_kind_exec(&files[i]);
        let ghost old_groups = groups@;
        let mut g: Vec<String> = Vec::new();
        std::mem::swap(&mut g, &mut groups[k]);
        g.push(files[i].clone());
        std::mem::swap(&mut g, &mut groups[k]);
        proof {
            assert(fv.take(i + 1).drop_last() =~= fv.take(i as int));
            assert(fv.take(i + 1).last() == files@[i as int]@);
            assert forall|j: int| 0 <= j < 5 implies #[trigger] groups@[j].deep_view() == of_kind(fv.take(i + 1), j) by {
                if j == k {
                    assert(groups@[j].deep_view() =~= old_groups[j].deep_view().push(files@[i as int]@));
                } else {
                    assert(groups@[j] == old_groups[j]);
                }
            }
        }
        i = i + 1;
    }
    proof {
        assert(fv.take(files@.len() as int) =~= fv);
    }
    groups
}

} // verus!

verus! {

/// The entries of `deps` not reported present (`present[i]` answers for `deps[i]`), in order.
pub open spec fn missing_in_order(deps: Seq<Seq<char>>, present: Seq<bool>) -> Seq<Seq<char>>
    decreases deps.len(),
{
    if deps.len() == 0 {
        seq![]
    } else {
        let rest = missing_in_order(deps.drop_last(), present);
        if present[deps.len() - 1] {
            rest
        } else {
            rest.push(deps.last())
        }
    }
}

/// What an install installs, in order: the resolved dependencies that the host does not
/// have, in the resolved order (dependencies first), then the requested package last.
pub fn install_queue(package: &str, deps: &Vec<String>, present: &Vec<bool>) -> (q: Vec<String>)
    requires
        present@.len() == deps@.len(),
    ensures
        q.deep_view() == missing_in_order(deps.deep_view(), present@).push(package@),
{
    let mut q: Vec<String> = Vec::new();
    let mut i: usize = 0;
    while i < deps.len()
        invariant
            i <= deps@.len(),
            present@.len() == deps@.len(),
            q.deep_view() == missing_in_order(deps.deep_view().take(i as int), present@),
        decreases deps@.len() - i,
    {
        proof {
            assert(deps.deep_view().take(i + 1).drop_last() =~= deps.deep_view().take(i as int));
            assert(deps.deep_view().take(i + 1).last() == deps@[i as int]@);
        }
        if !present[i] {
            let ghost before = q.deep_view();
            let name = deps[i].clone();
            q.push(name);
            proof {
                assert(q.deep_view() =~= before.push(deps@[i as int]@));
            }
        }
        i = i + 1;
    }
    proof {
        assert(deps.deep_view().take(deps@.len() as int) =~= deps.deep_view());
    }
    let ghost before = q.deep_view();
    q.push(String::from_str(package));
    proof {
        assert(q.deep_view() =~= before.push(package@));
    }
    q
}

/// One step of `chiral upgrade`.
#[derive(Debug, PartialEq, Eq)]
pub enum UpgradeStep {
    /// Remove this package.
    Remove(String),
    /// Install this package.
    Install(String),
}

/// An upgrade step as text.
pub enum UpgradeStepView {
    Remove(Seq<char>),
    Install(Seq<char>),
}

impl View for UpgradeStep {
    type V = UpgradeStepView;

    open spec fn view(&self) -> UpgradeStepView {
        match self {
            UpgradeStep::Remove(n) => UpgradeStepView::Remove(n@),
            UpgradeStep::Install(n) => UpgradeStepView::Install(n@),
        }
    }
}

/// Upgrading the packages `names`: each in turn removed, then installed again.
pub open spec fn upgrade_steps(names: Seq<Seq<char>>) -> Seq<UpgradeStepView>
    decreases names.len(),
{
    if names.len() == 0 {
        seq![]
    } else {
        upgrade_steps(names.drop_last()) + seq![
            UpgradeStepView::Remove(names.last()),
            UpgradeStepView::Install(names.last()),
        ]
    }
}

/// The steps of upgrading every package of `names`, in order.
pub fn upgrade_plan(names: &Vec<String>) -> (steps: Vec<UpgradeStep>)
    ensures
        steps@.map_values(|st: UpgradeStep| st@) == upgrade_steps(names.deep_view()),
{
    let mut steps: Vec<UpgradeStep> = Vec::new();
    let mut i: usize = 0;
    while i < names.len()
        invariant
            i <= names@.len(),
            steps@.map_values(|st: UpgradeStep| st@) == upgrade_steps(names.deep_view().take(i as int)),
        decreases names@.len() - i,
    {
        proof {
            assert(names.deep_view().take(i + 1).drop_last() =~= names.deep_view().take(i as int));
            assert(names.deep_view().take(i + 1).last() == names@[i as int]@);
        }
        let ghost before = steps@.map_values(|st: UpgradeStep| st@);
        let a = names[i].clone();
        let b = names[i].clone();
        steps.push(UpgradeStep::Remove(a));
        steps.push(UpgradeStep::Install(b));
        proof {
            assert(steps@.map_values(|st: UpgradeStep| st@) =~= before + seq![
                UpgradeStepView::Remove(names@[i as int]@),
                UpgradeStepView::Install(names@[i as int]@),
            ]);
        }
        i = i + 1;
    }
    proof {
        assert(names.deep_view().take(names@.len() as int) =~= names.deep_view());
    }
    steps
}

} // verus!

verus! {

/// The positions in `deps` of the entries `missing_in_order` keeps, in order.
proof fn lemma_missing_positions(deps: Seq<Seq<char>>, present: Seq<bool>) -> (f: Seq<int>)
    requires
        present.len() >= deps.len(),
    ensures
        f.len() == missing_in_order(deps, present).len(),
        forall|a: int| 0 <= a < f.len() ==> 0 <= #[trigger] f[a] < deps.len() && !present[f[a]]
            && missing_in_order(deps, present)[a] == deps[f[a]],
        forall|a: int, b: int| 0 <= a < b < f.len() ==> #[trigger] f[a] < #[trigger] f[b],
        forall|i: int| 0 <= i < deps.len() && !present[i] ==> exists|a: int| 0 <= a < f.len() && #[trigger] f[a] == i,
    decreases deps.len(),
{
    if deps.len() == 0 {
        Seq::empty()
    } else {
        let n = deps.len() - 1;
        let init = deps.drop_last();
        let g = lemma_missing_positions(init, present);
        assert(deps.last() == deps[n]);
        assert forall|a: int| 0 <= a < g.len() implies deps[#[trigger] g[a]] == init[g[a]] by {}
        if present[n] {
            assert forall|i: int| 0 <= i < deps.len() && !present[i] implies exists|a: int| 0 <= a < g.len() && #[trigger] g[a] == i by {
                assert(i < n);
            }
            g
        } else {
            let f = g.push(n);
            assert forall|a: int| 0 <= a < f.len() implies 0 <= #[trigger] f[a] < deps.len() && !present[f[a]]
                && missing_in_order(deps, present)[a] == deps[f[a]] by {
                if a < g.len() {
                    assert(f[a] == g[a]);
                }
            }
            assert forall|i: int| 0 <= i < deps.len() && !present[i] implies exists|a: int| 0 <= a < f.len() && #[trigger] f[a] == i by {
                if i < n {
                    let a = choose|a: int| 0 <= a < g.len() && #[trigger] g[a] == i;
                    assert(f[a] == g[a]);
                } else {
                    assert(f[g.len() as int] == n);
                }
            }
            assert forall|a: int, b: int| 0 <= a < b < f.len() implies #[trigger] f[a] < #[trigger] f[b] by {
                if b < g.len() {
                    assert(f[a] == g[a] && f[b] == g[b]);
                } else {
                    assert(f[a] == g[a]);
                }
            }
            f
        }
    }
}

/// Law: the install queue ends with the requested package, and before it holds every
/// resolved dependency that the host lacks, the first included, and nothing else, in the
/// resolved order (deepest first): of two missing dependencies, the earlier in the
/// resolved list is queued earlier.
pub proof fn law_install_queue(package: Seq<char>, deps: Seq<Seq<char>>, present: Seq<bool>)
    requires
        present.len() == deps.len(),
    ensures
        ({
            let q = missing_in_order(deps, present).push(package);
            &&& q.last() == package
            &&& forall|i: int| 0 <= i < deps.len() && !present[i] ==> exists|a: int|
                0 <= a < q.len() - 1 && #[trigger] q[a] == deps[i]
            &&& forall|a: int| 0 <= a < q.len() - 1 ==> exists|i: int|
                0 <= i < deps.len() && !present[i] && #[trigger] q[a] == deps[i]
            &&& forall|i1: int, i2: int|
                0 <= i1 < i2 < deps.len() && !present[i1] && !present[i2] ==> exists|a1: int, a2: int|
                    0 <= a1 < a2 < q.len() - 1 && #[trigger] q[a1] == deps[i1] && #[trigger] q[a2] == deps[i2]
        }),
{
    let ms = missing_in_order(deps, present);
    let q = ms.push(package);
    let f = lemma_missing_positions(deps, present);
    assert forall|a: int| 0 <= a < q.len() - 1 implies #[trigger] q[a] == ms[a] by {}
    assert forall|i: int| 0 <= i < deps.len() && !present[i] implies exists|a: int|
        0 <= a < q.len() - 1 && #[trigger] q[a] == deps[i] by {
        let a = choose|a: int| 0 <= a < f.len() && #[trigger] f[a] == i;
        assert(q[a] == ms[a]);
    }
    assert forall|a: int| 0 <= a < q.len() - 1 implies exists|i: int|
        0 <= i < deps.len() && !present[i] && #[trigger] q[a] == deps[i] by {
        assert(q[a] == ms[a]);
        let i = f[a];
        assert(0 <= i < deps.len() && !present[i] && ms[a] == deps[i]);
    }
    assert forall|i1: int, i2: int|
        0 <= i1 < i2 < deps.len() && !present[i1] && !present[i2] implies exists|a1: int, a2: int|
            0 <= a1 < a2 < q.len() - 1 && #[trigger] q[a1] == deps[i1] && #[trigger] q[a2] == deps[i2] by {
        let a1 = choose|a: int| 0 <= a < f.len() && #[trigger] f[a] == i1;
        let a2 = choose|a: int| 0 <= a < f.len() && #[trigger] f[a] == i2;
        if a2 <= a1 {
            if a2 < a1 {
                assert(f[a2] < f[a1]);
            }
        }
        assert(q[a1] == ms[a1] && q[a2] == ms[a2]);
    }
}

/// Law: a removal goes ahead exactly when the database lists an entry whose name is the
/// package's name (so a name that only begins another listed name is refused), and is
/// otherwise refused with "'package' is not installed.".
pub proof fn law_remove_check_exact(raw: Seq<char>, package: Seq<char>)
    ensures
        remove_refusal(raw, package) is None <==> exists|i: int|
            0 <= i < crate::db::listed(raw).len() && (#[trigger] crate::db::listed(raw)[i]).0 == package,
        remove_refusal(raw, package) is Some ==> remove_refusal(raw, package) == Some(
            "'"@ + package + "' is not installed."@,
        ),
{
}

/// Law: an install is refused exactly when the database lists an entry whose name is the
/// package's name, with "'package' is already installed. Use 'chiral update package' to
/// upgrade.".
pub proof fn law_install_check_exact(raw: Seq<char>, package: Seq<char>)
    ensures
        install_refusal(raw, package) is Some <==> exists|i: int|
            0 <= i < crate::db::listed(raw).len() && (#[trigger] crate::db::listed(raw)[i]).0 == package,
        install_refusal(raw, package) is Some ==> install_refusal(raw, package) == Some(
            "'"@ + package + "' is already installed. Use 'chiral update "@ + package + "' to upgrade."@,
        ),
{
}

} // verus!
