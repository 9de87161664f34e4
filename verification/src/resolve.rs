//! Dependency resolution: breadth-first exploration of the dependency tree, followed by
//! an install order (dependencies first), with the packages already on the system left
//! out. The exploration needs answers from outside (is a package present? what does it
//! depend on?), so it is a state machine: each step takes the answer to the last
//! question and returns the next question, or the final install list.
use vstd::prelude::*;
use crate::text::{chars_of, stop_index, copy_range, trim_chars, string_of};
use crate::graph::DepMap;

verus! {

/// The characters that start a version constraint in a dependency string.
pub open spec fn version_stops() -> Seq<char> {
    seq!['>', '<', '=', ':']
}

/// A dependency name without its version constraint: the text before the first of
/// `> < = :`, trimmed.
pub open spec fn strip_version(dep: Seq<char>) -> Seq<char> {
    crate::text::trimmed(crate::text::before_stop(dep, version_stops()))
}

/// Strips the version constraint from a dependency string, e.g. "glib2>=2.80" gives "glib2".
pub fn strip_ver(dep: &str) -> (name: String)
    ensures
        name@ == strip_version(dep@),
{
    let cs = chars_of(dep);
    let stops = ['>', '<', '=', ':'];
    let k = stop_index(cs.as_slice(), stops.as_slice());
    proof {
        assert(stops@ == version_stops());
    }
    let head = copy_range(cs.as_slice(), 0, k);
    proof {
        assert(head@ == crate::text::before_stop(dep@, version_stops()));
    }
    let t = trim_chars(head.as_slice());
    string_of(t.as_slice())
}

/// The dependency names of a list of dependency strings: each stripped of its version
/// constraint, the empty ones dropped.
pub open spec fn clean_deps(ds: Seq<Seq<char>>) -> Seq<Seq<char>>
    decreases ds.len(),
{
    if ds.len() == 0 {
        seq![]
    } else {
        let c = clean_deps(ds.drop_last());
        let s = strip_version(ds.last());
        if s.len() == 0 {
            c
        } else {
            c.push(s)
        }
    }
}

/// Strips every dependency string and drops the empty names.
pub fn clean_dep_list(ds: &Vec<String>) -> (out: Vec<String>)
    ensures
        out.deep_view() == clean_deps(ds.deep_view()),
{
    let ghost dv = ds.deep_view();
    let mut out: Vec<String> = Vec::new();
    let mut i: usize = 0;
    while i < ds.len()
        invariant
            i <= ds@.len(),
            dv == ds.deep_view(),
            out.deep_view() == clean_deps(dv.take(i as int)),
        decreases ds@.len() - i,
    {
        let s = strip_ver(ds[i].as_str());
        proof {
            assert(dv.take(i + 1).drop_last() =~= dv.take(i as int));
            assert(dv.take(i + 1).last() == ds@[i as int]@);
        }
        if !s.as_str().is_empty() {
            let ghost before = out.deep_view();
            out.push(s);
            proof {
                assert(out.deep_view() =~= before.push(s@));
            }
        }
        i = i + 1;
    }
    proof {
        assert(dv.take(ds@.len() as int) =~= dv);
    }
    out
}

} // verus!

verus! {

/// The names of `ds` that are not in `visited`, in order (repeats kept).
pub open spec fn unvisited(ds: Seq<Seq<char>>, visited: Seq<Seq<char>>) -> Seq<Seq<char>>
    decreases ds.len(),
{
    if ds.len() == 0 {
        seq![]
    } else {
        let f = unvisited(ds.drop_last(), visited);
        if visited.contains(ds.last()) {
            f
        } else {
            f.push(ds.last())
        }
    }
}

/// The first position at or after `k` in `queue` whose name is not in `visited`, or the
/// length of `queue`.
pub open spec fn next_unvisited(queue: Seq<Seq<char>>, k: int, visited: Seq<Seq<char>>) -> int
    decreases queue.len() - k,
{
    if k < 0 || k >= queue.len() {
        queue.len() as int
    } else if !visited.contains(queue[k]) {
        k
    } else {
        next_unvisited(queue, k + 1, visited)
    }
}

/// Every dependency named in `m` has an entry in `m`: the map holds the whole tree.
pub open spec fn explored_closed(m: Map<Seq<char>, Seq<Seq<char>>>) -> bool {
    forall|p: Seq<char>, d: Seq<char>|
        #![trigger m[p].contains(d)]
        m.dom().contains(p) && m[p].contains(d) ==> m.dom().contains(d)
}

/// The entries of `order` to install: all but `root` and those reported present.
pub open spec fn keep_missing(order: Seq<Seq<char>>, root: Seq<char>, present: Map<Seq<char>, bool>) -> Seq<Seq<char>>
    decreases order.len(),
{
    if order.len() == 0 {
        seq![]
    } else {
        let k = keep_missing(order.drop_last(), root, present);
        if order.last() == root || present[order.last()] {
            k
        } else {
            k.push(order.last())
        }
    }
}

/// The answer to the last question of the resolver.
#[derive(Debug, PartialEq, Eq)]
pub enum ResolveEvent {
    /// No answer (the first step).
    Begin,
    /// The package asked about is already on the system.
    Present,
    /// The package asked about is missing; these are its dependency strings (with version
    /// constraints), empty when the package is unknown to the repositories.
    Depends(Vec<String>),
    /// The answer to a final check: whether the package asked about is on the system.
    Checked(bool),
}

/// What the resolver needs next.
#[derive(Debug, PartialEq, Eq)]
pub enum ResolveAction {
    /// Is this package on the system, and if not, what does it depend on?
    Explore(String),
    /// Is this package on the system (final check before installing)?
    Recheck(String),
    /// The packages to install, dependencies first.
    Finished(Vec<String>),
}

enum Stage {
    Exploring,
    Checking,
    Done,
}

/// The state of a dependency resolution for one root package.
pub struct Resolver {
    root: String,
    queue: Vec<String>,
    head: usize,
    visited: Vec<String>,
    explored: DepMap,
    pending: Option<String>,
    stage: Stage,
    order: Vec<String>,
    checked: usize,
    kept: Vec<String>,
    reported: Ghost<Map<Seq<char>, bool>>,
}

impl Resolver {
    /// The package whose dependencies are resolved.
    pub closed spec fn root(&self) -> Seq<char> {
        self.root@
    }

    /// The breadth-first queue of names to explore.
    pub closed spec fn queue(&self) -> Seq<Seq<char>> {
        self.queue.deep_view()
    }

    /// How far the queue has been taken.
    pub closed spec fn head(&self) -> nat {
        self.head as nat
    }

    /// The names explored so far, in order, each once.
    pub closed spec fn visited(&self) -> Seq<Seq<char>> {
        self.visited.deep_view()
    }

    /// The dependency map built so far.
    pub closed spec fn explored(&self) -> Map<Seq<char>, Seq<Seq<char>>> {
        self.explored@
    }

    /// The package whose answer is awaited during exploration.
    pub closed spec fn pending(&self) -> Option<Seq<char>> {
        match self.pending {
            Some(p) => Some(p@),
            None => None,
        }
    }

    /// Whether the exploration is still going on.
    pub closed spec fn exploring(&self) -> bool {
        self.stage matches Stage::Exploring
    }

    /// Whether the final list has been produced.
    pub closed spec fn done(&self) -> bool {
        self.stage matches Stage::Done
    }

    /// The install order of the explored packages, once exploration has ended.
    pub closed spec fn order(&self) -> Seq<Seq<char>> {
        self.order.deep_view()
    }

    /// How many entries of the order have been checked.
    pub closed spec fn checked(&self) -> nat {
        self.checked as nat
    }

    /// The answers of the final checks.
    pub closed spec fn reported(&self) -> Map<Seq<char>, bool> {
        self.reported@
    }

    /// The packages kept so far for installation.
    pub closed spec fn kept(&self) -> Seq<Seq<char>> {
        self.kept.deep_view()
    }

    /// The consistency that holds in every stage.
    closed spec fn common_wf(&self) -> bool {
        let q = self.queue.deep_view();
        let vis = self.visited.deep_view();
        &&& self.explored.wf()
        &&& vis.no_duplicates()
        &&& self.head <= q.len()
        &&& q.len() >= 1
        &&& q[0] == self.root@
        &&& forall|i: int| 0 <= i < self.head ==> vis.contains(#[trigger] q[i])
    }

    /// The consistency of the exploration stage.
    closed spec fn exploring_wf(&self) -> bool {
        let q = self.queue.deep_view();
        let vis = self.visited.deep_view();
        let m = self.explored@;
        &&& forall|k: Seq<char>| #[trigger] m.dom().contains(k) <==> (vis.contains(k) && self.pending() != Some(k))
        &&& (self.pending() matches Some(p) ==> vis.contains(p))
        &&& forall|p: Seq<char>, d: Seq<char>|
            #![trigger m[p].contains(d)]
            m.dom().contains(p) && m[p].contains(d) ==> vis.contains(d) || q.skip(self.head as int).contains(d)
    }

    /// The consistency after exploration has ended.
    closed spec fn settled_wf(&self) -> bool {
        let q = self.queue.deep_view();
        let vis = self.visited.deep_view();
        let m = self.explored@;
        &&& self.pending is None
        &&& self.head == q.len()
        &&& forall|k: Seq<char>| #[trigger] m.dom().contains(k) <==> vis.contains(k)
        &&& explored_closed(m)
        &&& m.dom().contains(self.root@)
        &&& crate::graph::is_install_order(m, self.order.deep_view())
        &&& self.checked <= self.order@.len()
        &&& self.kept.deep_view() == keep_missing(
            self.order.deep_view().take(self.checked as int),
            self.root@,
            self.reported@,
        )
    }

    /// The resolver's internal consistency.
    pub closed spec fn wf(&self) -> bool {
        &&& self.common_wf()
        &&& match self.stage {
            Stage::Exploring => self.exploring_wf(),
            Stage::Checking => {
                &&& self.settled_wf()
                &&& self.checked < self.order@.len()
                &&& self.order.deep_view()[self.checked as int] != self.root@
            },
            Stage::Done => {
                &&& self.settled_wf()
                &&& self.checked == self.order@.len()
            },
        }
    }

    /// A resolver for `package`, before its first step.
    pub fn new(package: &str) -> (r: Resolver)
        ensures
            r.wf(),
            r.root() == package@,
            r.queue() == seq![package@],
            r.head() == 0,
            r.visited() == Seq::<Seq<char>>::empty(),
            r.explored() == Map::<Seq<char>, Seq<Seq<char>>>::empty(),
            r.pending() is None,
            r.exploring(),
    {
        let root = String::from_str(package);
        let mut queue: Vec<String> = Vec::new();
        queue.push(String::from_str(package));
        let r = Resolver {
            root,
            queue,
            head: 0,
            visited: Vec::new(),
            explored: DepMap::new(),
            pending: None,
            stage: Stage::Exploring,
            order: Vec::new(),
            checked: 0,
            kept: Vec::new(),
            reported: Ghost(Map::empty()),
        };
        proof {
            assert(r.queue.deep_view() =~= seq![package@]);
            assert(r.visited.deep_view() =~= Seq::<Seq<char>>::empty());
        }
        r
    }
}

} // verus!

verus! {

/// Whether `ev` answers an exploration question.
pub open spec fn is_answer(ev: ResolveEvent) -> bool {
    ev is Present || ev is Depends
}

/// The dependency names an exploration answer records.
pub open spec fn answer_deps(ev: ResolveEvent) -> Seq<Seq<char>> {
    match ev {
        ResolveEvent::Depends(ds) => clean_deps(ds.deep_view()),
        _ => seq![],
    }
}

/// The first position at or after `k` in `order` that is not `root`, or the length.
pub open spec fn next_to_check(order: Seq<Seq<char>>, k: int, root: Seq<char>) -> int
    decreases order.len() - k,
{
    if k < 0 || k >= order.len() {
        order.len() as int
    } else if order[k] != root {
        k
    } else {
        next_to_check(order, k + 1, root)
    }
}

fn contains_name(list: &Vec<String>, name: &String) -> (r: bool)
    ensures
        r == list.deep_view().contains(name@),
{
    let mut i: usize = 0;
    while i < list.len()
        invariant
            i <= list@.len(),
            forall|j: int| 0 <= j < i ==> list.deep_view()[j] != name@,
        decreases list@.len() - i,
    {
        if list[i] == *name {
            proof {
                assert(list.deep_view()[i as int] == name@);
            }
            return true;
        }
        i = i + 1;
    }
    false
}

proof fn lemma_unvisited_push(ds: Seq<Seq<char>>, d: Seq<char>, visited: Seq<Seq<char>>)
    ensures
        unvisited(ds.push(d), visited) == if visited.contains(d) {
            unvisited(ds, visited)
        } else {
            unvisited(ds, visited).push(d)
        },
{
    assert(ds.push(d).drop_last() =~= ds);
}

proof fn lemma_unvisited_covers(ds: Seq<Seq<char>>, visited: Seq<Seq<char>>, d: Seq<char>)
    requires
        ds.contains(d),
    ensures
        visited.contains(d) || unvisited(ds, visited).contains(d),
    decreases ds.len(),
{
    if ds.last() == d {
        if !visited.contains(d) {
            let u = unvisited(ds, visited);
            assert(u[u.len() - 1] == d);
        }
    } else {
        let i = choose|i: int| 0 <= i < ds.len() && ds[i] == d;
        assert(ds.drop_last()[i] == d);
        lemma_unvisited_covers(ds.drop_last(), visited, d);
        if !visited.contains(d) {
            let u0 = unvisited(ds.drop_last(), visited);
            let j = choose|j: int| 0 <= j < u0.len() && u0[j] == d;
            let u = unvisited(ds, visited);
            assert(u[j] == d);
        }
    }
}

proof fn lemma_keep_frame(s: Seq<Seq<char>>, root: Seq<char>, p1: Map<Seq<char>, bool>, p2: Map<Seq<char>, bool>)
    requires
        forall|i: int| 0 <= i < s.len() ==> p1[#[trigger] s[i]] == p2[s[i]],
    ensures
        keep_missing(s, root, p1) == keep_missing(s, root, p2),
    decreases s.len(),
{
    if s.len() > 0 {
        assert forall|i: int| 0 <= i < s.drop_last().len() implies p1[#[trigger] s.drop_last()[i]] == p2[s.drop_last()[i]] by {
            assert(s.drop_last()[i] == s[i]);
        }
        lemma_keep_frame(s.drop_last(), root, p1, p2);
        assert(p1[s[s.len() - 1]] == p2[s[s.len() - 1]]);
    }
}

impl Resolver {
    /// Records the answer for the pending package, if `ev` is one.
    fn record_answer(&mut self, ev: ResolveEvent) -> (answered: bool)
        requires
            old(self).wf(),
            old(self).exploring(),
            old(self).pending() is Some,
        ensures
            answered == is_answer(ev),
            final(self).root() == old(self).root(),
            final(self).head() == old(self).head(),
            final(self).visited() == old(self).visited(),
            final(self).exploring(),
            answered ==> {
                &&& final(self).wf()
                &&& final(self).pending() is None
                &&& final(self).explored() == old(self).explored().insert(
                    old(self).pending()->0,
                    answer_deps(ev),
                )
                &&& final(self).queue() == old(self).queue() + unvisited(answer_deps(ev), old(self).visited())
            },
            !answered ==> *final(self) == *old(self),
    {
        let ghost old_self = *self;
        let ghost vis = self.visited.deep_view();
        let ghost q0 = self.queue.deep_view();
        let ghost p = self.pending()->0;
        let deps: Vec<String> = match ev {
            ResolveEvent::Present => Vec::new(),
            ResolveEvent::Depends(ds) => clean_dep_list(&ds),
            _ => {
                return false;
            },
        };
        proof {
            if ev is Present {
                assert(deps.deep_view() =~= answer_deps(ev));
            }
        }
        let ghost c = deps.deep_view();
        // queue the dependencies not explored yet
        let mut i: usize = 0;
        while i < deps.len()
            invariant
                i <= deps@.len(),
                c == deps.deep_view(),
                vis == self.visited.deep_view(),
                self.queue.deep_view() == q0 + unvisited(c.take(i as int), vis),
                self.explored.wf(),
                self.explored@ == old_self.explored@,
                self.head == old_self.head,
                self.pending == old_self.pending,
                self.root == old_self.root,
                self.stage == old_self.stage,
                self.visited == old_self.visited,
                old_self.wf(),
                q0 == old_self.queue.deep_view(),
            decreases deps@.len() - i,
        {
            let ghost before = self.queue.deep_view();
            proof {
                assert(c.take(i + 1) =~= c.take(i as int).push(c[i as int]));
                lemma_unvisited_push(c.take(i as int), c[i as int], vis);
                assert(c[i as int] == deps@[i as int]@);
            }
            if !contains_name(&self.visited, &deps[i]) {
                self.queue.push(deps[i].clone());
                proof {
                    assert(self.queue.deep_view() =~= before.push(c[i as int]));
                }
            }
            i = i + 1;
        }
        proof {
            assert(c.take(deps@.len() as int) =~= c);
        }
        let name = match self.pending.take() {
            Some(n) => n,
            None => String::new(),
        };
        let ghost m0 = self.explored@;
        self.explored.insert(name, deps);
        proof {
            let q = self.queue.deep_view();
            let m = self.explored@;
            assert(q.len() >= q0.len());
            assert(q[0] == q0[0]);
            assert forall|j: int| 0 <= j < self.head implies vis.contains(#[trigger] q[j]) by {
                assert(q[j] == q0[j]);
            }
            assert forall|k: Seq<char>| #[trigger] m.dom().contains(k) <==> (vis.contains(k) && self.pending() != Some(k)) by {
            }
            assert forall|a: Seq<char>, d: Seq<char>|
                #![trigger m[a].contains(d)]
                m.dom().contains(a) && m[a].contains(d) implies vis.contains(d) || q.skip(self.head as int).contains(d) by {
                if a == p {
                    lemma_unvisited_covers(c, vis, d);
                    if !vis.contains(d) {
                        let u = unvisited(c, vis);
                        let j = choose|j: int| 0 <= j < u.len() && u[j] == d;
                        assert(q.skip(self.head as int)[q0.len() - self.head + j] == d);
                    }
                } else {
                    assert(m[a] == m0[a]);
                    if !vis.contains(d) {
                        let s0 = q0.skip(self.head as int);
                        let j = choose|j: int| 0 <= j < s0.len() && s0[j] == d;
                        assert(q.skip(self.head as int)[j] == d);
                    }
                }
            }
        }
        true
    }
}

} // verus!

verus! {

fn clone_names(v: &Vec<String>) -> (out: Vec<String>)
    ensures
        out.deep_view() == v.deep_view(),
{
    let mut out: Vec<String> = Vec::new();
    let mut i: usize = 0;
    while i < v.len()
        invariant
            i <= v@.len(),
            out.deep_view() == v.deep_view().take(i as int),
        decreases v@.len() - i,
    {
        let ghost before = out.deep_view();
        out.push(v[i].clone());
        proof {
            assert(out.deep_view() =~= before.push(v@[i as int]@));
            assert(v.deep_view().take(i + 1) =~= v.deep_view().take(i as int).push(v@[i as int]@));
        }
        i = i + 1;
    }
    proof {
        assert(v.deep_view().take(v@.len() as int) =~= v.deep_view());
    }
    out
}

impl Resolver {
    /// Moves on to the next entry of the install order that needs a final check.
    fn check_next(&mut self) -> (action: ResolveAction)
        requires
            old(self).common_wf(),
            old(self).settled_wf(),
            old(self).stage is Checking,
        ensures
            final(self).wf(),
            final(self).root() == old(self).root(),
            final(self).queue() == old(self).queue(),
            final(self).head() == old(self).head(),
            final(self).visited() == old(self).visited(),
            final(self).explored() == old(self).explored(),
            final(self).pending() == old(self).pending(),
            final(self).order() == old(self).order(),
            final(self).reported() == old(self).reported(),
            !final(self).exploring(),
            action matches ResolveAction::Finished(res) ==> final(self).done() && res.deep_view() == keep_missing(
                final(self).order(),
                final(self).root(),
                final(self).reported(),
            ),
            action matches ResolveAction::Recheck(x) ==> !final(self).exploring() && !final(self).done()
                && x@ == final(self).order()[final(self).checked() as int],
            action matches ResolveAction::Explore(x) ==> final(self).exploring() && final(self).pending() == Some(x@),
            ({
                let k = next_to_check(old(self).order(), old(self).checked() as int, old(self).root());
                &&& k < old(self).order().len() ==> {
                    &&& action matches ResolveAction::Recheck(x) && x@ == old(self).order()[k]
                    &&& final(self).checked() == k
                    &&& !final(self).done()
                }
                &&& k >= old(self).order().len() ==> {
                    &&& action matches ResolveAction::Finished(res) && res.deep_view() == keep_missing(
                        old(self).order(),
                        old(self).root(),
                        old(self).reported(),
                    )
                    &&& final(self).done()
                }
            }),
    {
        let ghost o = self.order.deep_view();
        let ghost start = self.checked as int;
        while self.checked < self.order.len()
            invariant
                self.common_wf(),
                self.settled_wf(),
                self.stage is Checking,
                o == self.order.deep_view(),
                start == old(self).checked() as int,
                start <= self.checked,
                next_to_check(o, start, self.root@) == next_to_check(o, self.checked as int, self.root@),
                self.root == old(self).root,
                self.queue == old(self).queue,
                self.head == old(self).head,
                self.visited == old(self).visited,
                self.explored == old(self).explored,
                self.pending == old(self).pending,
                self.order == old(self).order,
                self.reported == old(self).reported,
                self.kept == old(self).kept,
            decreases self.order@.len() - self.checked,
        {
            if self.order[self.checked] != self.root {
                proof {
                    assert(o[self.checked as int] == self.order@[self.checked as int]@);
                    assert(next_to_check(o, self.checked as int, self.root@) == self.checked);
                }
                return ResolveAction::Recheck(self.order[self.checked].clone());
            }
            proof {
                assert(o[self.checked as int] == self.root@);
                let t = o.take(self.checked + 1);
                assert(t.drop_last() =~= o.take(self.checked as int));
                assert(t.last() == self.root@);
            }
            self.checked = self.checked + 1;
        }
        self.stage = Stage::Done;
        proof {
            assert(o.take(self.checked as int) =~= o);
        }
        ResolveAction::Finished(clone_names(&self.kept))
    }

    /// Takes the next unexplored name from the queue, or ends the exploration.
    fn explore_next(&mut self) -> (action: ResolveAction)
        requires
            old(self).wf(),
            old(self).exploring(),
            old(self).pending() is None,
        ensures
            final(self).wf(),
            final(self).root() == old(self).root(),
            final(self).queue() == old(self).queue(),
            final(self).explored() == old(self).explored(),
            action matches ResolveAction::Finished(res) ==> final(self).done() && res.deep_view() == keep_missing(
                final(self).order(),
                final(self).root(),
                final(self).reported(),
            ),
            action matches ResolveAction::Recheck(x) ==> !final(self).exploring() && !final(self).done()
                && x@ == final(self).order()[final(self).checked() as int],
            action matches ResolveAction::Explore(x) ==> final(self).exploring() && final(self).pending() == Some(x@),
            ({
                let j = next_unvisited(old(self).queue(), old(self).head() as int, old(self).visited());
                &&& j < old(self).queue().len() ==> {
                    &&& action matches ResolveAction::Explore(x) && x@ == old(self).queue()[j]
                    &&& final(self).visited() == old(self).visited().push(old(self).queue()[j])
                    &&& final(self).pending() == Some(old(self).queue()[j])
                    &&& final(self).head() == j + 1
                    &&& final(self).exploring()
                }
                &&& j >= old(self).queue().len() ==> {
                    &&& !final(self).exploring()
                    &&& final(self).visited() == old(self).visited()
                    &&& final(self).pending() is None
                    &&& final(self).head() == old(self).queue().len()
                    &&& explored_closed(final(self).explored())
                    &&& final(self).explored().dom().contains(final(self).root())
                    &&& crate::graph::is_install_order(final(self).explored(), final(self).order())
                    &&& final(self).reported() == Map::<Seq<char>, bool>::empty()
                    &&& {
                        let k = next_to_check(final(self).order(), 0, final(self).root());
                        &&& k < final(self).order().len() ==> {
                            &&& action matches ResolveAction::Recheck(x) && x@ == final(self).order()[k]
                            &&& final(self).checked() == k
                            &&& !final(self).done()
                        }
                        &&& k >= final(self).order().len() ==> {
                            &&& action matches ResolveAction::Finished(res) && res.deep_view() == keep_missing(
                                final(self).order(),
                                final(self).root(),
                                final(self).reported(),
                            )
                            &&& final(self).done()
                        }
                    }
                }
            }),
    {
        let ghost q = self.queue.deep_view();
        let ghost vis = self.visited.deep_view();
        let ghost h0 = self.head as int;
        while self.head < self.queue.len()
            invariant
                self.common_wf(),
                self.exploring_wf(),
                self.stage is Exploring,
                self.pending is None,
                q == self.queue.deep_view(),
                vis == self.visited.deep_view(),
                h0 == old(self).head() as int,
                q == old(self).queue(),
                vis == old(self).visited(),
                h0 <= self.head,
                next_unvisited(q, h0, vis) == next_unvisited(q, self.head as int, vis),
                self.root == old(self).root,
                self.queue == old(self).queue,
                self.visited == old(self).visited,
                self.explored == old(self).explored,
            decreases self.queue@.len() - self.head,
        {
            let h = self.head;
            proof {
                assert(q[h as int] == self.queue@[h as int]@);
            }
            if !contains_name(&self.visited, &self.queue[h]) {
                let name = self.queue[h].clone();
                let ghost m = self.explored@;
                let ghost before = self.visited.deep_view();
                self.visited.push(self.queue[h].clone());
                self.pending = Some(self.queue[h].clone());
                self.head = h + 1;
                proof {
                    let vis2 = self.visited.deep_view();
                    let x = q[h as int];
                    assert(next_unvisited(q, h as int, vis) == h);
                    assert(vis2 =~= before.push(x));
                    assert(vis2.no_duplicates()) by {
                        assert forall|a: int, b: int| 0 <= a < vis2.len() && 0 <= b < vis2.len() && a != b implies vis2[a] != vis2[b] by {
                            if a < before.len() && b < before.len() {
                                assert(vis2[a] == before[a] && vis2[b] == before[b]);
                            } else if a < before.len() {
                                assert(vis2[a] == before[a]);
                                assert(before.contains(before[a]));
                            } else {
                                assert(vis2[b] == before[b]);
                                assert(before.contains(before[b]));
                            }
                        }
                    }
                    assert forall|k: Seq<char>| before.contains(k) implies #[trigger] vis2.contains(k) by {
                        let t = choose|t: int| 0 <= t < before.len() && before[t] == k;
                        assert(vis2[t] == k);
                    }
                    assert forall|k: Seq<char>| #[trigger] vis2.contains(k) implies before.contains(k) || k == x by {
                        let t = choose|t: int| 0 <= t < vis2.len() && vis2[t] == k;
                        if t < before.len() {
                            assert(before[t] == k);
                        }
                    }
                    assert(vis2.contains(x)) by {
                        assert(vis2[before.len() as int] == x);
                    }
                    assert forall|i: int| 0 <= i < self.head implies vis2.contains(#[trigger] q[i]) by {
                        if i < h {
                            assert(before.contains(q[i]));
                        }
                    }
                    assert forall|k: Seq<char>| #[trigger] m.dom().contains(k) <==> (vis2.contains(k) && self.pending() != Some(k)) by {
                        if k == x {
                            assert(!before.contains(k));
                        }
                    }
                    assert forall|p: Seq<char>, d: Seq<char>|
                        #![trigger m[p].contains(d)]
                        m.dom().contains(p) && m[p].contains(d) implies vis2.contains(d) || q.skip(self.head as int).contains(d) by {
                        if !before.contains(d) {
                            let t = choose|t: int| 0 <= t < q.skip(h as int).len() && q.skip(h as int)[t] == d;
                            if t == 0 {
                                assert(d == x);
                            } else {
                                assert(q.skip(self.head as int)[t - 1] == d);
                            }
                        }
                    }
                }
                return ResolveAction::Explore(name);
            }
            proof {
                let vis2 = self.visited.deep_view();
                assert forall|p: Seq<char>, d: Seq<char>|
                    #![trigger self.explored@[p].contains(d)]
                    self.explored@.dom().contains(p) && self.explored@[p].contains(d) implies vis2.contains(d) || q.skip(h + 1).contains(d) by {
                    if !vis2.contains(d) {
                        let t = choose|t: int| 0 <= t < q.skip(h as int).len() && q.skip(h as int)[t] == d;
                        if t == 0 {
                            assert(d == q[h as int]);
                        } else {
                            assert(q.skip(h + 1)[t - 1] == d);
                        }
                    }
                }
            }
            self.head = h + 1;
        }
        // exploration has ended: order the explored packages
        proof {
            let m = self.explored@;
            assert(q.skip(self.head as int) =~= Seq::<Seq<char>>::empty());
            assert(explored_closed(m)) by {
                assert forall|p: Seq<char>, d: Seq<char>|
                    #![trigger m[p].contains(d)]
                    m.dom().contains(p) && m[p].contains(d) implies m.dom().contains(d) by {
                    assert(!q.skip(self.head as int).contains(d));
                }
            }
            assert(vis.contains(q[0]));
        }
        self.order = self.explored.install_order();
        self.checked = 0;
        self.kept = Vec::new();
        self.reported = Ghost(Map::empty());
        self.stage = Stage::Checking;
        proof {
            assert(self.kept.deep_view() =~= keep_missing(self.order.deep_view().take(0), self.root@, self.reported@));
        }
        self.check_next()
    }
}

} // verus!

verus! {

proof fn lemma_next_unvisited(queue: Seq<Seq<char>>, k: int, visited: Seq<Seq<char>>)
    requires
        0 <= k,
    ensures
        k <= next_unvisited(queue, k, visited) <= queue.len() || queue.len() < k,
        next_unvisited(queue, k, visited) < queue.len() ==> !visited.contains(queue[next_unvisited(queue, k, visited)]),
    decreases queue.len() - k,
{
    if k < queue.len() && visited.contains(queue[k]) {
        lemma_next_unvisited(queue, k + 1, visited);
    }
}

proof fn lemma_next_to_check(order: Seq<Seq<char>>, k: int, root: Seq<char>)
    requires
        0 <= k,
    ensures
        next_to_check(order, k, root) < order.len() ==> order[next_to_check(order, k, root)] != root,
    decreases order.len() - k,
{
    if k < order.len() && order[k] == root {
        lemma_next_to_check(order, k + 1, root);
    }
}

/// One step of dependency resolution: takes the answer to the resolver's last question and
/// returns its next question, or the packages to install (dependencies first, the root
/// package and the packages already present left out). The first step is given
/// `ResolveEvent::Begin`.
pub fn resolve_deps(r: &mut Resolver, ev: ResolveEvent) -> (action: ResolveAction)
    requires
        old(r).wf(),
    ensures
        final(r).wf(),
        final(r).root() == old(r).root(),
        // An exploration question left unanswered is asked again, nothing else changes.
        old(r).exploring() && old(r).pending() is Some && !is_answer(ev) ==> {
            &&& action matches ResolveAction::Explore(x) && x@ == old(r).pending()->0
            &&& *final(r) == *old(r)
        },
        // Otherwise the answer is recorded and the next name not yet explored is taken
        // from the queue; when none is left, the install order is computed.
        old(r).exploring() && (old(r).pending() is None || is_answer(ev)) ==> ({
            let answered = old(r).pending() is Some;
            let m = if answered {
                old(r).explored().insert(old(r).pending()->0, answer_deps(ev))
            } else {
                old(r).explored()
            };
            let q = if answered {
                old(r).queue() + unvisited(answer_deps(ev), old(r).visited())
            } else {
                old(r).queue()
            };
            let j = next_unvisited(q, old(r).head() as int, old(r).visited());
            &&& final(r).explored() == m
            &&& final(r).queue() == q
            &&& j < q.len() ==> {
                &&& action matches ResolveAction::Explore(x) && x@ == q[j]
                &&& !old(r).visited().contains(q[j])
                &&& final(r).visited() == old(r).visited().push(q[j])
                &&& final(r).pending() == Some(q[j])
                &&& final(r).head() == j + 1
                &&& final(r).exploring()
            }
            &&& j >= q.len() ==> {
                &&& !final(r).exploring()
                &&& final(r).visited() == old(r).visited()
                &&& final(r).reported() == Map::<Seq<char>, bool>::empty()
                &&& next_to_check(final(r).order(), 0, final(r).root()) < final(r).order().len()
                    ==> {
                    &&& final(r).checked() == next_to_check(final(r).order(), 0, final(r).root())
                    &&& action matches ResolveAction::Recheck(x)
                    &&& x@ == final(r).order()[next_to_check(final(r).order(), 0, final(r).root())]
                }
                &&& next_to_check(final(r).order(), 0, final(r).root()) >= final(r).order().len()
                    ==> action is Finished
            }
        }),
        // A final-check answer is recorded and the next entry of the order to check is taken.
        old(r).wf() && !old(r).exploring() && !old(r).done() ==> ({
            let answered = ev is Checked;
            let c: int = if answered { old(r).checked() as int + 1 } else { old(r).checked() as int };
            let rep = match ev {
                ResolveEvent::Checked(b) => old(r).reported().insert(old(r).order()[old(r).checked() as int], b),
                _ => old(r).reported(),
            };
            let k = next_to_check(old(r).order(), c, old(r).root());
            &&& final(r).explored() == old(r).explored()
            &&& final(r).order() == old(r).order()
            &&& final(r).reported() == rep
            &&& k < old(r).order().len() ==> {
                &&& final(r).checked() == k
                &&& action matches ResolveAction::Recheck(x)
                &&& x@ == old(r).order()[k]
            }
            &&& k >= old(r).order().len() ==> action is Finished
        }),
        old(r).done() ==> *final(r) == *old(r),
        // What each action means.
        action matches ResolveAction::Explore(x) ==> {
            &&& final(r).exploring()
            &&& final(r).pending() == Some(x@)
            &&& final(r).visited().contains(x@)
        },
        action matches ResolveAction::Recheck(x) ==> {
            &&& !final(r).exploring()
            &&& !final(r).done()
            &&& final(r).checked() < final(r).order().len()
            &&& x@ == final(r).order()[final(r).checked() as int]
            &&& x@ != final(r).root()
        },
        final(r).done() <==> action is Finished,
        action matches ResolveAction::Finished(list) ==> {
            &&& final(r).done()
            &&& !final(r).exploring()
            &&& list.deep_view() == keep_missing(final(r).order(), final(r).root(), final(r).reported())
        },
        !final(r).exploring() ==> {
            &&& explored_closed(final(r).explored())
            &&& final(r).explored().dom().contains(final(r).root())
            &&& crate::graph::is_install_order(final(r).explored(), final(r).order())
        },
{
    proof {
        lemma_next_unvisited(
            old(r).queue() + unvisited(answer_deps(ev), old(r).visited()),
            old(r).head() as int,
            old(r).visited(),
        );
        lemma_next_unvisited(old(r).queue(), old(r).head() as int, old(r).visited());
    }
    match r.stage {
        Stage::Exploring => {
            if r.pending.is_some() {
                let again = match &r.pending {
                    Some(p) => p.clone(),
                    None => String::new(),
                };
                let answered = r.record_answer(ev);
                if !answered {
                    return ResolveAction::Explore(again);
                }
            }
            r.explore_next()
        },
        Stage::Checking => {
            match ev {
                ResolveEvent::Checked(present) => {
                    let ghost o = r.order.deep_view();
                    let ghost c = r.checked as int;
                    let ghost rep0 = r.reported@;
                    let name = r.order[r.checked].clone();
                    proof {
                        assert(name@ == o[c]);
                    }
                    r.reported = Ghost(r.reported@.insert(name@, present));
                    let ghost k0 = r.kept.deep_view();
                    if !present {
                        r.kept.push(name);
                        proof {
                            assert(r.kept.deep_view() =~= k0.push(o[c]));
                        }
                    }
                    assert(r.checked < r.order.len());
                    r.checked = r.checked + 1;
                    proof {
                        let rep = r.reported@;
                        let t = o.take(c + 1);
                        assert(t.drop_last() =~= o.take(c));
                        assert(t.last() == o[c]);
                        assert forall|i: int| 0 <= i < o.take(c).len() implies rep0[#[trigger] o.take(c)[i]] == rep[o.take(c)[i]] by {
                            assert(o.take(c)[i] == o[i]);
                            assert(o[i] != o[c]);
                        }
                        lemma_keep_frame(o.take(c), r.root@, rep0, rep);
                    }
                    r.check_next()
                },
                _ => {
                    ResolveAction::Recheck(r.order[r.checked].clone())
                },
            }
        },
        Stage::Done => {
            proof {
                assert(r.order.deep_view().take(r.checked as int) =~= r.order.deep_view());
            }
            ResolveAction::Finished(clone_names(&r.kept))
        },
    }
}

} // verus!

verus! {

proof fn lemma_keep_sub(order: Seq<Seq<char>>, root: Seq<char>, present: Map<Seq<char>, bool>)
    requires
        order.no_duplicates(),
    ensures
        forall|a: int| #![trigger keep_missing(order, root, present)[a]]
            0 <= a < keep_missing(order, root, present).len() ==> {
                &&& order.contains(keep_missing(order, root, present)[a])
                &&& keep_missing(order, root, present)[a] != root
                &&& !present[keep_missing(order, root, present)[a]]
            },
        forall|p: Seq<char>| order.contains(p) && p != root && !present[p] ==> #[trigger] keep_missing(order, root, present).contains(p),
        forall|a: int, b: int, ka: int, kb: int|
            #![trigger keep_missing(order, root, present)[a], keep_missing(order, root, present)[b], order[ka], order[kb]]
            0 <= a < b < keep_missing(order, root, present).len() && 0 <= ka < order.len() && 0 <= kb < order.len()
                && order[ka] == keep_missing(order, root, present)[a] && order[kb] == keep_missing(order, root, present)[b]
                ==> ka < kb,
    decreases order.len(),
{
    let res = keep_missing(order, root, present);
    if order.len() > 0 {
        let o2 = order.drop_last();
        let last = order.last();
        assert(o2.no_duplicates()) by {
            assert forall|i: int, j: int| 0 <= i < o2.len() && 0 <= j < o2.len() && i != j implies o2[i] != o2[j] by {
                assert(o2[i] == order[i] && o2[j] == order[j]);
            }
        }
        lemma_keep_sub(o2, root, present);
        let r2 = keep_missing(o2, root, present);
        assert forall|x: Seq<char>| o2.contains(x) implies order.contains(x) by {
            let k = choose|k: int| 0 <= k < o2.len() && o2[k] == x;
            assert(order[k] == x);
        }
        assert(!o2.contains(last)) by {
            if o2.contains(last) {
                let k = choose|k: int| 0 <= k < o2.len() && o2[k] == last;
                assert(order[k] == order[order.len() - 1]);
            }
        }
        assert(order.contains(last)) by {
            assert(order[order.len() - 1] == last);
        }
        // positions in order of entries of the shorter order
        assert forall|x: Seq<char>, k: int| 0 <= k < order.len() && order[k] == x && o2.contains(x) implies k < o2.len() by {
            if k == order.len() - 1 {
            }
        }
        if last == root || present[last] {
            assert(res == r2);
            assert forall|p: Seq<char>| order.contains(p) && p != root && !present[p] implies #[trigger] res.contains(p) by {
                let k = choose|k: int| 0 <= k < order.len() && order[k] == p;
                if k < o2.len() {
                    assert(o2[k] == p);
                }
            }
            assert forall|a: int, b: int, ka: int, kb: int|
                0 <= a < b < res.len() && 0 <= ka < order.len() && 0 <= kb < order.len()
                    && order[ka] == res[a] && order[kb] == res[b] implies ka < kb by {
                assert(o2.contains(r2[a]) && o2.contains(r2[b]));
                assert(ka < o2.len() && kb < o2.len());
                assert(o2[ka] == order[ka] && o2[kb] == order[kb]);
            }
        } else {
            assert(res == r2.push(last));
            assert forall|a: int| 0 <= a < res.len() implies {
                &&& order.contains(#[trigger] res[a])
                &&& res[a] != root
                &&& !present[res[a]]
            } by {
                if a < r2.len() {
                    assert(res[a] == r2[a]);
                }
            }
            assert forall|p: Seq<char>| order.contains(p) && p != root && !present[p] implies #[trigger] res.contains(p) by {
                let k = choose|k: int| 0 <= k < order.len() && order[k] == p;
                if k < o2.len() {
                    assert(o2[k] == p);
                    assert(o2.contains(p));
                    assert(r2.contains(p));
                    let a = choose|a: int| 0 <= a < r2.len() && r2[a] == p;
                    assert(res[a] == r2[a]);
                    assert(res[a] == p);
                } else {
                    assert(res[r2.len() as int] == p);
                }
            }
            assert forall|a: int, b: int, ka: int, kb: int|
                0 <= a < b < res.len() && 0 <= ka < order.len() && 0 <= kb < order.len()
                    && order[ka] == res[a] && order[kb] == res[b] implies ka < kb by {
                assert(res[a] == r2[a]);
                assert(o2.contains(r2[a]));
                assert(ka < o2.len());
                if b < r2.len() {
                    assert(res[b] == r2[b]);
                    assert(o2.contains(r2[b]));
                    assert(kb < o2.len());
                    assert(o2[ka] == order[ka] && o2[kb] == order[kb]);
                } else {
                    assert(res[b] == last);
                    assert(kb == order.len() - 1) by {
                        if kb < order.len() - 1 {
                            assert(o2[kb] == last);
                        }
                    }
                }
            }
        }
    }
}

/// A package placed in `order` after all its dependencies of `m` (not to break a cycle).
pub open spec fn placed_after_deps(m: Map<Seq<char>, Seq<Seq<char>>>, order: Seq<Seq<char>>, p: Seq<char>) -> bool {
    exists|k: int| 0 <= k < order.len() && order[k] == p && crate::graph::deps_among(m, order.take(k), p)
}

/// The list a finished resolution returns: given an install order of the explored map,
/// the packages kept are distinct, never the root package, exactly the explored packages
/// other than the root that were reported missing, and each that was not placed to break
/// a dependency cycle comes after every one of its dependencies that is also in the list;
/// a package placed otherwise lies on a cycle of packages still waiting when it was placed.
pub proof fn law_install_list(
    m: Map<Seq<char>, Seq<Seq<char>>>,
    order: Seq<Seq<char>>,
    root: Seq<char>,
    present: Map<Seq<char>, bool>,
)
    requires
        crate::graph::is_install_order(m, order),
    ensures
        keep_missing(order, root, present).no_duplicates(),
        !keep_missing(order, root, present).contains(root),
        forall|p: Seq<char>| #[trigger] keep_missing(order, root, present).contains(p) <==> (m.dom().contains(p) && p != root && !present[p]),
        forall|i: int, d: Seq<char>|
            0 <= i < keep_missing(order, root, present).len() && #[trigger] m[keep_missing(order, root, present)[i]].contains(d)
                && keep_missing(order, root, present).contains(d)
                && placed_after_deps(m, order, keep_missing(order, root, present)[i]) ==> exists|j: int|
                0 <= j < i && keep_missing(order, root, present)[j] == d,
        forall|k: int|
            0 <= k < order.len() && !placed_after_deps(m, order, #[trigger] order[k]) ==> crate::graph::on_waiting_cycle(
                m,
                order.take(k),
                order[k],
            ),
{
    assert forall|k: int|
        0 <= k < order.len() && !placed_after_deps(m, order, #[trigger] order[k]) implies crate::graph::on_waiting_cycle(
            m,
            order.take(k),
            order[k],
        ) by {
        if !crate::graph::deps_among(m, order.take(k), order[k]) {
        } else {
            assert(placed_after_deps(m, order, order[k]));
        }
    }
    let res = keep_missing(order, root, present);
    lemma_keep_sub(order, root, present);
    assert forall|a: int| 0 <= a < res.len() implies exists|k: int| 0 <= k < order.len() && order[k] == #[trigger] res[a] by {
        assert(order.contains(res[a]));
    }
    assert(res.no_duplicates()) by {
        assert forall|a: int, b: int| 0 <= a < res.len() && 0 <= b < res.len() && a != b implies res[a] != res[b] by {
            if res[a] == res[b] {
                assert(order.contains(res[a]));
                let k = choose|k: int| 0 <= k < order.len() && order[k] == res[a];
                if a < b {
                    assert(k < k);
                } else {
                    assert(k < k);
                }
            }
        }
    }
    assert(!res.contains(root)) by {
        if res.contains(root) {
            let a = choose|a: int| 0 <= a < res.len() && res[a] == root;
            assert(res[a] != root);
        }
    }
    assert forall|p: Seq<char>| #[trigger] res.contains(p) <==> (m.dom().contains(p) && p != root && !present[p]) by {
        if res.contains(p) {
            let a = choose|a: int| 0 <= a < res.len() && res[a] == p;
            assert(res[a] == p);
            let k = choose|k: int| 0 <= k < order.len() && order[k] == p;
            assert(m.dom().contains(order[k]));
        }
        if m.dom().contains(p) {
            assert(order.contains(p));
        }
    }
    assert forall|i: int, d: Seq<char>|
        0 <= i < res.len() && #[trigger] m[res[i]].contains(d) && res.contains(d)
            && placed_after_deps(m, order, res[i]) implies exists|j: int|
            0 <= j < i && res[j] == d by {
        let ki = choose|k: int| 0 <= k < order.len() && order[k] == res[i] && crate::graph::deps_among(m, order.take(k), res[i]);
        let t = choose|t: int| 0 <= t < res.len() && res[t] == d;
        assert(order.contains(res[t]));
        let kt = choose|k: int| 0 <= k < order.len() && order[k] == res[t];
        assert(m.dom().contains(order[kt]));
        assert(m[order[ki]].contains(d));
        assert(order.take(ki).contains(d));
        let j0 = choose|j: int| 0 <= j < ki && order.take(ki)[j] == d;
        assert(order[j0] == d);
        let j = j0;
        assert(j == kt) by {
            if j != kt {
                assert(order[j] == order[kt]);
            }
        }
        if t >= i {
            if t == i {
                assert(kt == ki) by {
                    if kt != ki {
                        assert(order[kt] == order[ki]);
                    }
                }
            } else {
                assert(ki < kt);
            }
        }
    }
}

} // verus!

verus! {

proof fn lemma_trim_start_skip(s: Seq<char>) -> (k: int)
    ensures
        0 <= k <= s.len(),
        crate::text::trim_start(s) == s.skip(k),
        crate::text::trim_start(s).len() > 0 ==> !crate::text::is_space(crate::text::trim_start(s)[0]),
    decreases s.len(),
{
    if s.len() > 0 && crate::text::is_space(s[0]) {
        let k = lemma_trim_start_skip(s.drop_first());
        assert(s.drop_first().skip(k) =~= s.skip(k + 1));
        k + 1
    } else {
        assert(s.skip(0) =~= s);
        0
    }
}

proof fn lemma_trim_end_take(s: Seq<char>) -> (k: int)
    ensures
        0 <= k <= s.len(),
        crate::text::trim_end(s) == s.take(k),
        crate::text::trim_end(s).len() > 0 ==> !crate::text::is_space(crate::text::trim_end(s).last()),
    decreases s.len(),
{
    if s.len() > 0 && crate::text::is_space(s.last()) {
        let k = lemma_trim_end_take(s.drop_last());
        assert(s.drop_last().take(k) =~= s.take(k));
        k
    } else {
        assert(s.take(s.len() as int) =~= s);
        s.len() as int
    }
}

/// Law: stripping a dependency's version constraint leaves a name that holds none of
/// `> < = :` and no surrounding white space, so stripping it again leaves it as it is.
pub proof fn law_strip_version(dep: Seq<char>)
    ensures
        strip_version(strip_version(dep)) == strip_version(dep),
        forall|j: int| 0 <= j < strip_version(dep).len() ==> !version_stops().contains(#[trigger] strip_version(dep)[j]),
        crate::text::trimmed(strip_version(dep)) == strip_version(dep),
{
    let stops = version_stops();
    let b = crate::text::before_stop(dep, stops);
    crate::text::lemma_stop_from_bounds(dep, stops, 0);
    let ts = crate::text::trim_start(b);
    let k1 = lemma_trim_start_skip(b);
    let t = crate::text::trim_end(ts);
    let k2 = lemma_trim_end_take(ts);
    assert(t == strip_version(dep));
    assert forall|j: int| 0 <= j < t.len() implies !stops.contains(#[trigger] t[j]) by {
        assert(t[j] == ts[j]);
        assert(ts[j] == b[k1 + j]);
        assert(b[k1 + j] == dep[k1 + j]);
    }
    if t.len() > 0 {
        assert(t[0] == ts[0]);
    }
    assert(crate::text::trim_start(t) == t);
    assert(crate::text::trim_end(t) == t);
    crate::text::lemma_stop_from_bounds(t, stops, 0);
    let k = crate::text::stop_from(t, stops, 0);
    assert(k == t.len());
    assert(t.take(t.len() as int) =~= t);
    assert(crate::text::before_stop(t, stops) == t);
}

} // verus!

verus! {

/// `c` starts a version constraint: one of `> < = :`.
pub open spec fn is_constraint_char(c: char) -> bool {
    c == '>' || c == '<' || c == '=' || c == ':'
}

/// Law: a dependency name is the text before the first of `> < = :` (all of it when none
/// occurs), without surrounding white space; any other character, such as `-` or `.`,
/// stays in the name.
pub proof fn law_strip_version_cut(dep: Seq<char>, k: int)
    requires
        0 <= k <= dep.len(),
        forall|j: int| 0 <= j < k ==> !is_constraint_char(#[trigger] dep[j]),
        k == dep.len() || is_constraint_char(dep[k]),
    ensures
        strip_version(dep) == crate::text::trimmed(dep.take(k)),
{
    let stops = version_stops();
    assert forall|c: char| stops.contains(c) <==> is_constraint_char(c) by {
        if is_constraint_char(c) {
            if c == '>' { assert(stops[0] == c); }
            else if c == '<' { assert(stops[1] == c); }
            else if c == '=' { assert(stops[2] == c); }
            else { assert(stops[3] == c); }
        }
    }
    crate::text::lemma_stop_from_bounds(dep, stops, 0);
    let s0 = crate::text::stop_from(dep, stops, 0);
    if s0 < k {
        assert(stops.contains(dep[s0]));
    }
    if s0 > k {
        assert(!stops.contains(dep[k]));
    }
    assert(s0 == k);
}

/// Law: a dependency string with none of `> < = :` is its own name, without surrounding
/// white space.
pub proof fn law_strip_version_plain(dep: Seq<char>)
    requires
        forall|j: int| 0 <= j < dep.len() ==> !is_constraint_char(#[trigger] dep[j]),
    ensures
        strip_version(dep) == crate::text::trimmed(dep),
{
    law_strip_version_cut(dep, dep.len() as int);
    assert(dep.take(dep.len() as int) =~= dep);
}

} // verus!
