//! The dependency map (package name to the names it depends on) and the install order
//! computed from it.
use vstd::prelude::*;
use crate::order::kahn_order;

verus! {

/// The map that a list of (name, dependencies) entries stands for; a later entry for the
/// same name wins.
pub open spec fn entries_map(e: Seq<(Seq<char>, Seq<Seq<char>>)>) -> Map<Seq<char>, Seq<Seq<char>>>
    decreases e.len(),
{
    if e.len() == 0 {
        Map::empty()
    } else {
        entries_map(e.drop_last()).insert(e.last().0, e.last().1)
    }
}

/// No two entries share a name.
pub open spec fn distinct_keys(e: Seq<(Seq<char>, Seq<Seq<char>>)>) -> bool {
    forall|i: int, j: int| 0 <= i < e.len() && 0 <= j < e.len() && i != j ==> e[i].0 != e[j].0
}

/// The map of an entry list with distinct names has those names as its keys, each with
/// the dependencies of its entry.
pub proof fn lemma_entries_map(e: Seq<(Seq<char>, Seq<Seq<char>>)>)
    requires
        distinct_keys(e),
    ensures
        forall|k: Seq<char>| #[trigger] entries_map(e).dom().contains(k) <==> exists|i: int| 0 <= i < e.len() && e[i].0 == k,
        forall|i: int| 0 <= i < e.len() ==> #[trigger] entries_map(e)[e[i].0] == e[i].1,
    decreases e.len(),
{
    if e.len() > 0 {
        let t = e.drop_last();
        assert(distinct_keys(t)) by {
            assert forall|i: int, j: int| 0 <= i < t.len() && 0 <= j < t.len() && i != j implies t[i].0 != t[j].0 by {
                assert(t[i] == e[i] && t[j] == e[j]);
            }
        }
        lemma_entries_map(t);
        assert forall|k: Seq<char>| #[trigger] entries_map(e).dom().contains(k) <==> exists|i: int| 0 <= i < e.len() && e[i].0 == k by {
            if entries_map(t).dom().contains(k) {
                let i = choose|i: int| 0 <= i < t.len() && t[i].0 == k;
                assert(e[i] == t[i]);
            }
            if exists|i: int| 0 <= i < e.len() && e[i].0 == k {
                let i = choose|i: int| 0 <= i < e.len() && e[i].0 == k;
                if i < e.len() - 1 {
                    assert(t[i] == e[i]);
                }
            }
        }
        assert forall|i: int| 0 <= i < e.len() implies #[trigger] entries_map(e)[e[i].0] == e[i].1 by {
            if i < e.len() - 1 {
                assert(t[i] == e[i]);
                assert(e[i].0 != e[e.len() - 1].0);
                assert(entries_map(t)[t[i].0] == t[i].1);
            } else {
                assert(e[i] == e.last());
            }
        }
    }
}

/// The packages explored so far, each with the packages it depends on.
pub struct DepMap {
    entries: Vec<(String, Vec<String>)>,
}

impl View for DepMap {
    type V = Map<Seq<char>, Seq<Seq<char>>>;

    closed spec fn view(&self) -> Self::V {
        entries_map(self.entries.deep_view())
    }
}

impl DepMap {
    /// No two entries share a name.
    pub closed spec fn wf(&self) -> bool {
        distinct_keys(self.entries.deep_view())
    }

    /// The names in the order they were first inserted.
    pub closed spec fn keys_in_order(&self) -> Seq<Seq<char>> {
        self.entries.deep_view().map_values(|e: (Seq<char>, Seq<Seq<char>>)| e.0)
    }

    /// The names in insertion order are distinct and are exactly the keys of the map.
    pub proof fn lemma_keys(&self)
        requires
            self.wf(),
        ensures
            self.keys_in_order().no_duplicates(),
            forall|k: Seq<char>| #[trigger] self@.dom().contains(k) <==> self.keys_in_order().contains(k),
            self@.dom().finite(),
    {
        let e = self.entries.deep_view();
        lemma_entries_map(e);
        let ks = self.keys_in_order();
        assert forall|k: Seq<char>| #[trigger] self@.dom().contains(k) <==> ks.contains(k) by {
            if self@.dom().contains(k) {
                let i = choose|i: int| 0 <= i < e.len() && e[i].0 == k;
                assert(ks[i] == k);
            }
            if ks.contains(k) {
                let i = choose|i: int| 0 <= i < ks.len() && ks[i] == k;
                assert(e[i].0 == k);
            }
        }
        assert(self@.dom() =~= ks.to_set());
    }

    /// An empty map.
    pub fn new() -> (m: Self)
        ensures
            m.wf(),
            m@ == Map::<Seq<char>, Seq<Seq<char>>>::empty(),
            m.keys_in_order() == Seq::<Seq<char>>::empty(),
    {
        let m = DepMap { entries: Vec::new() };
        assert(m.entries.deep_view() =~= Seq::<(Seq<char>, Seq<Seq<char>>)>::empty());
        assert(m.keys_in_order() =~= Seq::<Seq<char>>::empty());
        m
    }

    /// The position of `name` among the entries.
    fn position(&self, name: &String) -> (r: Option<usize>)
        requires
            self.wf(),
        ensures
            r matches Some(i) ==> i < self.entries@.len() && self.entries.deep_view()[i as int].0 == name@,
            r is None ==> !self@.dom().contains(name@),
    {
        proof {
            lemma_entries_map(self.entries.deep_view());
        }
        let mut i: usize = 0;
        while i < self.entries.len()
            invariant
                i <= self.entries@.len(),
                forall|j: int| 0 <= j < i ==> #[trigger] self.entries.deep_view()[j].0 != name@,
            decreases self.entries@.len() - i,
        {
            if self.entries[i].0 == *name {
                return Some(i);
            }
            i = i + 1;
        }
        None
    }

    /// Whether `name` has an entry.
    pub fn contains_key(&self, name: &String) -> (r: bool)
        requires
            self.wf(),
        ensures
            r == self@.dom().contains(name@),
    {
        proof {
            lemma_entries_map(self.entries.deep_view());
        }
        self.position(name).is_some()
    }

    /// Sets the dependencies of `name`, replacing any earlier entry for it.
    pub fn insert(&mut self, name: String, deps: Vec<String>)
        requires
            old(self).wf(),
        ensures
            final(self).wf(),
            final(self)@ == old(self)@.insert(name@, deps.deep_view()),
            old(self)@.dom().contains(name@) ==> final(self).keys_in_order() == old(self).keys_in_order(),
            !old(self)@.dom().contains(name@) ==> final(self).keys_in_order() == old(self).keys_in_order().push(name@),
    {
        proof {
            lemma_entries_map(self.entries.deep_view());
        }
        let ghost e0 = self.entries.deep_view();
        let ghost entry = (name@, deps.deep_view());
        match self.position(&name) {
            Some(i) => {
                let ghost ks0 = self.keys_in_order();
                let mut entries: Vec<(String, Vec<String>)> = Vec::new();
                std::mem::swap(&mut entries, &mut self.entries);
                entries.set(i, (name, deps));
                proof {
                    let e1 = entries.deep_view();
                    assert(e1 =~= e0.update(i as int, entry));
                    assert(distinct_keys(e1)) by {
                        assert forall|a: int, b: int| 0 <= a < e1.len() && 0 <= b < e1.len() && a != b implies e1[a].0 != e1[b].0 by {
                            if a != i && b != i {
                                assert(e1[a] == e0[a] && e1[b] == e0[b]);
                            } else if a == i {
                                assert(e1[b] == e0[b]);
                            } else {
                                assert(e1[a] == e0[a]);
                            }
                        }
                    }
                    lemma_entries_map(e1);
                    lemma_entries_map(e0);
                    assert(entries_map(e1) =~= entries_map(e0).insert(name@, deps.deep_view())) by {
                        assert forall|k: Seq<char>| #[trigger] entries_map(e1).dom().contains(k) <==> entries_map(e0).insert(name@, deps.deep_view()).dom().contains(k) by {
                            if entries_map(e1).dom().contains(k) {
                                let j = choose|j: int| 0 <= j < e1.len() && e1[j].0 == k;
                                if j != i {
                                    assert(e0[j] == e1[j]);
                                }
                            }
                            if entries_map(e0).dom().contains(k) {
                                let j = choose|j: int| 0 <= j < e0.len() && e0[j].0 == k;
                                if j != i {
                                    assert(e0[j] == e1[j]);
                                } else {
                                    assert(e1[j].0 == k);
                                }
                            }
                            if k == name@ {
                                assert(e1[i as int].0 == k);
                            }
                        }
                        assert forall|k: Seq<char>| #[trigger] entries_map(e1).dom().contains(k) implies entries_map(e1)[k] == entries_map(e0).insert(name@, deps.deep_view())[k] by {
                            let j = choose|j: int| 0 <= j < e1.len() && e1[j].0 == k;
                            if j != i {
                                assert(e0[j] == e1[j]);
                                assert(entries_map(e1)[e1[j].0] == e1[j].1);
                                assert(entries_map(e0)[e0[j].0] == e0[j].1);
                            } else {
                                assert(entries_map(e1)[e1[j].0] == e1[j].1);
                            }
                        }
                    }
                    assert(e1.map_values(|e: (Seq<char>, Seq<Seq<char>>)| e.0) =~= ks0);
                }
                self.entries = entries;
            },
            None => {
                let mut entries: Vec<(String, Vec<String>)> = Vec::new();
                std::mem::swap(&mut entries, &mut self.entries);
                entries.push((name, deps));
                proof {
                    let e1 = entries.deep_view();
                    assert(e1 =~= e0.push(entry));
                    assert(e1.drop_last() =~= e0);
                    assert(distinct_keys(e1)) by {
                        assert forall|a: int, b: int| 0 <= a < e1.len() && 0 <= b < e1.len() && a != b implies e1[a].0 != e1[b].0 by {
                            if a < e0.len() && b < e0.len() {
                                assert(e1[a] == e0[a] && e1[b] == e0[b]);
                            } else if a < e0.len() {
                                assert(e1[a] == e0[a]);
                                assert(entries_map(e0).dom().contains(e0[a].0));
                            } else {
                                assert(e1[b] == e0[b]);
                                assert(entries_map(e0).dom().contains(e0[b].0));
                            }
                        }
                    }
                    assert(e1.map_values(|e: (Seq<char>, Seq<Seq<char>>)| e.0) =~= e0.map_values(|e: (Seq<char>, Seq<Seq<char>>)| e.0).push(name@));
                }
                self.entries = entries;
            },
        }
    }
}

/// `adj` is the dependency graph of the entries `e` over their positions: `adj[v]` lists,
/// once each, the positions of the entries that entry `v` depends on.
pub open spec fn positions_graph(e: Seq<(Seq<char>, Seq<Seq<char>>)>, adj: Seq<Seq<usize>>) -> bool {
    &&& adj.len() == e.len()
    &&& forall|v: int|
        0 <= v < adj.len() ==> {
            &&& (#[trigger] adj[v]).no_duplicates()
            &&& forall|k: int| 0 <= k < adj[v].len() ==> adj[v][k] < adj.len()
            &&& forall|x: usize| #[trigger] adj[v].contains(x) <==> (x < adj.len() && e[v].1.contains(e[x as int].0))
        }
}

fn contains_index(row: &Vec<usize>, x: usize) -> (r: bool)
    ensures
        r == row@.contains(x),
{
    let mut i: usize = 0;
    while i < row.len()
        invariant
            i <= row@.len(),
            forall|j: int| 0 <= j < i ==> row@[j] != x,
        decreases row@.len() - i,
    {
        if row[i] == x {
            return true;
        }
        i = i + 1;
    }
    false
}

impl DepMap {
    /// The dependency graph over entry positions.
    fn positions(&self) -> (adj: Vec<Vec<usize>>)
        requires
            self.wf(),
        ensures
            positions_graph(self.entries.deep_view(), adj.deep_view()),
    {
        let n = self.entries.len();
        let ghost e = self.entries.deep_view();
        proof {
            lemma_entries_map(e);
        }
        let mut adj: Vec<Vec<usize>> = Vec::new();
        let mut v: usize = 0;
        while v < n
            invariant
                n == self.entries@.len() == e.len(),
                e == self.entries.deep_view(),
                self.wf(),
                v <= n,
                adj@.len() == v,
                forall|w: int|
                    0 <= w < v ==> {
                        &&& (#[trigger] adj@[w])@.no_duplicates()
                        &&& forall|k: int| 0 <= k < adj@[w]@.len() ==> adj@[w]@[k] < n
                        &&& forall|x: usize| #[trigger] adj@[w]@.contains(x) <==> (x < n && e[w].1.contains(e[x as int].0))
                    },
            decreases n - v,
        {
            let deps = &self.entries[v].1;
            proof {
                assert(deps.deep_view() == e[v as int].1);
            }
            let mut row: Vec<usize> = Vec::new();
            let mut k: usize = 0;
            while k < deps.len()
                invariant
                    n == self.entries@.len() == e.len(),
                    e == self.entries.deep_view(),
                    self.wf(),
                    v < n,
                    deps.deep_view() == e[v as int].1,
                    k <= deps@.len(),
                    row@.no_duplicates(),
                    forall|j: int| 0 <= j < row@.len() ==> row@[j] < n,
                    forall|x: usize| #[trigger] row@.contains(x) <==> (x < n && e[v as int].1.take(k as int).contains(e[x as int].0)),
                decreases deps@.len() - k,
            {
                let ghost before = row@;
                let found = self.position(&deps[k]);
                proof {
                    assert(deps.deep_view()[k as int] == deps@[k as int]@);
                    assert(e[v as int].1.take(k + 1) =~= e[v as int].1.take(k as int).push(deps@[k as int]@));
                }
                match found {
                    Some(j) => {
                        if !contains_index(&row, j) {
                            row.push(j);
                            proof {
                                assert forall|a: int, b: int| 0 <= a < row@.len() && 0 <= b < row@.len() && a != b implies row@[a] != row@[b] by {
                                    if a < before.len() && b < before.len() {
                                        assert(row@[a] == before[a] && row@[b] == before[b]);
                                    } else if a < before.len() {
                                        assert(row@[a] == before[a]);
                                        assert(before.contains(before[a]));
                                    } else {
                                        assert(row@[b] == before[b]);
                                        assert(before.contains(before[b]));
                                    }
                                }
                            }
                        }
                        proof {
                            assert forall|x: usize| #[trigger] row@.contains(x) <==> (x < n && e[v as int].1.take(k + 1).contains(e[x as int].0)) by {
                                if x < n {
                                    lemma_seq_push_contains(e[v as int].1.take(k as int), deps@[k as int]@, e[x as int].0);
                                }
                                if x < n && e[x as int].0 == deps@[k as int]@ {
                                    if x != j {
                                        assert(e[x as int].0 == e[j as int].0);
                                    }
                                }
                                if row@.contains(x) && !before.contains(x) {
                                    let t = choose|t: int| 0 <= t < row@.len() && row@[t] == x;
                                    if t < before.len() {
                                        assert(before[t] == x);
                                    }
                                }
                                if before.contains(x) {
                                    let t = choose|t: int| 0 <= t < before.len() && before[t] == x;
                                    assert(row@[t] == x);
                                }
                                if x == j && !before.contains(x) {
                                    assert(row@[before.len() as int] == x);
                                }
                            }
                        }
                    },
                    None => {
                        proof {
                            assert forall|x: usize| #[trigger] row@.contains(x) <==> (x < n && e[v as int].1.take(k + 1).contains(e[x as int].0)) by {
                                lemma_entries_map(e);
                                if x < n {
                                    lemma_seq_push_contains(e[v as int].1.take(k as int), deps@[k as int]@, e[x as int].0);
                                }
                                if x < n && e[x as int].0 == deps@[k as int]@ {
                                    assert(self@.dom().contains(e[x as int].0));
                                }
                            }
                        }
                    },
                }
                k = k + 1;
            }
            proof {
                assert(e[v as int].1.take(deps@.len() as int) =~= e[v as int].1);
            }
            adj.push(row);
            v = v + 1;
        }
        proof {
            let g = adj.deep_view();
            assert forall|w: int| 0 <= w < n implies #[trigger] g[w] == adj@[w]@ by {
                assert(g[w] =~= adj@[w]@);
            }
        }
        adj
    }

    /// The install order of the explored packages (Kahn's algorithm): every package once,
    /// after the dependencies it has in the map, a dependency cycle broken where no package
    /// has all its dependencies placed.
    pub fn install_order(&self) -> (order: Vec<String>)
        requires
            self.wf(),
        ensures
            is_install_order(self@, order.deep_view()),
    {
        let n = self.entries.len();
        let ghost e = self.entries.deep_view();
        let ghost m = self@;
        proof {
            lemma_entries_map(e);
        }
        let adj = self.positions();
        let ghost g = adj.deep_view();
        proof {
            assert(crate::order::well_formed_graph(g));
        }
        let idx = kahn_order(&adj);
        let mut out: Vec<String> = Vec::new();
        let mut t: usize = 0;
        while t < idx.len()
            invariant
                e == self.entries.deep_view(),
                crate::order::distinct_nodes(idx@, e.len()),
                t <= idx@.len(),
                out@.len() == t,
                forall|a: int| 0 <= a < t ==> (#[trigger] out@[a])@ == e[idx@[a] as int].0,
            decreases idx@.len() - t,
        {
            out.push(self.entries[idx[t]].0.clone());
            t = t + 1;
        }
        let ghost o = out.deep_view();
        proof {
            assert forall|a: int| 0 <= a < o.len() implies #[trigger] o[a] == e[idx@[a] as int].0 by {
                assert(o[a] == out@[a]@);
            }
            // the output names are distinct keys of the map
            assert(o.no_duplicates()) by {
                assert forall|a: int, b: int| 0 <= a < o.len() && 0 <= b < o.len() && a != b implies o[a] != o[b] by {
                    assert(o[a] == e[idx@[a] as int].0 && o[b] == e[idx@[b] as int].0);
                    assert(idx@[a] != idx@[b]);
                }
            }
            assert forall|a: int| 0 <= a < o.len() implies m.dom().contains(#[trigger] o[a]) by {
                assert(o[a] == e[idx@[a] as int].0);
            }
            // position of a name in the output, through the position of its entry
            assert forall|a: int, x: usize| 0 <= a < o.len() && x < e.len() && #[trigger] o[a] == #[trigger] e[x as int].0 implies idx@[a] == x by {
                assert(o[a] == e[idx@[a] as int].0);
            }
            // membership in a prefix of the output, through the positions of the entries
            assert forall|i: int, x: int| 0 <= i <= o.len() && 0 <= x < e.len() implies
                #[trigger] o.take(i).contains(e[x].0) == #[trigger] idx@.take(i).contains(x as usize) by {
                if o.take(i).contains(e[x].0) {
                    let a = choose|a: int| 0 <= a < i && o.take(i)[a] == e[x].0;
                    assert(o[a] == e[idx@[a] as int].0);
                    assert(idx@[a] == x as usize);
                    assert(idx@.take(i)[a] == x as usize);
                }
                if idx@.take(i).contains(x as usize) {
                    let a = choose|a: int| 0 <= a < i && idx@.take(i)[a] == x as usize;
                    assert(o.take(i)[a] == o[a]);
                    assert(o[a] == e[idx@[a] as int].0);
                }
            }
            assert forall|p: Seq<char>| m.dom().contains(p) implies #[trigger] o.contains(p) by {
                let v = choose|v: int| 0 <= v < e.len() && e[v].0 == p;
                assert(idx@.contains(v as usize));
                let a = choose|a: int| 0 <= a < idx@.len() && idx@[a] == v as usize;
                assert(o[a] == e[idx@[a] as int].0);
            }
            assert forall|i: int| 0 <= i < o.len() implies deps_among(m, o.take(i), #[trigger] o[i]) || (waiting(m, o.take(i)) && on_waiting_cycle(m, o.take(i), o[i])) by {
                let ov = idx@[i];
                assert(o[i] == e[ov as int].0);
                assert(m[o[i]] == e[ov as int].1);
                if crate::order::deps_placed(g, idx@.take(i), ov as int) {
                    assert forall|d: Seq<char>| m[o[i]].contains(d) && m.dom().contains(d) implies #[trigger] o.take(i).contains(d) by {
                        let x = choose|x: int| 0 <= x < e.len() && e[x].0 == d;
                        assert(g[ov as int].contains(x as usize));
                        let k = choose|k: int| 0 <= k < g[ov as int].len() && g[ov as int][k] == x as usize;
                        assert(idx@.take(i).contains(g[ov as int][k]));
                    }
                } else {
                    assert(crate::order::stuck(g, idx@.take(i)));
                    assert forall|p: Seq<char>| m.dom().contains(p) && !o.take(i).contains(p) implies !#[trigger] deps_among(m, o.take(i), p) by {
                        let v = choose|v: int| 0 <= v < e.len() && e[v].0 == p;
                        assert(!idx@.take(i).contains(v as usize));
                        assert(!crate::order::deps_placed(g, idx@.take(i), v));
                        let k = choose|k: int| 0 <= k < g[v].len() && !idx@.take(i).contains(#[trigger] g[v][k]);
                        let x = g[v][k];
                        assert(g[v].contains(x));
                        let d = e[x as int].0;
                        assert(m[p] == e[v].1);
                        assert(m[p].contains(d));
                        assert(m.dom().contains(d));
                        assert(x < e.len());
                        assert(((x as int) as usize) == x);
                        assert(o.take(i).contains(e[x as int].0) == idx@.take(i).contains(x));
                        assert(!o.take(i).contains(d));
                    }
                    assert(crate::order::on_cycle(g, idx@.take(i), ov));
                    let ip = choose|ip: Seq<usize>|
                        #[trigger] crate::order::unplaced_walk(g, idx@.take(i), ip) && ip[0] == ov && g[ip.last() as int].contains(ov);
                    let np = ip.map_values(|x: usize| e[x as int].0);
                    assert forall|k: int| 0 <= k < np.len() implies m.dom().contains(#[trigger] np[k]) && !o.take(i).contains(np[k]) by {
                        let x = ip[k];
                        assert(x < e.len());
                        assert(((x as int) as usize) == x);
                        assert(o.take(i).contains(e[x as int].0) == idx@.take(i).contains(x));
                    }
                    assert forall|k: int| 0 <= k < np.len() - 1 implies m[np[k]].contains(#[trigger] np[k + 1]) by {
                        let x = ip[k];
                        let y = ip[k + 1];
                        assert(g[x as int].contains(y));
                        assert(m[e[x as int].0] == e[x as int].1);
                    }
                    assert(waiting_walk(m, o.take(i), np));
                    let last = ip.last();
                    assert(np.last() == e[last as int].0);
                    assert(g[last as int].contains(ov));
                    assert(m[e[last as int].0] == e[last as int].1);
                    assert(m[np.last()].contains(o[i]));
                    assert(np[0] == o[i]);
                }
            }
        }
        out
    }
}

proof fn lemma_seq_push_contains(s: Seq<Seq<char>>, w: Seq<char>, x: Seq<char>)
    ensures
        s.push(w).contains(x) <==> (s.contains(x) || x == w),
{
    if s.push(w).contains(x) {
        let t = choose|t: int| 0 <= t < s.push(w).len() && s.push(w)[t] == x;
        if t < s.len() {
            assert(s[t] == x);
        }
    }
    if s.contains(x) {
        let t = choose|t: int| 0 <= t < s.len() && s[t] == x;
        assert(s.push(w)[t] == x);
    }
    if x == w {
        assert(s.push(w)[s.len() as int] == x);
    }
}

/// Every dependency of `p` that has an entry in `m` is among `placed`.
pub open spec fn deps_among(m: Map<Seq<char>, Seq<Seq<char>>>, placed: Seq<Seq<char>>, p: Seq<char>) -> bool {
    forall|d: Seq<char>| m[p].contains(d) && m.dom().contains(d) ==> #[trigger] placed.contains(d)
}

/// Every package of `m` not among `placed` waits on a dependency of `m` not among
/// `placed`: the packages left depend on one another in a cycle.
pub open spec fn waiting(m: Map<Seq<char>, Seq<Seq<char>>>, placed: Seq<Seq<char>>) -> bool {
    forall|p: Seq<char>| m.dom().contains(p) && !placed.contains(p) ==> !#[trigger] deps_among(m, placed, p)
}

/// `path` walks along dependencies of `m` through packages of `m` not among `placed`: each
/// after the first is a dependency of the one before.
pub open spec fn waiting_walk(m: Map<Seq<char>, Seq<Seq<char>>>, placed: Seq<Seq<char>>, path: Seq<Seq<char>>) -> bool {
    &&& path.len() > 0
    &&& forall|k: int| 0 <= k < path.len() ==> m.dom().contains(#[trigger] path[k]) && !placed.contains(path[k])
    &&& forall|k: int| 0 <= k < path.len() - 1 ==> m[path[k]].contains(#[trigger] path[k + 1])
}

/// `p` lies on a dependency cycle of packages of `m` not among `placed`: a walk through
/// them from `p` leads back to `p`.
pub open spec fn on_waiting_cycle(m: Map<Seq<char>, Seq<Seq<char>>>, placed: Seq<Seq<char>>, p: Seq<char>) -> bool {
    exists|path: Seq<Seq<char>>| #[trigger] waiting_walk(m, placed, path) && path[0] == p && m[path.last()].contains(p)
}

/// The contract of an install order for the dependency map `m`: every package of `m`
/// once, each after the dependencies it has in `m`, except where, when it was placed,
/// every package still to place waited on another and it lies on a cycle of such packages
/// (the dependency cycle it breaks).
pub open spec fn is_install_order(m: Map<Seq<char>, Seq<Seq<char>>>, order: Seq<Seq<char>>) -> bool {
    &&& order.no_duplicates()
    &&& forall|i: int| 0 <= i < order.len() ==> m.dom().contains(#[trigger] order[i])
    &&& forall|p: Seq<char>| m.dom().contains(p) ==> #[trigger] order.contains(p)
    &&& forall|i: int|
        0 <= i < order.len() ==> deps_among(m, order.take(i), #[trigger] order[i]) || (waiting(m, order.take(i))
            && on_waiting_cycle(m, order.take(i), order[i]))
}

} // verus!
