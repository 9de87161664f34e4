//! Install ordering: Kahn's topological sort over the dependency graph, breaking
//! dependency cycles.
use vstd::prelude::*;

verus! {

/// Every node listed in `adj` is a valid index and no list repeats a node.
pub open spec fn well_formed_graph(adj: Seq<Seq<usize>>) -> bool {
    forall|v: int|
        0 <= v < adj.len() ==> {
            &&& (#[trigger] adj[v]).no_duplicates()
            &&& forall|k: int| 0 <= k < adj[v].len() ==> adj[v][k] < adj.len()
        }
}

/// `order` lists distinct nodes of a graph with `n` nodes.
pub open spec fn distinct_nodes(order: Seq<usize>, n: nat) -> bool {
    &&& order.no_duplicates()
    &&& forall|i: int| 0 <= i < order.len() ==> order[i] < n
}

/// Every dependency of node `v` is among `placed`.
pub open spec fn deps_placed(adj: Seq<Seq<usize>>, placed: Seq<usize>, v: int) -> bool {
    forall|k: int| 0 <= k < adj[v].len() ==> placed.contains(#[trigger] adj[v][k])
}

/// No node outside `placed` has all its dependencies among `placed`: the nodes left wait
/// on one another, so they hold a dependency cycle.
pub open spec fn stuck(adj: Seq<Seq<usize>>, placed: Seq<usize>) -> bool {
    forall|v: int| 0 <= v < adj.len() && !placed.contains(v as usize) ==> !#[trigger] deps_placed(adj, placed, v)
}

/// `path` walks along dependencies through nodes not among `placed`: each is a node of
/// the graph not yet placed, and each after the first is a dependency of the one before.
pub open spec fn unplaced_walk(adj: Seq<Seq<usize>>, placed: Seq<usize>, path: Seq<usize>) -> bool {
    &&& path.len() > 0
    &&& forall|i: int| 0 <= i < path.len() ==> (#[trigger] path[i]) < adj.len() && !placed.contains(path[i])
    &&& forall|i: int| 0 <= i < path.len() - 1 ==> adj[path[i] as int].contains(#[trigger] path[i + 1])
}

/// `v` lies on a dependency cycle of nodes not among `placed`: a walk through such nodes
/// from `v` leads back to `v`.
pub open spec fn on_cycle(adj: Seq<Seq<usize>>, placed: Seq<usize>, v: usize) -> bool {
    exists|path: Seq<usize>|
        #[trigger] unplaced_walk(adj, placed, path) && path[0] == v && adj[path.last() as int].contains(v)
}

/// Each node of `order` comes after all its dependencies, unless, when it was placed, every
/// node not yet placed waited on another one not yet placed, and it lies on a cycle of
/// such nodes (the cycle it breaks).
pub open spec fn deps_first_or_cycle(adj: Seq<Seq<usize>>, order: Seq<usize>) -> bool {
    forall|i: int|
        0 <= i < order.len() ==> deps_placed(adj, order.take(i), #[trigger] order[i] as int) || (stuck(
            adj,
            order.take(i),
        ) && on_cycle(adj, order.take(i), order[i]))
}

fn all_placed(row: &Vec<usize>, placed: &Vec<bool>) -> (r: bool)
    requires
        forall|k: int| 0 <= k < row@.len() ==> row@[k] < placed@.len(),
    ensures
        r == forall|k: int| 0 <= k < row@.len() ==> placed@[#[trigger] row@[k] as int],
{
    let mut k: usize = 0;
    while k < row.len()
        invariant
            k <= row@.len(),
            forall|j: int| 0 <= j < row@.len() ==> row@[j] < placed@.len(),
            forall|j: int| 0 <= j < k ==> placed@[#[trigger] row@[j] as int],
        decreases row@.len() - k,
    {
        if !placed[row[k]] {
            return false;
        }
        k = k + 1;
    }
    true
}

proof fn lemma_take_push(s: Seq<usize>, w: usize, i: int)
    requires
        0 <= i <= s.len(),
    ensures
        s.push(w).take(i) == s.take(i),
{
    assert(s.push(w).take(i) =~= s.take(i));
}

fn first_unplaced(row: &Vec<usize>, placed: &Vec<bool>) -> (r: Option<usize>)
    requires
        forall|k: int| 0 <= k < row@.len() ==> row@[k] < placed@.len(),
    ensures
        r matches Some(x) ==> row@.contains(x) && x < placed@.len() && !placed@[x as int],
        r is None ==> forall|k: int| 0 <= k < row@.len() ==> placed@[#[trigger] row@[k] as int],
{
    let mut k: usize = 0;
    while k < row.len()
        invariant
            k <= row@.len(),
            forall|j: int| 0 <= j < row@.len() ==> row@[j] < placed@.len(),
            forall|j: int| 0 <= j < k ==> placed@[#[trigger] row@[j] as int],
        decreases row@.len() - k,
    {
        if !placed[row[k]] {
            proof {
                assert(row@[k as int] == row[k as int]);
            }
            return Some(row[k]);
        }
        k = k + 1;
    }
    None
}

/// A node on a cycle of nodes not yet placed, when every node not yet placed waits on
/// another: from `start`, follow each time the first dependency not yet placed until a
/// node comes round again.
fn cycle_member(adj: &Vec<Vec<usize>>, placed: &Vec<bool>, Ghost(done): Ghost<Seq<usize>>, start: usize) -> (w: usize)
    requires
        well_formed_graph(adj.deep_view()),
        placed@.len() == adj@.len(),
        forall|x: int| 0 <= x < adj@.len() ==> #[trigger] placed@[x] == done.contains(x as usize),
        stuck(adj.deep_view(), done),
        start < adj@.len(),
        !placed@[start as int],
    ensures
        w < adj@.len(),
        !placed@[w as int],
        on_cycle(adj.deep_view(), done, w),
{
    let n = adj.len();
    let ghost g = adj.deep_view();
    let mut path: Vec<usize> = Vec::new();
    path.push(start);
    loop
        invariant
            n == adj@.len() == g.len() == placed@.len(),
            g == adj.deep_view(),
            well_formed_graph(g),
            forall|x: int| 0 <= x < n ==> #[trigger] placed@[x] == done.contains(x as usize),
            stuck(g, done),
            unplaced_walk(g, done, path@),
            distinct_nodes(path@, n as nat),
        decreases n - path@.len(),
    {
        proof {
            lemma_distinct_len(path@, n as nat);
        }
        let cur = path[path.len() - 1];
        proof {
            assert(g[cur as int] =~= adj@[cur as int]@);
            assert(path@[path@.len() - 1] == cur);
        }
        let x = match first_unplaced(&adj[cur], placed) {
            Some(x) => x,
            None => {
                proof {
                    assert(!done.contains(cur));
                    assert(!deps_placed(g, done, cur as int));
                    let k = choose|k: int| 0 <= k < g[cur as int].len() && !done.contains(#[trigger] g[cur as int][k]);
                    assert(placed@[g[cur as int][k] as int]);
                }
                return cur;
            },
        };
        let mut j: usize = 0;
        while j < path.len() && path[j] != x
            invariant
                j <= path@.len(),
                forall|t: int| 0 <= t < j ==> path@[t] != x,
            decreases path@.len() - j,
        {
            j = j + 1;
        }
        if j < path.len() && path[j] == x {
            proof {
                let walk = path@.skip(j as int);
                assert(walk[0] == x);
                assert(walk.last() == cur);
                assert forall|i: int| 0 <= i < walk.len() implies (#[trigger] walk[i]) < g.len() && !done.contains(walk[i]) by {
                    assert(walk[i] == path@[i + j]);
                }
                assert forall|i: int| 0 <= i < walk.len() - 1 implies g[walk[i] as int].contains(#[trigger] walk[i + 1]) by {
                    assert(walk[i] == path@[i + j]);
                    assert(walk[i + 1] == path@[(i + j) + 1]);
                }
                assert(unplaced_walk(g, done, walk));
            }
            return x;
        }
        let ghost before = path@;
        path.push(x);
        proof {
            assert(!before.contains(x)) by {
                if before.contains(x) {
                    let t = choose|t: int| 0 <= t < before.len() && before[t] == x;
                }
            }
            lemma_push_distinct(before, x, n as nat);
            assert forall|i: int| 0 <= i < path@.len() implies (#[trigger] path@[i]) < g.len() && !done.contains(path@[i]) by {
                if i < before.len() {
                    assert(path@[i] == before[i]);
                }
            }
            assert forall|i: int| 0 <= i < path@.len() - 1 implies g[path@[i] as int].contains(#[trigger] path@[i + 1]) by {
                if i < before.len() - 1 {
                    assert(path@[i] == before[i]);
                    assert(path@[i + 1] == before[i + 1]);
                } else {
                    assert(path@[i] == cur);
                    assert(path@[i + 1] == x);
                }
            }
            lemma_distinct_len(path@, n as nat);
        }
    }
}

/// Kahn's algorithm: orders all the nodes so that each comes after its dependencies,
/// taking each time the first node whose dependencies are all placed; when there is none
/// (the nodes left wait on one another), a node on such a cycle is taken, which breaks
/// it. `adj[v]` lists the nodes that `v` depends on.
pub fn kahn_order(adj: &Vec<Vec<usize>>) -> (order: Vec<usize>)
    requires
        well_formed_graph(adj.deep_view()),
    ensures
        distinct_nodes(order@, adj@.len()),
        forall|v: usize| v < adj@.len() ==> #[trigger] order@.contains(v),
        deps_first_or_cycle(adj.deep_view(), order@),
{
    let n = adj.len();
    let ghost g = adj.deep_view();
    assert(g.len() == n);
    assert forall|v: int| 0 <= v < n implies #[trigger] g[v] == adj@[v]@ by {
        assert(g[v] =~= adj@[v]@);
    }
    let mut placed: Vec<bool> = Vec::new();
    let mut i: usize = 0;
    while i < n
        invariant
            i <= n,
            placed@.len() == i,
            forall|v: int| 0 <= v < i ==> !#[trigger] placed@[v],
        decreases n - i,
    {
        placed.push(false);
        i = i + 1;
    }
    let mut order: Vec<usize> = Vec::new();
    proof {
        assert forall|v: int| 0 <= v < n implies #[trigger] placed@[v] == order@.contains(v as usize) by {}
    }
    loop
        invariant
            n == adj@.len() == g.len(),
            g == adj.deep_view(),
            well_formed_graph(g),
            forall|v: int| 0 <= v < n ==> #[trigger] g[v] == adj@[v]@,
            placed@.len() == n,
            distinct_nodes(order@, n as nat),
            forall|v: int| 0 <= v < n ==> #[trigger] placed@[v] == order@.contains(v as usize),
            deps_first_or_cycle(g, order@),
        ensures
            distinct_nodes(order@, n as nat),
            forall|v: usize| v < n ==> #[trigger] order@.contains(v),
            deps_first_or_cycle(g, order@),
        decreases n - order@.len(),
    {
        proof {
            lemma_distinct_len(order@, n as nat);
        }
        let mut pick: usize = n;
        let mut first_free: usize = n;
        let mut v: usize = 0;
        while v < n
            invariant_except_break
                pick == n,
            invariant
                n == adj@.len() == g.len(),
                well_formed_graph(g),
                forall|x: int| 0 <= x < n ==> #[trigger] g[x] == adj@[x]@,
                placed@.len() == n,
                forall|x: int| 0 <= x < n ==> #[trigger] placed@[x] == order@.contains(x as usize),
                v <= n,
                first_free <= n,
                pick <= n,
                first_free == n ==> forall|x: int| 0 <= x < v ==> #[trigger] placed@[x],
                first_free < n ==> first_free <= v && !placed@[first_free as int],
                forall|x: int| 0 <= x < v && !placed@[x] ==> !#[trigger] deps_placed(g, order@, x),
            ensures
                first_free <= n,
                pick <= n,
                pick < n ==> !placed@[pick as int] && deps_placed(g, order@, pick as int),
                pick == n ==> forall|x: int| 0 <= x < n && !placed@[x] ==> !#[trigger] deps_placed(g, order@, x),
                first_free == n ==> forall|x: int| 0 <= x < n ==> #[trigger] placed@[x],
                first_free < n ==> !placed@[first_free as int],
            decreases n - v,
        {
            if !placed[v] {
                if first_free == n {
                    first_free = v;
                }
                let row = &adj[v];
                proof {
                    assert(row@ == g[v as int]);
                }
                let ready = all_placed(row, &placed);
                proof {
                    if ready {
                        assert forall|k: int| 0 <= k < g[v as int].len() implies order@.contains(#[trigger] g[v as int][k]) by {
                            assert(placed@[row@[k] as int]);
                        }
                    } else {
                        let k = choose|k: int| 0 <= k < row@.len() && !placed@[#[trigger] row@[k] as int];
                        assert(!order@.contains(g[v as int][k]));
                    }
                }
                if ready {
                    pick = v;
                    break;
                }
            }
            v = v + 1;
        }
        if first_free == n {
            proof {
                assert forall|x: usize| x < n implies #[trigger] order@.contains(x) by {
                    assert(placed@[x as int]);
                }
            }
            break;
        }
        let ghost before = order@;
        proof {
            if pick == n {
                assert(stuck(g, before)) by {
                    assert forall|x: int| 0 <= x < g.len() && !before.contains(x as usize) implies !#[trigger] deps_placed(g, before, x) by {
                        assert(!placed@[x]);
                    }
                }
            }
        }
        let chosen = if pick < n { pick } else { cycle_member(adj, &placed, Ghost(order@), first_free) };
        proof {
            assert(!before.contains(chosen));
        }
        order.push(chosen);
        placed.set(chosen, true);
        proof {
            lemma_push_distinct(before, chosen, n as nat);
            lemma_distinct_len(order@, n as nat);
            assert forall|x: int| 0 <= x < n implies #[trigger] placed@[x] == order@.contains(x as usize) by {
                lemma_push_contains(before, chosen, x as usize);
            }
            assert(order@.take(before.len() as int) =~= before);
            assert forall|i: int| 0 <= i < order@.len() implies deps_placed(g, order@.take(i), #[trigger] order@[i] as int) || (stuck(g, order@.take(i)) && on_cycle(g, order@.take(i), order@[i])) by {
                if i < before.len() {
                    lemma_take_push(before, chosen, i);
                    assert(order@[i] == before[i]);
                } else {
                    assert(order@[i] == chosen);
                }
            }
        }
    }
    order
}

proof fn lemma_push_distinct(s: Seq<usize>, w: usize, n: nat)
    requires
        distinct_nodes(s, n),
        !s.contains(w),
        w < n,
    ensures
        distinct_nodes(s.push(w), n),
{
    let s2 = s.push(w);
    assert forall|a: int, b: int| 0 <= a < s2.len() && 0 <= b < s2.len() && a != b implies s2[a] != s2[b] by {
        if a < s.len() && b < s.len() {
        } else if a < s.len() {
            assert(s2[a] == s[a]);
        } else {
            assert(s2[b] == s[b]);
        }
    }
}

proof fn lemma_push_contains(s: Seq<usize>, w: usize, x: usize)
    ensures
        s.push(w).contains(x) <==> (s.contains(x) || x == w),
{
    if s.push(w).contains(x) {
        let t = choose|t: int| 0 <= t < s.push(w).len() && s.push(w)[t] == x;
        if t < s.len() {
            assert(s[t] == x);
        }
    }
    if s.contains(x) {
        let t = choose|t: int| 0 <= t < s.len() && s[t] == x;
        assert(s.push(w)[t] == x);
    }
    if x == w {
        assert(s.push(w)[s.len() as int] == x);
    }
}

} // verus!



verus! {

proof fn lemma_index_range(n: nat)
    ensures
        Set::new(|x: usize| x < n).finite(),
        Set::new(|x: usize| x < n).len() == if n <= usize::MAX + 1 { n } else { (usize::MAX + 1) as nat },
    decreases n,
{
    if n == 0 {
        assert(Set::new(|x: usize| x < n) =~= Set::empty());
    } else {
        lemma_index_range((n - 1) as nat);
        if n <= usize::MAX + 1 {
            assert(Set::new(|x: usize| x < n - 1).insert((n - 1) as usize) =~= Set::new(|x: usize| x < n));
        } else {
            assert(Set::new(|x: usize| x < n - 1) =~= Set::new(|x: usize| x < n));
        }
    }
}

/// A list of distinct nodes of a graph is no longer than the number of nodes.
proof fn lemma_distinct_len(s: Seq<usize>, n: nat)
    requires
        distinct_nodes(s, n),
    ensures
        s.len() <= n,
{
    lemma_index_range(n);
    s.unique_seq_to_set();
    assert(s.to_set().subset_of(Set::new(|x: usize| x < n)));
    vstd::set_lib::lemma_len_subset(s.to_set(), Set::new(|x: usize| x < n));
}

} // verus!
