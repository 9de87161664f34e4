use chiral::graph::DepMap;
use chiral::order::kahn_order;
use chiral::resolve::{clean_dep_list, resolve_deps, strip_ver, ResolveAction, ResolveEvent, Resolver};

fn s(x: &str) -> String {
    x.to_string()
}

/// Drives a resolution: `deps` answers what a missing package depends on, `present` the
/// packages already on the system. Returns the install list and the packages explored.
fn run(root: &str, deps: &[(&str, &[&str])], present: &[&str]) -> (Vec<String>, Vec<String>) {
    let mut r = Resolver::new(root);
    let mut ev = ResolveEvent::Begin;
    let mut explored = Vec::new();
    for _ in 0..1000 {
        match resolve_deps(&mut r, ev) {
            ResolveAction::Explore(p) => {
                explored.push(p.clone());
                ev = if present.contains(&p.as_str()) {
                    ResolveEvent::Present
                } else {
                    let ds = deps.iter().find(|(n, _)| *n == p).map(|(_, d)| d.iter().map(|x| s(x)).collect()).unwrap_or_default();
                    ResolveEvent::Depends(ds)
                };
            }
            ResolveAction::Recheck(p) => {
                ev = ResolveEvent::Checked(present.contains(&p.as_str()));
            }
            ResolveAction::Finished(list) => return (list, explored),
        }
    }
    panic!("resolution did not finish");
}

#[test]
fn strip_version_constraints() {
    assert_eq!(strip_ver("glib2>=2.80"), "glib2");
    assert_eq!(strip_ver("sh"), "sh");
    assert_eq!(strip_ver(" python : for scripts"), "python");
    assert_eq!(strip_ver("foo<3"), "foo");
    assert_eq!(strip_ver("=1"), "");
}

#[test]
fn clean_list_drops_empty_names() {
    let ds = vec![s("a>=1"), s(">=2"), s(" b "), s("")];
    assert_eq!(clean_dep_list(&ds), vec![s("a"), s("b")]);
}

#[test]
fn resolution_installs_missing_deps_first() {
    let (list, explored) = run("app", &[("app", &["libfoo>=1.0", "bar"]), ("bar", &["libfoo"])], &["libfoo"]);
    assert_eq!(list, vec![s("bar")]);
    assert_eq!(explored, vec![s("app"), s("libfoo"), s("bar")]);
}

#[test]
fn resolution_leaves_out_the_root() {
    let (list, _) = run("solo", &[], &[]);
    assert_eq!(list, Vec::<String>::new());
}

#[test]
fn resolution_orders_a_diamond() {
    let (list, explored) = run("r", &[("r", &["x", "y"]), ("x", &["z"]), ("y", &["z"])], &[]);
    assert_eq!(explored, vec![s("r"), s("x"), s("y"), s("z")]);
    assert_eq!(list.len(), 3);
    assert_eq!(list[0], "z");
    assert!(list.contains(&s("x")) && list.contains(&s("y")));
}

#[test]
fn resolution_breaks_cycles() {
    let (list, explored) = run("a", &[("a", &["b"]), ("b", &["c"]), ("c", &["b"])], &[]);
    assert_eq!(explored, vec![s("a"), s("b"), s("c")]);
    assert_eq!(list, vec![s("b"), s("c")]);
}

#[test]
fn resolution_keeps_every_missing_package_of_a_cycle() {
    let (list, _) = run("app", &[("app", &["x", "lib"]), ("x", &["y"]), ("y", &["x", "lib"])], &["lib"]);
    assert_eq!(list.len(), 2);
    assert!(list.contains(&s("x")) && list.contains(&s("y")));
}

#[test]
fn resolution_asks_each_package_once() {
    let (_, explored) = run("a", &[("a", &["b", "c", "b"]), ("b", &["c", "a"]), ("c", &["a"])], &[]);
    assert_eq!(explored, vec![s("a"), s("b"), s("c")]);
}

#[test]
fn resolution_rechecks_before_installing() {
    // "b" turns up on the system between exploration and the final check.
    let mut r = Resolver::new("a");
    let mut ev = ResolveEvent::Begin;
    let mut list = None;
    for _ in 0..100 {
        match resolve_deps(&mut r, ev) {
            ResolveAction::Explore(p) => {
                ev = if p == "a" { ResolveEvent::Depends(vec![s("b"), s("c")]) } else { ResolveEvent::Depends(vec![]) };
            }
            ResolveAction::Recheck(p) => ev = ResolveEvent::Checked(p == "b"),
            ResolveAction::Finished(l) => {
                list = Some(l);
                break;
            }
        }
    }
    assert_eq!(list, Some(vec![s("c")]));
}

#[test]
fn unanswered_question_is_asked_again() {
    let mut r = Resolver::new("a");
    assert_eq!(resolve_deps(&mut r, ResolveEvent::Begin), ResolveAction::Explore(s("a")));
    assert_eq!(resolve_deps(&mut r, ResolveEvent::Checked(true)), ResolveAction::Explore(s("a")));
}

#[test]
fn dep_map_orders_dependencies_first() {
    let mut m = DepMap::new();
    m.insert(s("app"), vec![s("lib"), s("tool")]);
    m.insert(s("tool"), vec![s("lib")]);
    m.insert(s("lib"), vec![]);
    assert!(m.contains_key(&s("tool")));
    assert!(!m.contains_key(&s("other")));
    assert_eq!(m.install_order(), vec![s("lib"), s("tool"), s("app")]);
}

#[test]
fn dep_map_insert_replaces() {
    let mut m = DepMap::new();
    m.insert(s("a"), vec![s("b")]);
    m.insert(s("b"), vec![]);
    m.insert(s("a"), vec![]);
    let order = m.install_order();
    assert_eq!(order.len(), 2);
    assert!(order.contains(&s("a")) && order.contains(&s("b")));
}

#[test]
fn kahn_puts_dependencies_first() {
    let adj = vec![vec![1], vec![], vec![0]];
    let order = kahn_order(&adj);
    assert_eq!(order, vec![1, 0, 2]);
}

#[test]
fn kahn_breaks_cycles() {
    let adj = vec![vec![1], vec![0], vec![], vec![2, 0]];
    assert_eq!(kahn_order(&adj), vec![2, 0, 1, 3]);
}

#[test]
fn kahn_breaks_a_cycle_on_the_cycle() {
    // 0 depends on the cycle 1 <-> 2; the cycle is broken at 1, not at 0.
    let adj = vec![vec![1], vec![2], vec![1]];
    assert_eq!(kahn_order(&adj), vec![1, 0, 2]);
}

#[test]
fn kahn_breaks_a_self_loop_without_moving_its_dependents() {
    // x -> y -> a, and a depends on itself: a is placed first, then y, then x.
    let adj = vec![vec![1], vec![2], vec![2]];
    assert_eq!(kahn_order(&adj), vec![2, 1, 0]);
}

#[test]
fn stripping_twice_is_stripping_once() {
    for dep in ["glib2>=2.80", "  python : scripts", "a<b=c", "", " = "] {
        let once = strip_ver(dep);
        assert_eq!(strip_ver(&once), once);
        assert!(!once.contains(|c| c == '>' || c == '<' || c == '=' || c == ':'));
        assert_eq!(once.trim(), once);
    }
}
