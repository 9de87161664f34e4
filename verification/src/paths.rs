//! Paths of the install prefix and the database, how an archive entry's path is placed
//! under the prefix, and whether the prefix is on the search paths.
use vstd::prelude::*;
use crate::text::{chars_of, string_of, push_all, same_chars};

verus! {

/// `base` joined with `rel` as `PathBuf::push` does on Unix: an absolute `rel` replaces
/// `base`; otherwise a `/` is put between them unless `base` is empty or ends with one.
pub open spec fn path_join(base: Seq<char>, rel: Seq<char>) -> Seq<char> {
    if rel.len() > 0 && rel[0] == '/' {
        rel
    } else if base.len() > 0 && base.last() != '/' {
        base + seq!['/'] + rel
    } else {
        base + rel
    }
}

/// `PathBuf::join` on text.
pub fn join_path(base: &str, rel: &str) -> (out: String)
    ensures
        out@ == path_join(base@, rel@),
{
    let b = chars_of(base);
    let r = chars_of(rel);
    let mut out: Vec<char> = Vec::new();
    if r.len() > 0 && r[0] == '/' {
        return string_of(r.as_slice());
    }
    push_all(&mut out, b.as_slice());
    if b.len() > 0 && b[b.len() - 1] != '/' {
        out.push('/');
    }
    push_all(&mut out, r.as_slice());
    proof {
        if b@.len() > 0 && b@.last() != '/' {
            assert(out@ =~= b@ + seq!['/'] + r@);
        } else {
            assert(out@ =~= b@ + r@);
        }
    }
    string_of(out.as_slice())
}

/// The install prefix: `/usr/local` for root, `$HOME/.local` otherwise.
pub open spec fn prefix_spec(root: bool, home: Option<Seq<char>>) -> Result<Seq<char>, Seq<char>> {
    if root {
        Ok("/usr/local"@)
    } else {
        match home {
            Some(h) => Ok(path_join(h, ".local"@)),
            None => Err("$HOME is not set"@),
        }
    }
}

/// The directory of the database: `/var/lib/chiral` for root,
/// `$HOME/.local/share/chiral` otherwise.
pub open spec fn db_dir_spec(root: bool, home: Option<Seq<char>>) -> Result<Seq<char>, Seq<char>> {
    if root {
        Ok("/var/lib/chiral"@)
    } else {
        match home {
            Some(h) => Ok(path_join(path_join(path_join(h, ".local"@), "share"@), "chiral"@)),
            None => Err("$HOME is not set"@),
        }
    }
}

/// The database file: `installed.db` in the database directory.
pub open spec fn db_file_spec(root: bool, home: Option<Seq<char>>) -> Result<Seq<char>, Seq<char>> {
    match db_dir_spec(root, home) {
        Ok(d) => Ok(path_join(d, "installed.db"@)),
        Err(e) => Err(e),
    }
}

/// A path or an error, as text.
pub open spec fn text_result(r: Result<String, String>) -> Result<Seq<char>, Seq<char>> {
    match r {
        Ok(s) => Ok(s@),
        Err(e) => Err(e@),
    }
}

fn home_unset() -> (e: String)
    ensures
        e@ == "$HOME is not set"@,
{
    String::from_str("$HOME is not set")
}

/// Where packages are installed, given whether the user is root and the home directory.
pub fn install_prefix(root: bool, home: Option<&str>) -> (r: Result<String, String>)
    ensures
        text_result(r) == prefix_spec(root, match home { Some(h) => Some(h@), None => None }),
{
    if root {
        return Ok(String::from_str("/usr/local"));
    }
    match home {
        Some(h) => Ok(join_path(h, ".local")),
        None => Err(home_unset()),
    }
}

/// The database directory, given whether the user is root and the home directory.
pub fn db_dir(root: bool, home: Option<&str>) -> (r: Result<String, String>)
    ensures
        text_result(r) == db_dir_spec(root, match home { Some(h) => Some(h@), None => None }),
{
    if root {
        return Ok(String::from_str("/var/lib/chiral"));
    }
    match home {
        Some(h) => {
            let a = join_path(h, ".local");
            let b = join_path(a.as_str(), "share");
            Ok(join_path(b.as_str(), "chiral"))
        },
        None => Err(home_unset()),
    }
}

/// The database file, given whether the user is root and the home directory.
pub fn db_file(root: bool, home: Option<&str>) -> (r: Result<String, String>)
    ensures
        text_result(r) == db_file_spec(root, match home { Some(h) => Some(h@), None => None }),
{
    match db_dir(root, home) {
        Ok(d) => Ok(join_path(d.as_str(), "installed.db")),
        Err(e) => Err(e),
    }
}

} // verus!

verus! {

/// Splitting state after reading `s`: the finished pieces and the piece being read.
pub open spec fn piece_scan(s: Seq<char>, sep: char) -> (Seq<Seq<char>>, Seq<char>)
    decreases s.len(),
{
    if s.len() == 0 {
        (seq![], seq![])
    } else {
        let p = piece_scan(s.drop_last(), sep);
        if s.last() == sep {
            (p.0.push(p.1), seq![])
        } else {
            (p.0, p.1.push(s.last()))
        }
    }
}

/// The pieces of `s` between occurrences of `sep` (`str::split` with a character).
pub open spec fn pieces(s: Seq<char>, sep: char) -> Seq<Seq<char>> {
    let p = piece_scan(s, sep);
    p.0.push(p.1)
}

/// `str::split` with a character, on a character slice.
pub fn split_pieces(s: &[char], sep: char) -> (out: Vec<Vec<char>>)
    ensures
        out.deep_view() == pieces(s@, sep),
{
    let mut done: Vec<Vec<char>> = Vec::new();
    let mut cur: Vec<char> = Vec::new();
    let mut i: usize = 0;
    while i < s.len()
        invariant
            i <= s@.len(),
            (done.deep_view(), cur@) == piece_scan(s@.take(i as int), sep),
        decreases s@.len() - i,
    {
        proof {
            assert(s@.take(i + 1).drop_last() =~= s@.take(i as int));
            assert(s@.take(i + 1).last() == s@[i as int]);
        }
        if s[i] == sep {
            let ghost before = done.deep_view();
            let piece = cur;
            cur = Vec::new();
            proof {
                assert(piece.deep_view() =~= piece@);
            }
            done.push(piece);
            proof {
                assert(done.deep_view() =~= before.push(piece@));
                assert(cur@ =~= Seq::<char>::empty());
            }
        } else {
            cur.push(s[i]);
        }
        i = i + 1;
    }
    proof {
        assert(s@.take(s@.len() as int) =~= s@);
    }
    let ghost before = done.deep_view();
    proof {
        assert(cur.deep_view() =~= cur@);
    }
    done.push(cur);
    proof {
        assert(done.deep_view() =~= before.push(piece_scan(s@, sep).1));
    }
    done
}

/// A piece that names something: not empty, not `.`, not `..`.
pub open spec fn is_normal(x: Seq<char>) -> bool {
    x.len() > 0 && x != seq!['.'] && x != seq!['.', '.']
}

/// The pieces that name something (`Component::Normal`), in order.
pub open spec fn normal_parts(ps: Seq<Seq<char>>) -> Seq<Seq<char>>
    decreases ps.len(),
{
    if ps.len() == 0 {
        seq![]
    } else if is_normal(ps.last()) {
        normal_parts(ps.drop_last()).push(ps.last())
    } else {
        normal_parts(ps.drop_last())
    }
}

/// The pieces joined with `/`.
pub open spec fn join_parts(ps: Seq<Seq<char>>) -> Seq<char>
    decreases ps.len(),
{
    if ps.len() == 0 {
        seq![]
    } else if ps.len() == 1 {
        ps[0]
    } else {
        join_parts(ps.drop_last()) + seq!['/'] + ps.last()
    }
}

/// Where an archive entry goes: its named components, a leading `usr` dropped, under
/// `prefix`; nothing when no component is left.
pub open spec fn dest_spec(prefix: Seq<char>, entry: Seq<char>) -> Option<Seq<char>> {
    let ps = normal_parts(pieces(entry, '/'));
    let rel = if ps.len() > 0 && ps[0] == seq!['u', 's', 'r'] {
        ps.drop_first()
    } else {
        ps
    };
    if rel.len() == 0 {
        None
    } else {
        Some(path_join(prefix, join_parts(rel)))
    }
}

fn is_normal_exec(x: &[char]) -> (r: bool)
    ensures
        r == is_normal(x@),
{
    if x.len() == 0 {
        return false;
    }
    if x.len() == 1 && x[0] == '.' {
        assert(x@ =~= seq!['.']);
        return false;
    }
    if x.len() == 2 && x[0] == '.' && x[1] == '.' {
        assert(x@ =~= seq!['.', '.']);
        return false;
    }
    proof {
        if x@ == seq!['.'] {
            assert(x@.len() == 1 && x@[0] == '.');
        }
        if x@ == seq!['.', '.'] {
            assert(x@.len() == 2 && x@[0] == '.' && x@[1] == '.');
        }
    }
    true
}

/// The destination under `prefix` of the archive entry at path `entry`, with anything
/// that is not a plain name (root, `.`, `..`) dropped; `None` when nothing is left.
pub fn install_dest(prefix: &str, entry: &str) -> (dest: Option<String>)
    ensures
        dest matches Some(d) ==> dest_spec(prefix@, entry@) == Some(d@),
        dest is None ==> dest_spec(prefix@, entry@) is None,
{
    let cs = chars_of(entry);
    let ps = split_pieces(cs.as_slice(), '/');
    let ghost pv = ps.deep_view();
    let mut parts: Vec<Vec<char>> = Vec::new();
    let mut i: usize = 0;
    while i < ps.len()
        invariant
            i <= ps@.len(),
            pv == ps.deep_view(),
            parts.deep_view() == normal_parts(pv.take(i as int)),
        decreases ps@.len() - i,
    {
        proof {
            assert(pv.take(i + 1).drop_last() =~= pv.take(i as int));
            assert(pv.take(i + 1).last() == pv[i as int]);
            assert(pv[i as int] =~= ps@[i as int]@);
        }
        if is_normal_exec(ps[i].as_slice()) {
            let ghost before = parts.deep_view();
            let part = copy_vec(&ps[i]);
            parts.push(part);
            proof {
                assert(parts.deep_view() =~= before.push(pv[i as int]));
            }
        }
        i = i + 1;
    }
    proof {
        assert(pv.take(ps@.len() as int) =~= pv);
    }
    let ghost all = parts.deep_view();
    let usr = ['u', 's', 'r'];
    proof {
        assert(usr@ =~= seq!['u', 's', 'r']);
    }
    let start: usize = if parts.len() > 0 && same_chars(parts[0].as_slice(), usr.as_slice()) {
        1
    } else {
        0
    };
    proof {
        if parts@.len() > 0 {
            assert(all[0] == parts@[0]@);
        }
    }
    if start == parts.len() {
        proof {
            if start == 1 {
                assert(all.drop_first().len() == 0);
            }
        }
        return None;
    }
    let ghost rel = all.skip(start as int);
    proof {
        if start == 1 {
            assert(rel =~= all.drop_first());
        } else {
            assert(rel =~= all);
        }
    }
    let mut joined: Vec<char> = Vec::new();
    let mut k: usize = start;
    while k < parts.len()
        invariant
            start <= k <= parts@.len(),
            start < parts@.len(),
            all == parts.deep_view(),
            rel == all.skip(start as int),
            joined@ == join_parts(rel.take(k - start)),
        decreases parts@.len() - k,
    {
        proof {
            assert(rel.take(k - start + 1).drop_last() =~= rel.take(k - start));
            assert(rel.take(k - start + 1).last() == all[k as int]);
            assert(all[k as int] =~= parts@[k as int]@);
        }
        if k > start {
            joined.push('/');
        }
        push_all(&mut joined, parts[k].as_slice());
        proof {
            if k == start {
                assert(joined@ =~= rel.take(1)[0]);
            } else {
                assert(joined@ =~= join_parts(rel.take(k - start)) + seq!['/'] + all[k as int]);
            }
        }
        k = k + 1;
    }
    proof {
        assert(rel.take(k - start) =~= rel);
    }
    let j = string_of(joined.as_slice());
    Some(join_path(prefix, j.as_str()))
}

fn copy_vec(v: &Vec<char>) -> (out: Vec<char>)
    ensures
        out@ == v@,
{
    crate::text::copy_range(v.as_slice(), 0, v.len())
}

} // verus!

verus! {

/// The pieces that are not empty and not `.` (`..` kept), in order.
pub open spec fn named_or_parent(ps: Seq<Seq<char>>) -> Seq<Seq<char>>
    decreases ps.len(),
{
    if ps.len() == 0 {
        seq![]
    } else if ps.last().len() > 0 && ps.last() != seq!['.'] {
        named_or_parent(ps.drop_last()).push(ps.last())
    } else {
        named_or_parent(ps.drop_last())
    }
}

/// The components of a Unix path (`Path::components`): `/` for a leading root, `.` for a
/// leading current directory, then the pieces other than empty ones and `.`. Two paths
/// are equal (`Path == Path`) when their components are.
pub open spec fn components(s: Seq<char>) -> Seq<Seq<char>> {
    let ps = pieces(s, '/');
    let lead = if s.len() > 0 && s[0] == '/' {
        seq![seq!['/']]
    } else if ps[0] == seq!['.'] {
        seq![seq!['.']]
    } else {
        seq![]
    };
    lead + named_or_parent(ps)
}

fn components_exec(s: &[char]) -> (out: Vec<Vec<char>>)
    ensures
        out.deep_view() == components(s@),
{
    let ps = split_pieces(s, '/');
    let ghost pv = ps.deep_view();
    let mut out: Vec<Vec<char>> = Vec::new();
    proof {
        assert(pv.len() >= 1);
        assert(ps@.len() == pv.len());
    }
    if s.len() > 0 && s[0] == '/' {
        out.push(single('/'));
    } else if ps[0].len() == 1 && ps[0][0] == '.' {
        out.push(single('.'));
    }
    let ghost lead = out.deep_view();
    proof {
        assert(pv[0] =~= ps@[0]@);
        if s@.len() > 0 && s@[0] == '/' {
            assert(lead[0] =~= seq!['/']);
            assert(lead =~= seq![seq!['/']]);
        } else if pv[0] == seq!['.'] {
            assert(pv[0].len() == 1 && pv[0][0] == '.');
            assert(lead[0] =~= seq!['.']);
            assert(lead =~= seq![seq!['.']]);
        } else {
            if ps@[0]@.len() == 1 && ps@[0]@[0] == '.' {
                assert(pv[0] =~= seq!['.']);
            }
            assert(lead =~= Seq::<Seq<char>>::empty());
        }
    }
    let mut i: usize = 0;
    while i < ps.len()
        invariant
            i <= ps@.len(),
            pv == ps.deep_view(),
            out.deep_view() == lead + named_or_parent(pv.take(i as int)),
        decreases ps@.len() - i,
    {
        proof {
            assert(pv.take(i + 1).drop_last() =~= pv.take(i as int));
            assert(pv.take(i + 1).last() == pv[i as int]);
            assert(pv[i as int] =~= ps@[i as int]@);
        }
        let p = &ps[i];
        let dot = p.len() == 1 && p[0] == '.';
        proof {
            assert(dot == (pv[i as int] == seq!['.'])) by {
                if pv[i as int] == seq!['.'] {
                    assert(pv[i as int].len() == 1 && pv[i as int][0] == '.');
                }
                if dot {
                    assert(pv[i as int] =~= seq!['.']);
                }
            }
        }
        if p.len() > 0 && !dot {
            let ghost before = out.deep_view();
            out.push(copy_vec(p));
            proof {
                assert(out.deep_view() =~= before.push(pv[i as int]));
            }
        }
        i = i + 1;
    }
    proof {
        assert(pv.take(ps@.len() as int) =~= pv);
    }
    out
}

fn single(c: char) -> (v: Vec<char>)
    ensures
        v@ == seq![c],
{
    let mut v: Vec<char> = Vec::new();
    v.push(c);
    proof {
        assert(v@ =~= seq![c]);
    }
    v
}

fn same_components(a: &Vec<Vec<char>>, b: &Vec<Vec<char>>) -> (r: bool)
    ensures
        r == (a.deep_view() == b.deep_view()),
{
    if a.len() != b.len() {
        proof {
            assert(a.deep_view().len() != b.deep_view().len());
        }
        return false;
    }
    let mut i: usize = 0;
    while i < a.len()
        invariant
            a@.len() == b@.len(),
            i <= a@.len(),
            forall|j: int| 0 <= j < i ==> a.deep_view()[j] == b.deep_view()[j],
        decreases a@.len() - i,
    {
        if !same_chars(a[i].as_slice(), b[i].as_slice()) {
            proof {
                assert(a.deep_view()[i as int] == a@[i as int]@);
                assert(b.deep_view()[i as int] == b@[i as int]@);
            }
            return false;
        }
        proof {
            assert(a.deep_view()[i as int] == a@[i as int]@);
            assert(b.deep_view()[i as int] == b@[i as int]@);
        }
        i = i + 1;
    }
    proof {
        assert(a.deep_view() =~= b.deep_view());
    }
    true
}

/// Whether some entry of a `:`-separated search path is the same path as `dir`.
pub open spec fn on_search_path(search: Seq<char>, dir: Seq<char>) -> bool {
    exists|i: int| 0 <= i < pieces(search, ':').len() && components(#[trigger] pieces(search, ':')[i]) == components(dir)
}

/// The hints shown after an install: (add `prefix/bin` to `PATH`, add `prefix/lib` to
/// `LD_LIBRARY_PATH`). The first is owed when no entry of `path_var` is `prefix/bin`; the
/// second, for a non-root user, when `ld_var` does not contain the text `prefix/lib`.
pub open spec fn hints_spec(prefix: Seq<char>, path_var: Seq<char>, ld_var: Seq<char>, root: bool) -> (bool, bool) {
    (
        !on_search_path(path_var, path_join(prefix, "bin"@)),
        !root && !crate::text::contains_seq(ld_var, path_join(prefix, "lib"@)),
    )
}

/// Which of the two search-path hints to show after installing under `prefix`.
pub fn path_hint(prefix: &str, path_var: &str, ld_var: &str, root: bool) -> (hints: (bool, bool))
    ensures
        hints == hints_spec(prefix@, path_var@, ld_var@, root),
{
    let bin_dir = join_path(prefix, "bin");
    let lib_dir = join_path(prefix, "lib");
    let bin_comps = components_exec(chars_of(bin_dir.as_str()).as_slice());
    let entries = split_pieces(chars_of(path_var).as_slice(), ':');
    let ghost ev = entries.deep_view();
    let mut in_path = false;
    let mut i: usize = 0;
    while i < entries.len()
        invariant
            i <= entries@.len(),
            ev == entries.deep_view(),
            ev == pieces(path_var@, ':'),
            bin_comps.deep_view() == components(bin_dir@),
            bin_dir@ == path_join(prefix@, "bin"@),
            in_path == exists|j: int| 0 <= j < i && components(#[trigger] ev[j]) == components(bin_dir@),
        decreases entries@.len() - i,
    {
        let c = components_exec(entries[i].as_slice());
        proof {
            assert(ev[i as int] =~= entries@[i as int]@);
        }
        if same_components(&c, &bin_comps) {
            in_path = true;
        }
        i = i + 1;
    }
    let ld_hint = if root {
        false
    } else {
        !crate::text::contains_chars(chars_of(ld_var).as_slice(), chars_of(lib_dir.as_str()).as_slice())
    };
    (!in_path, ld_hint)
}

} // verus!

verus! {

// ---------------------------------------------------------------------------
// An archive never places a file outside the prefix
// ---------------------------------------------------------------------------

proof fn lemma_scan_append_plain(a: Seq<char>, y: Seq<char>, sep: char)
    requires
        !y.contains(sep),
    ensures
        piece_scan(a + y, sep) == (piece_scan(a, sep).0, piece_scan(a, sep).1 + y),
    decreases y.len(),
{
    if y.len() == 0 {
        assert(a + y =~= a);
        assert(piece_scan(a, sep).1 + y =~= piece_scan(a, sep).1);
    } else {
        assert((a + y).drop_last() =~= a + y.drop_last());
        assert((a + y).last() == y.last());
        assert(!y.drop_last().contains(sep)) by {
            if y.drop_last().contains(sep) {
                let i = choose|i: int| 0 <= i < y.drop_last().len() && y.drop_last()[i] == sep;
                assert(y[i] == sep);
            }
        }
        lemma_scan_append_plain(a, y.drop_last(), sep);
        assert(y.last() != sep) by {
            assert(y[y.len() - 1] == y.last());
        }
        assert((piece_scan(a, sep).1 + y.drop_last()).push(y.last()) =~= piece_scan(a, sep).1 + y);
    }
}

proof fn lemma_pieces_plain(x: Seq<char>, sep: char)
    requires
        !x.contains(sep),
    ensures
        pieces(x, sep) == seq![x],
{
    lemma_scan_append_plain(Seq::empty(), x, sep);
    assert(Seq::<char>::empty() + x =~= x);
    assert(Seq::<char>::empty() + x =~= x);
}

/// Pieces named by `ps`, none holding `/`, joined with `/` and split again at `/`, are
/// `ps` again.
proof fn lemma_pieces_of_joined(ps: Seq<Seq<char>>)
    requires
        ps.len() > 0,
        forall|i: int| 0 <= i < ps.len() ==> !(#[trigger] ps[i]).contains('/'),
    ensures
        pieces(join_parts(ps), '/') == ps,
    decreases ps.len(),
{
    if ps.len() == 1 {
        lemma_pieces_plain(ps[0], '/');
        assert(seq![ps[0]] =~= ps);
    } else {
        let init = ps.drop_last();
        assert forall|i: int| 0 <= i < init.len() implies !(#[trigger] init[i]).contains('/') by {
            assert(init[i] == ps[i]);
        }
        lemma_pieces_of_joined(init);
        let j = join_parts(init);
        assert(ps.last() == ps[ps.len() - 1]);
        lemma_scan_append_plain(j + seq!['/'], ps.last(), '/');
        assert((j + seq!['/']).drop_last() =~= j);
        assert(piece_scan(j + seq!['/'], '/') == (piece_scan(j, '/').0.push(piece_scan(j, '/').1), Seq::<char>::empty()));
        assert(Seq::<char>::empty() + ps.last() =~= ps.last());
        assert(ps =~= init.push(ps.last()));
    }
}

proof fn lemma_scan_plain(s: Seq<char>, sep: char)
    ensures
        !piece_scan(s, sep).1.contains(sep),
        forall|i: int| 0 <= i < piece_scan(s, sep).0.len() ==> !(#[trigger] piece_scan(s, sep).0[i]).contains(sep),
    decreases s.len(),
{
    if s.len() > 0 {
        lemma_scan_plain(s.drop_last(), sep);
        let p = piece_scan(s.drop_last(), sep);
        if s.last() != sep {
            assert forall|c: char| p.1.push(s.last()).contains(c) implies c != sep by {
                let i = choose|i: int| 0 <= i < p.1.push(s.last()).len() && p.1.push(s.last())[i] == c;
                if i < p.1.len() {
                    assert(p.1[i] == c);
                }
            }
        } else {
            assert forall|i: int| 0 <= i < p.0.push(p.1).len() implies !(#[trigger] p.0.push(p.1)[i]).contains(sep) by {
                if i < p.0.len() {
                    assert(p.0.push(p.1)[i] == p.0[i]);
                }
            }
        }
    }
}

proof fn lemma_normal_parts(ps: Seq<Seq<char>>)
    ensures
        forall|i: int| 0 <= i < normal_parts(ps).len() ==> is_normal(#[trigger] normal_parts(ps)[i]),
        forall|i: int| 0 <= i < normal_parts(ps).len() ==> ps.contains(#[trigger] normal_parts(ps)[i]),
    decreases ps.len(),
{
    if ps.len() > 0 {
        lemma_normal_parts(ps.drop_last());
        let n = normal_parts(ps.drop_last());
        assert forall|i: int| 0 <= i < normal_parts(ps).len() implies ps.contains(#[trigger] normal_parts(ps)[i]) by {
            if i < n.len() {
                let x = normal_parts(ps)[i];
                assert(x == n[i]);
                let k = choose|k: int| 0 <= k < ps.drop_last().len() && ps.drop_last()[k] == x;
                assert(ps[k] == x);
            } else {
                assert(ps[ps.len() - 1] == ps.last());
            }
        }
    }
}

/// An archive entry is placed only under the prefix: its destination is the prefix
/// joined with a relative path (not starting with `/`) whose every piece names something
/// (none is empty, `.` or `..`), so no entry climbs out of the prefix.
pub proof fn law_dest_under_prefix(prefix: Seq<char>, entry: Seq<char>)
    ensures
        dest_spec(prefix, entry) matches Some(d) ==> exists|rel: Seq<char>|
            d == path_join(prefix, rel)
            && rel.len() > 0
            && rel[0] != '/'
            && forall|i: int| 0 <= i < pieces(rel, '/').len() ==> is_normal(#[trigger] pieces(rel, '/')[i]),
{
    let raw = pieces(entry, '/');
    let ps = normal_parts(raw);
    let rel_parts = if ps.len() > 0 && ps[0] == seq!['u', 's', 'r'] {
        ps.drop_first()
    } else {
        ps
    };
    if rel_parts.len() > 0 {
        lemma_scan_plain(entry, '/');
        lemma_normal_parts(raw);
        assert forall|i: int| 0 <= i < raw.len() implies !(#[trigger] raw[i]).contains('/') by {
            if i < piece_scan(entry, '/').0.len() {
                assert(raw[i] == piece_scan(entry, '/').0[i]);
            } else {
                assert(raw[i] == piece_scan(entry, '/').1);
            }
        }
        assert forall|i: int| 0 <= i < rel_parts.len() implies is_normal(#[trigger] rel_parts[i]) && !rel_parts[i].contains('/') by {
            let x = rel_parts[i];
            if ps.len() > 0 && ps[0] == seq!['u', 's', 'r'] {
                assert(x == ps[i + 1]);
            } else {
                assert(x == ps[i]);
            }
            assert(ps.contains(x));
            let k = choose|k: int| 0 <= k < raw.len() && raw[k] == x;
        }
        lemma_pieces_of_joined(rel_parts);
        let rel = join_parts(rel_parts);
        lemma_join_first(rel_parts);
        assert(dest_spec(prefix, entry) == Some(path_join(prefix, rel)));
        assert forall|i: int| 0 <= i < pieces(rel, '/').len() implies is_normal(#[trigger] pieces(rel, '/')[i]) by {
            assert(pieces(rel, '/')[i] == rel_parts[i]);
        }
    }
}

proof fn lemma_join_first(ps: Seq<Seq<char>>)
    requires
        ps.len() > 0,
        ps[0].len() > 0,
    ensures
        join_parts(ps).len() > 0,
        join_parts(ps)[0] == ps[0][0],
    decreases ps.len(),
{
    if ps.len() > 1 {
        lemma_join_first(ps.drop_last());
        let j = join_parts(ps.drop_last());
        assert((j + seq!['/'] + ps.last())[0] == j[0]);
    }
}

} // verus!

verus! {

// ---------------------------------------------------------------------------
// What to do with each archive entry
// ---------------------------------------------------------------------------

/// The type of an archive entry, as far as unpacking cares.
#[derive(PartialEq, Eq, Structural, Clone, Copy, Debug)]
pub enum EntryKind {
    Directory,
    Symlink,
    File,
    /// Any other type (hard link, device, ...), which is not unpacked.
    Other,
}

/// What unpacking does with one archive entry.
#[derive(Debug, PartialEq, Eq)]
pub enum EntryAction {
    /// Nothing: no component of its path names anything.
    Skip,
    /// Create this directory (and its parents).
    MakeDir(String),
    /// Create the parent directory, then write the entry's contents here with this mode.
    Unpack { dest: String, mode: u32 },
    /// Create the parent directory, then a symbolic link here pointing to `target`,
    /// replacing what is there.
    Link { dest: String, target: String },
    /// Create the parent directory, then fail: the link entry has no target.
    LinkWithoutTarget(String),
    /// Create the parent directory only.
    ParentOnly(String),
}

/// An entry action as text.
pub enum EntryActionView {
    Skip,
    MakeDir(Seq<char>),
    Unpack(Seq<char>, u32),
    Link(Seq<char>, Seq<char>),
    LinkWithoutTarget(Seq<char>),
    ParentOnly(Seq<char>),
}

impl View for EntryAction {
    type V = EntryActionView;

    open spec fn view(&self) -> EntryActionView {
        match self {
            EntryAction::Skip => EntryActionView::Skip,
            EntryAction::MakeDir(d) => EntryActionView::MakeDir(d@),
            EntryAction::Unpack { dest, mode } => EntryActionView::Unpack(dest@, *mode),
            EntryAction::Link { dest, target } => EntryActionView::Link(dest@, target@),
            EntryAction::LinkWithoutTarget(d) => EntryActionView::LinkWithoutTarget(d@),
            EntryAction::ParentOnly(d) => EntryActionView::ParentOnly(d@),
        }
    }
}

/// The action for an entry at `path` of type `kind`, whose header gives `mode` (absent
/// when unreadable; files then get 0o644) and `link` (a link's target, if any), when
/// unpacking under `prefix`.
pub open spec fn entry_action(prefix: Seq<char>, path: Seq<char>, kind: EntryKind, mode: Option<u32>, link: Option<Seq<char>>) -> EntryActionView {
    match dest_spec(prefix, path) {
        None => EntryActionView::Skip,
        Some(d) => match kind {
            EntryKind::Directory => EntryActionView::MakeDir(d),
            EntryKind::Symlink => match link {
                Some(t) => EntryActionView::Link(d, t),
                None => EntryActionView::LinkWithoutTarget(d),
            },
            EntryKind::File => EntryActionView::Unpack(d, match mode {
                Some(m) => m,
                None => 0o644u32,
            }),
            EntryKind::Other => EntryActionView::ParentOnly(d),
        },
    }
}

/// What to do with one archive entry when unpacking under `prefix`.
pub fn plan_entry(prefix: &str, path: &str, kind: EntryKind, mode: Option<u32>, link: Option<String>) -> (a: EntryAction)
    ensures
        a@ == entry_action(prefix@, path@, kind, mode, match link {
            Some(t) => Some(t@),
            None => None,
        }),
{
    let dest = match install_dest(prefix, path) {
        Some(d) => d,
        None => {
            return EntryAction::Skip;
        },
    };
    match kind {
        EntryKind::Directory => EntryAction::MakeDir(dest),
        EntryKind::Symlink => match link {
            Some(target) => EntryAction::Link { dest, target },
            None => EntryAction::LinkWithoutTarget(dest),
        },
        EntryKind::File => EntryAction::Unpack {
            dest,
            mode: match mode {
                Some(m) => m,
                None => 0o644,
            },
        },
        EntryKind::Other => EntryAction::ParentOnly(dest),
    }
}

} // verus!
