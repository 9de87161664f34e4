//! The file-tracking database: a text file of package blocks, each a header line
//! `[name=version|source]` followed by the paths of the files the package installed.
//! These functions read and rewrite that text; reading and writing the file is the
//! caller's.
use vstd::prelude::*;
use crate::text::{chars_of, split_lines, trim_chars, copy_range, string_of, stop_index, has_prefix, push_all};

verus! {

/// The word used for a missing version or source.
pub open spec fn unknown_text() -> Seq<char> {
    seq!['u', 'n', 'k', 'n', 'o', 'w', 'n']
}

/// `[name=`: the start of the header line of `name`'s block.
pub open spec fn header_prefix(name: Seq<char>) -> Seq<char> {
    seq!['['] + name + seq!['=']
}

/// A (trimmed) header line: `[` ... `]`.
pub open spec fn is_header(t: Seq<char>) -> bool {
    t.len() >= 2 && t[0] == '[' && t.last() == ']'
}

/// A (trimmed) line that starts a new block.
pub open spec fn opens_block(t: Seq<char>) -> bool {
    t.len() > 0 && t[0] == '['
}

/// The (name, version, source) of the text between the brackets of a header line: the
/// name ends at the first `=`, the version at the first `|` after it; what is missing is
/// "unknown".
pub open spec fn entry_of(inner: Seq<char>) -> (Seq<char>, Seq<char>, Seq<char>) {
    let name = crate::text::before_stop(inner, seq!['=']);
    match crate::text::after_stop(inner, seq!['=']) {
        None => (name, unknown_text(), unknown_text()),
        Some(rest) => (
            name,
            crate::text::before_stop(rest, seq!['|']),
            match crate::text::after_stop(rest, seq!['|']) {
                Some(src) => src,
                None => unknown_text(),
            },
        ),
    }
}

/// The entries of the header lines among `ls`, in order.
pub open spec fn db_entries(ls: Seq<Seq<char>>) -> Seq<(Seq<char>, Seq<char>, Seq<char>)>
    decreases ls.len(),
{
    if ls.len() == 0 {
        seq![]
    } else {
        let e = db_entries(ls.drop_last());
        let t = crate::text::trimmed(ls.last());
        if is_header(t) {
            e.push(entry_of(t.subrange(1, t.len() - 1)))
        } else {
            e
        }
    }
}

/// The entries listed in the database text `raw`.
pub open spec fn listed(raw: Seq<char>) -> Seq<(Seq<char>, Seq<char>, Seq<char>)> {
    db_entries(crate::text::lines(raw))
}

fn unknown() -> (s: String)
    ensures
        s@ == unknown_text(),
{
    let cs = ['u', 'n', 'k', 'n', 'o', 'w', 'n'];
    proof {
        assert(cs@ =~= unknown_text());
    }
    string_of(cs.as_slice())
}

/// Splits the text between the brackets of a header line into (name, version, source).
fn parse_entry(inner: &[char]) -> (e: (String, String, String))
    ensures
        e.deep_view() == entry_of(inner@),
{
    let eq = ['='];
    let bar = ['|'];
    proof {
        assert(eq@ =~= seq!['=']);
        assert(bar@ =~= seq!['|']);
        crate::text::lemma_stop_from_bounds(inner@, eq@, 0);
    }
    let k = stop_index(inner, eq.as_slice());
    let name = string_of(copy_range(inner, 0, k).as_slice());
    if k == inner.len() {
        return (name, unknown(), unknown());
    }
    let rest = copy_range(inner, k + 1, inner.len());
    proof {
        assert(rest@ =~= inner@.skip(k + 1));
        crate::text::lemma_stop_from_bounds(rest@, bar@, 0);
    }
    let j = stop_index(rest.as_slice(), bar.as_slice());
    let version = string_of(copy_range(rest.as_slice(), 0, j).as_slice());
    if j == rest.len() {
        return (name, version, unknown());
    }
    let source = string_of(copy_range(rest.as_slice(), j + 1, rest.len()).as_slice());
    proof {
        assert(source@ =~= rest@.skip(j + 1));
    }
    (name, version, source)
}

fn is_header_exec(t: &[char]) -> (r: bool)
    ensures
        r == is_header(t@),
{
    t.len() >= 2 && t[0] == '[' && t[t.len() - 1] == ']'
}

/// The installed packages recorded in the database text `raw`, as (name, version,
/// source), in the order of their header lines.
pub fn db_list(raw: &str) -> (entries: Vec<(String, String, String)>)
    ensures
        entries.deep_view() == listed(raw@),
{
    let cs = chars_of(raw);
    let ls = split_lines(cs.as_slice());
    let ghost lv = ls.deep_view();
    let mut out: Vec<(String, String, String)> = Vec::new();
    let mut i: usize = 0;
    while i < ls.len()
        invariant
            i <= ls@.len(),
            lv == ls.deep_view(),
            lv == crate::text::lines(raw@),
            out.deep_view() == db_entries(lv.take(i as int)),
        decreases ls@.len() - i,
    {
        proof {
            assert(lv.take(i + 1).drop_last() =~= lv.take(i as int));
            assert(lv.take(i + 1).last() == ls@[i as int]@);
        }
        let t = trim_chars(ls[i].as_slice());
        if is_header_exec(t.as_slice()) {
            let inner = copy_range(t.as_slice(), 1, t.len() - 1);
            let e = parse_entry(inner.as_slice());
            let ghost before = out.deep_view();
            out.push(e);
            proof {
                assert(out.deep_view() =~= before.push(e.deep_view()));
            }
        }
        i = i + 1;
    }
    proof {
        assert(lv.take(ls@.len() as int) =~= lv);
    }
    out
}

} // verus!

verus! {

/// Reading the lines for `db_files_for`: (files so far, inside the package's block,
/// stopped at the next block).
pub open spec fn files_step(st: (Seq<Seq<char>>, bool, bool), l: Seq<char>, name: Seq<char>) -> (Seq<Seq<char>>, bool, bool) {
    let t = crate::text::trimmed(l);
    if st.2 {
        st
    } else if crate::text::starts_with(t, header_prefix(name)) {
        (st.0, true, false)
    } else if st.1 {
        if opens_block(t) {
            (st.0, true, true)
        } else if t.len() > 0 {
            (st.0.push(t), true, false)
        } else {
            st
        }
    } else {
        st
    }
}

/// The state after reading the lines `ls` from state `st`.
pub open spec fn files_scan(st: (Seq<Seq<char>>, bool, bool), ls: Seq<Seq<char>>, name: Seq<char>) -> (Seq<Seq<char>>, bool, bool)
    decreases ls.len(),
{
    if ls.len() == 0 {
        st
    } else {
        files_step(files_scan(st, ls.drop_last(), name), ls.last(), name)
    }
}

/// The files recorded for `name` in the database text `raw`: the non-empty trimmed lines
/// after its header line, up to the next line that starts a block.
pub open spec fn files_of(raw: Seq<char>, name: Seq<char>) -> Seq<Seq<char>> {
    files_scan((seq![], false, false), crate::text::lines(raw), name).0
}

/// Reading the lines for a rewrite that drops `name`'s block: (lines kept, inside the
/// dropped block).
pub open spec fn keep_step(st: (Seq<Seq<char>>, bool), l: Seq<char>, name: Seq<char>) -> (Seq<Seq<char>>, bool) {
    let t = crate::text::trimmed(l);
    if crate::text::starts_with(t, header_prefix(name)) {
        (st.0, true)
    } else if st.1 && !opens_block(t) {
        (st.0, true)
    } else {
        (st.0.push(l), false)
    }
}

/// The state after reading the lines `ls` from state `st`.
pub open spec fn keep_scan(st: (Seq<Seq<char>>, bool), ls: Seq<Seq<char>>, name: Seq<char>) -> (Seq<Seq<char>>, bool)
    decreases ls.len(),
{
    if ls.len() == 0 {
        st
    } else {
        keep_step(keep_scan(st, ls.drop_last(), name), ls.last(), name)
    }
}

/// The lines of `raw` that stay when `name`'s block is dropped.
pub open spec fn kept_lines(raw: Seq<char>, name: Seq<char>) -> Seq<Seq<char>> {
    keep_scan((seq![], false), crate::text::lines(raw), name).0
}

/// The database text without `name`'s block.
pub open spec fn removed_text(raw: Seq<char>, name: Seq<char>) -> Seq<char> {
    crate::text::join_lines(kept_lines(raw, name))
}

/// The header line `[name=version|source]`.
pub open spec fn header_line(name: Seq<char>, version: Seq<char>, source: Seq<char>) -> Seq<char> {
    seq!['['] + name + seq!['='] + version + seq!['|'] + source + seq![']']
}

/// The database text with `name`'s block replaced by a new block at the end: its header,
/// its files, and an empty line.
pub open spec fn added_text(
    raw: Seq<char>,
    name: Seq<char>,
    version: Seq<char>,
    source: Seq<char>,
    files: Seq<Seq<char>>,
) -> Seq<char> {
    crate::text::join_lines(
        kept_lines(raw, name) + seq![header_line(name, version, source)] + files + seq![Seq::<char>::empty()],
    )
}

/// `[name=` as characters.
fn header_prefix_chars(name: &str) -> (p: Vec<char>)
    ensures
        p@ == header_prefix(name@),
{
    let mut p: Vec<char> = Vec::new();
    p.push('[');
    let cs = chars_of(name);
    push_all(&mut p, cs.as_slice());
    p.push('=');
    proof {
        assert(p@ =~= header_prefix(name@));
    }
    p
}

fn opens_block_exec(t: &[char]) -> (r: bool)
    ensures
        r == opens_block(t@),
{
    t.len() > 0 && t[0] == '['
}

/// The files recorded for `package` in the database text `raw`.
pub fn db_files_for(raw: &str, package: &str) -> (files: Vec<String>)
    ensures
        files.deep_view() == files_of(raw@, package@),
{
    let hp = header_prefix_chars(package);
    let cs = chars_of(raw);
    let ls = split_lines(cs.as_slice());
    let ghost lv = ls.deep_view();
    let mut files: Vec<String> = Vec::new();
    let mut in_block = false;
    let mut i: usize = 0;
    proof {
        assert(lv.skip(0) =~= lv);
        assert(files.deep_view() =~= Seq::<Seq<char>>::empty());
    }
    while i < ls.len()
        invariant
            i <= ls@.len(),
            lv == ls.deep_view(),
            lv == crate::text::lines(raw@),
            hp@ == header_prefix(package@),
            files_scan((seq![], false, false), lv, package@) == files_scan(
                (files.deep_view(), in_block, false),
                lv.skip(i as int),
                package@,
            ),
        decreases ls@.len() - i,
    {
        let t = trim_chars(ls[i].as_slice());
        proof {
            assert(lv[i as int] =~= ls@[i as int]@);
            assert(t@ == crate::text::trimmed(lv[i as int]));
            lemma_files_scan_front((files.deep_view(), in_block, false), lv.skip(i as int), package@);
            assert(lv.skip(i as int).drop_first() =~= lv.skip(i + 1));
            assert(lv.skip(i as int)[0] == lv[i as int]);
        }
        if has_prefix(t.as_slice(), hp.as_slice()) {
            in_block = true;
        } else if in_block {
            if opens_block_exec(t.as_slice()) {
                proof {
                    lemma_files_scan_stopped((files.deep_view(), true, true), lv.skip(i + 1), package@);
                }
                return files;
            }
            if t.len() > 0 {
                let ghost before = files.deep_view();
                files.push(string_of(t.as_slice()));
                proof {
                    assert(files.deep_view() =~= before.push(t@));
                }
            }
        }
        i = i + 1;
    }
    proof {
        assert(lv.skip(i as int) =~= Seq::<Seq<char>>::empty());
    }
    files
}

/// Reading the lines one by one from the front.
proof fn lemma_files_scan_front(st: (Seq<Seq<char>>, bool, bool), ls: Seq<Seq<char>>, name: Seq<char>)
    requires
        ls.len() > 0,
    ensures
        files_scan(st, ls, name) == files_scan(files_step(st, ls[0], name), ls.drop_first(), name),
    decreases ls.len(),
{
    if ls.len() > 1 {
        lemma_files_scan_front(st, ls.drop_last(), name);
        assert(ls.drop_last().drop_first() =~= ls.drop_first().drop_last());
        assert(ls.drop_last()[0] == ls[0]);
        assert(ls.drop_first().last() == ls.last());
    } else {
        assert(ls.drop_last() =~= Seq::<Seq<char>>::empty());
        assert(ls.drop_first() =~= Seq::<Seq<char>>::empty());
        assert(files_scan(st, ls.drop_last(), name) == st);
        assert(ls.last() == ls[0]);
    }
}

proof fn lemma_files_scan_stopped(st: (Seq<Seq<char>>, bool, bool), ls: Seq<Seq<char>>, name: Seq<char>)
    requires
        st.2,
    ensures
        files_scan(st, ls, name) == st,
    decreases ls.len(),
{
    if ls.len() > 0 {
        lemma_files_scan_stopped(st, ls.drop_last(), name);
    }
}

proof fn lemma_keep_scan_front(st: (Seq<Seq<char>>, bool), ls: Seq<Seq<char>>, name: Seq<char>)
    requires
        ls.len() > 0,
    ensures
        keep_scan(st, ls, name) == keep_scan(keep_step(st, ls[0], name), ls.drop_first(), name),
    decreases ls.len(),
{
    if ls.len() > 1 {
        lemma_keep_scan_front(st, ls.drop_last(), name);
        assert(ls.drop_last().drop_first() =~= ls.drop_first().drop_last());
        assert(ls.drop_last()[0] == ls[0]);
        assert(ls.drop_first().last() == ls.last());
    } else {
        assert(ls.drop_last() =~= Seq::<Seq<char>>::empty());
        assert(ls.drop_first() =~= Seq::<Seq<char>>::empty());
        assert(keep_scan(st, ls.drop_last(), name) == st);
        assert(ls.last() == ls[0]);
    }
}

/// Appends `l` and a line break to `out`.
fn push_line(out: &mut Vec<char>, l: &[char])
    ensures
        final(out)@ == old(out)@ + l@ + seq!['\n'],
{
    push_all(out, l);
    out.push('\n');
}

/// The lines of `raw` kept when `package`'s block is dropped, each followed by a line
/// break.
fn kept_text(raw: &str, package: &str) -> (out: Vec<char>)
    ensures
        out@ == removed_text(raw@, package@),
{
    let hp = header_prefix_chars(package);
    let cs = chars_of(raw);
    let ls = split_lines(cs.as_slice());
    let ghost lv = ls.deep_view();
    let ghost init = (Seq::<Seq<char>>::empty(), false);
    let mut out: Vec<char> = Vec::new();
    let mut skip = false;
    let ghost mut acc: Seq<Seq<char>> = Seq::empty();
    let mut i: usize = 0;
    proof {
        assert(lv.skip(0) =~= lv);
        assert(out@ =~= crate::text::join_lines(acc));
    }
    while i < ls.len()
        invariant
            i <= ls@.len(),
            lv == ls.deep_view(),
            lv == crate::text::lines(raw@),
            hp@ == header_prefix(package@),
            out@ == crate::text::join_lines(acc),
            keep_scan(init, lv, package@) == keep_scan((acc, skip), lv.skip(i as int), package@),
        decreases ls@.len() - i,
    {
        let t = trim_chars(ls[i].as_slice());
        proof {
            assert(lv[i as int] =~= ls@[i as int]@);
            assert(t@ == crate::text::trimmed(lv[i as int]));
            lemma_keep_scan_front((acc, skip), lv.skip(i as int), package@);
            assert(lv.skip(i as int).drop_first() =~= lv.skip(i + 1));
            assert(lv.skip(i as int)[0] == lv[i as int]);
            assert(ls@[i as int]@ == lv[i as int]);
        }
        if has_prefix(t.as_slice(), hp.as_slice()) {
            skip = true;
        } else {
            if skip && opens_block_exec(t.as_slice()) {
                skip = false;
            }
            if !skip {
                push_line(&mut out, ls[i].as_slice());
                proof {
                    assert(acc.push(lv[i as int]).drop_last() =~= acc);
                    acc = acc.push(lv[i as int]);
                }
            }
        }
        i = i + 1;
    }
    proof {
        assert(lv.skip(i as int) =~= Seq::<Seq<char>>::empty());
    }
    out
}

/// The database text `raw` without `package`'s block (header line and files).
pub fn db_remove_entry(raw: &str, package: &str) -> (text: String)
    ensures
        text@ == removed_text(raw@, package@),
{
    let out = kept_text(raw, package);
    string_of(out.as_slice())
}

/// The database text `raw` with `package`'s block replaced by a new one at the end:
/// `[package=version|source]`, one line per file, then an empty line.
pub fn db_add(raw: &str, package: &str, version: &str, source: &str, files: &[String]) -> (text: String)
    ensures
        text@ == added_text(raw@, package@, version@, source@, files.deep_view()),
{
    let mut out = kept_text(raw, package);
    let ghost kept = kept_lines(raw@, package@);
    let mut header: Vec<char> = Vec::new();
    header.push('[');
    push_all(&mut header, chars_of(package).as_slice());
    header.push('=');
    push_all(&mut header, chars_of(version).as_slice());
    header.push('|');
    push_all(&mut header, chars_of(source).as_slice());
    header.push(']');
    proof {
        assert(header@ =~= header_line(package@, version@, source@));
    }
    push_line(&mut out, header.as_slice());
    let ghost mut acc: Seq<Seq<char>> = kept.push(header@);
    proof {
        assert(acc.drop_last() =~= kept);
    }
    let ghost fv = files.deep_view();
    let mut i: usize = 0;
    while i < files.len()
        invariant
            i <= files@.len(),
            fv == files.deep_view(),
            acc == kept + seq![header_line(package@, version@, source@)] + fv.take(i as int),
            out@ == crate::text::join_lines(acc),
        decreases files@.len() - i,
    {
        let f = chars_of(files[i].as_str());
        push_line(&mut out, f.as_slice());
        proof {
            assert(f@ == fv[i as int]);
            assert(acc.push(f@).drop_last() =~= acc);
            acc = acc.push(f@);
            assert(fv.take(i + 1) =~= fv.take(i as int).push(fv[i as int]));
            assert(acc =~= kept + seq![header_line(package@, version@, source@)] + fv.take(i + 1));
        }
        i = i + 1;
    }
    out.push('\n');
    proof {
        let e = Seq::<char>::empty();
        assert(acc.push(e).drop_last() =~= acc);
        assert(out@ =~= crate::text::join_lines(acc) + e + seq!['\n']);
        assert(fv.take(files@.len() as int) =~= fv);
        assert(acc.push(e) =~= kept + seq![header_line(package@, version@, source@)] + fv + seq![e]);
    }
    string_of(out.as_slice())
}

} // verus!

verus! {

/// Some entry of the database text `raw` has the name `name`.
pub open spec fn is_listed(raw: Seq<char>, name: Seq<char>) -> bool {
    exists|i: int| 0 <= i < listed(raw).len() && (#[trigger] listed(raw)[i]).0 == name
}

/// The (version, source) of the first entry named `name`.
pub open spec fn first_entry(es: Seq<(Seq<char>, Seq<char>, Seq<char>)>, name: Seq<char>) -> Option<(Seq<char>, Seq<char>)>
    decreases es.len(),
{
    if es.len() == 0 {
        None
    } else {
        match first_entry(es.drop_last(), name) {
            Some(e) => Some(e),
            None => if es.last().0 == name {
                Some((es.last().1, es.last().2))
            } else {
                None
            },
        }
    }
}

/// Whether the database text `raw` lists `package`.
pub fn db_is_installed(raw: &str, package: &str) -> (r: bool)
    ensures
        r == is_listed(raw@, package@),
{
    let es = db_list(raw);
    let name = String::from_str(package);
    let mut i: usize = 0;
    while i < es.len()
        invariant
            i <= es@.len(),
            es.deep_view() == listed(raw@),
            name@ == package@,
            forall|j: int| 0 <= j < i ==> listed(raw@)[j].0 != package@,
        decreases es@.len() - i,
    {
        proof {
            assert(es.deep_view()[i as int].0 == es@[i as int].0@);
        }
        if es[i].0 == name {
            proof {
                assert(listed(raw@)[i as int].0 == package@);
            }
            return true;
        }
        i = i + 1;
    }
    false
}

/// The version and source recorded for `package` (its first entry), if it is listed.
pub fn db_get_entry(raw: &str, package: &str) -> (r: Option<(String, String)>)
    ensures
        r.deep_view() == first_entry(listed(raw@), package@),
{
    let es = db_list(raw);
    let ghost ev = es.deep_view();
    let name = String::from_str(package);
    let mut i: usize = 0;
    while i < es.len()
        invariant
            i <= es@.len(),
            ev == es.deep_view(),
            ev == listed(raw@),
            name@ == package@,
            first_entry(ev.take(i as int), package@) is None,
        decreases es@.len() - i,
    {
        proof {
            assert(ev[i as int] == es@[i as int].deep_view());
            assert(ev.take(i + 1).drop_last() =~= ev.take(i as int));
        }
        if es[i].0 == name {
            proof {
                lemma_first_entry_prefix(ev, i as int + 1, package@);
            }
            return Some((es[i].1.clone(), es[i].2.clone()));
        }
        i = i + 1;
    }
    proof {
        assert(ev.take(i as int) =~= ev);
    }
    None
}

/// The first entry of a sequence is the first entry of any prefix that has one.
proof fn lemma_first_entry_prefix(es: Seq<(Seq<char>, Seq<char>, Seq<char>)>, k: int, name: Seq<char>)
    requires
        0 <= k <= es.len(),
        first_entry(es.take(k), name) is Some,
    ensures
        first_entry(es, name) == first_entry(es.take(k), name),
    decreases es.len() - k,
{
    if k < es.len() {
        assert(es.take(k + 1).drop_last() =~= es.take(k));
        lemma_first_entry_prefix(es, k + 1, name);
    } else {
        assert(es.take(k) =~= es);
    }
}

} // verus!

verus! {

// ---------------------------------------------------------------------------
// Facts about the database text
// ---------------------------------------------------------------------------

proof fn lemma_no_newline_push(x: Seq<char>, c: char)
    requires
        !crate::text::has_newline(x),
        c != '\n',
    ensures
        !crate::text::has_newline(x.push(c)),
{
    if x.push(c).contains('\n') {
        let i = choose|i: int| 0 <= i < x.push(c).len() && x.push(c)[i] == '\n';
        if i < x.len() {
            assert(x[i] == '\n');
        }
    }
}

proof fn lemma_no_newline_strip_cr(x: Seq<char>)
    requires
        !crate::text::has_newline(x),
    ensures
        !crate::text::has_newline(crate::text::strip_cr(x)),
{
    let y = crate::text::strip_cr(x);
    if y.contains('\n') {
        let i = choose|i: int| 0 <= i < y.len() && y[i] == '\n';
        assert(x[i] == '\n');
    }
}

proof fn lemma_scan_no_newline(st: (Seq<Seq<char>>, Seq<char>), s: Seq<char>)
    requires
        forall|i: int| 0 <= i < st.0.len() ==> !crate::text::has_newline(#[trigger] st.0[i]),
        !crate::text::has_newline(st.1),
    ensures
        forall|i: int| 0 <= i < crate::text::line_scan_from(st, s).0.len()
            ==> !crate::text::has_newline(#[trigger] crate::text::line_scan_from(st, s).0[i]),
        !crate::text::has_newline(crate::text::line_scan_from(st, s).1),
    decreases s.len(),
{
    if s.len() > 0 {
        lemma_scan_no_newline(st, s.drop_last());
        let prev = crate::text::line_scan_from(st, s.drop_last());
        if s.last() == '\n' {
            lemma_no_newline_strip_cr(prev.1);
            let d = prev.0.push(crate::text::strip_cr(prev.1));
            assert forall|i: int| 0 <= i < d.len() implies !crate::text::has_newline(#[trigger] d[i]) by {
                if i < prev.0.len() {
                    assert(d[i] == prev.0[i]);
                }
            }
            assert(!crate::text::has_newline(Seq::<char>::empty())) by {
                if Seq::<char>::empty().contains('\n') {
                    let i = choose|i: int| 0 <= i < Seq::<char>::empty().len() && Seq::<char>::empty()[i] == '\n';
                }
            }
        } else {
            lemma_no_newline_push(prev.1, s.last());
        }
    }
}

/// No line of a text holds a line break.
pub proof fn lemma_lines_no_newline(s: Seq<char>)
    ensures
        forall|i: int| 0 <= i < crate::text::lines(s).len() ==> !crate::text::has_newline(#[trigger] crate::text::lines(s)[i]),
{
    let init = (Seq::<Seq<char>>::empty(), Seq::<char>::empty());
    assert(!crate::text::has_newline(Seq::<char>::empty())) by {
        if Seq::<char>::empty().contains('\n') {
            let i = choose|i: int| 0 <= i < Seq::<char>::empty().len() && Seq::<char>::empty()[i] == '\n';
        }
    }
    lemma_scan_no_newline(init, s);
    let st = crate::text::line_scan(s);
    if st.1.len() > 0 {
        assert forall|i: int| 0 <= i < st.0.push(st.1).len() implies !crate::text::has_newline(#[trigger] st.0.push(st.1)[i]) by {
            if i < st.0.len() {
                assert(st.0.push(st.1)[i] == st.0[i]);
            }
        }
    }
}

/// Every kept line is a line of the input, holds no line break when the input lines hold
/// none, and does not start `name`'s header.
proof fn lemma_keep_scan_ok(ls: Seq<Seq<char>>, name: Seq<char>)
    requires
        forall|i: int| 0 <= i < ls.len() ==> !crate::text::has_newline(#[trigger] ls[i]),
    ensures
        forall|i: int| 0 <= i < keep_scan((seq![], false), ls, name).0.len() ==> {
            let x = #[trigger] keep_scan((seq![], false), ls, name).0[i];
            &&& !crate::text::has_newline(x)
            &&& !crate::text::starts_with(crate::text::trimmed(x), header_prefix(name))
            &&& ls.contains(x)
        },
    decreases ls.len(),
{
    if ls.len() > 0 {
        let p = ls.drop_last();
        assert forall|i: int| 0 <= i < p.len() implies !crate::text::has_newline(#[trigger] p[i]) by {
            assert(p[i] == ls[i]);
        }
        lemma_keep_scan_ok(p, name);
        let prev = keep_scan((seq![], false), p, name);
        let out = keep_scan((seq![], false), ls, name);
        assert forall|i: int| 0 <= i < out.0.len() implies {
            let x = #[trigger] out.0[i];
            &&& !crate::text::has_newline(x)
            &&& !crate::text::starts_with(crate::text::trimmed(x), header_prefix(name))
            &&& ls.contains(x)
        } by {
            if i < prev.0.len() {
                assert(out.0[i] == prev.0[i]);
                let x = prev.0[i];
                assert(p.contains(x));
                let j = choose|j: int| 0 <= j < p.len() && p[j] == x;
                assert(ls[j] == x);
            } else {
                assert(out.0[i] == ls.last());
                assert(ls[ls.len() - 1] == ls.last());
            }
        }
    }
}

/// Lines that do not start `name`'s header leave the file scan where it was.
proof fn lemma_files_scan_skip(acc: Seq<Seq<char>>, ls: Seq<Seq<char>>, name: Seq<char>)
    requires
        forall|i: int| 0 <= i < ls.len() ==> !crate::text::starts_with(crate::text::trimmed(#[trigger] ls[i]), header_prefix(name)),
    ensures
        files_scan((acc, false, false), ls, name) == (acc, false, false),
    decreases ls.len(),
{
    if ls.len() > 0 {
        let p = ls.drop_last();
        assert forall|i: int| 0 <= i < p.len() implies !crate::text::starts_with(crate::text::trimmed(#[trigger] p[i]), header_prefix(name)) by {
            assert(p[i] == ls[i]);
        }
        lemma_files_scan_skip(acc, p, name);
        assert(ls[ls.len() - 1] == ls.last());
    }
}

/// Reading two runs of lines in turn is reading them together.
pub proof fn lemma_files_scan_split(st: (Seq<Seq<char>>, bool, bool), a: Seq<Seq<char>>, b: Seq<Seq<char>>, name: Seq<char>)
    ensures
        files_scan(st, a + b, name) == files_scan(files_scan(st, a, name), b, name),
    decreases b.len(),
{
    if b.len() == 0 {
        assert(a + b =~= a);
    } else {
        assert((a + b).drop_last() =~= a + b.drop_last());
        assert((a + b).last() == b.last());
        lemma_files_scan_split(st, a, b.drop_last(), name);
    }
}

proof fn lemma_files_scan_strip(st: (Seq<Seq<char>>, bool, bool), ls: Seq<Seq<char>>, name: Seq<char>)
    ensures
        files_scan(st, crate::text::strip_all(ls), name) == files_scan(st, ls, name),
    decreases ls.len(),
{
    if ls.len() > 0 {
        let m = crate::text::strip_all(ls);
        assert(m.drop_last() =~= crate::text::strip_all(ls.drop_last()));
        lemma_files_scan_strip(st, ls.drop_last(), name);
        crate::text::lemma_trim_strip_cr(ls.last());
        assert(m.last() == crate::text::strip_cr(ls.last()));
    }
}

/// The entries of two runs of lines are those of each in turn.
pub proof fn lemma_entries_split(a: Seq<Seq<char>>, b: Seq<Seq<char>>)
    ensures
        db_entries(a + b) == db_entries(a) + db_entries(b),
    decreases b.len(),
{
    if b.len() == 0 {
        assert(a + b =~= a);
        assert(db_entries(a) + db_entries(b) =~= db_entries(a));
    } else {
        assert((a + b).drop_last() =~= a + b.drop_last());
        assert((a + b).last() == b.last());
        lemma_entries_split(a, b.drop_last());
        let t = crate::text::trimmed(b.last());
        if is_header(t) {
            assert(db_entries(a) + db_entries(b) =~= (db_entries(a) + db_entries(b.drop_last())).push(
                entry_of(t.subrange(1, t.len() - 1)),
            ));
        }
    }
}

proof fn lemma_entries_strip(ls: Seq<Seq<char>>)
    ensures
        db_entries(crate::text::strip_all(ls)) == db_entries(ls),
    decreases ls.len(),
{
    if ls.len() > 0 {
        let m = crate::text::strip_all(ls);
        assert(m.drop_last() =~= crate::text::strip_all(ls.drop_last()));
        lemma_entries_strip(ls.drop_last());
        crate::text::lemma_trim_strip_cr(ls.last());
        assert(m.last() == crate::text::strip_cr(ls.last()));
    }
}

/// The lines of a rewritten text are the kept lines (up to a trailing carriage return,
/// which trimming ignores).
proof fn lemma_removed_lines(raw: Seq<char>, name: Seq<char>)
    ensures
        crate::text::lines(removed_text(raw, name)) == crate::text::strip_all(kept_lines(raw, name)),
        forall|i: int| 0 <= i < kept_lines(raw, name).len() ==> {
            let x = #[trigger] kept_lines(raw, name)[i];
            &&& !crate::text::has_newline(x)
            &&& !crate::text::starts_with(crate::text::trimmed(x), header_prefix(name))
            &&& crate::text::lines(raw).contains(x)
        },
{
    lemma_lines_no_newline(raw);
    lemma_keep_scan_ok(crate::text::lines(raw), name);
    crate::text::lemma_lines_of_joined(kept_lines(raw, name));
}

} // verus!

verus! {

/// The trimmed, non-empty file lines, in order.
pub open spec fn clean_files(fs: Seq<Seq<char>>) -> Seq<Seq<char>>
    decreases fs.len(),
{
    if fs.len() == 0 {
        seq![]
    } else {
        let c = clean_files(fs.drop_last());
        let t = crate::text::trimmed(fs.last());
        if t.len() > 0 {
            c.push(t)
        } else {
            c
        }
    }
}

/// A record that the database text can hold as written: no field holds a line break, the
/// name holds no `=`, the version no `|`, and no file line starts a block.
pub open spec fn recordable(name: Seq<char>, version: Seq<char>, source: Seq<char>, files: Seq<Seq<char>>) -> bool {
    &&& !crate::text::has_newline(name)
    &&& !crate::text::has_newline(version)
    &&& !crate::text::has_newline(source)
    &&& !name.contains('=')
    &&& !version.contains('|')
    &&& forall|i: int| 0 <= i < files.len() ==> {
        &&& !crate::text::has_newline(#[trigger] files[i])
        &&& !opens_block(crate::text::trimmed(files[i]))
    }
}

/// `raw` has no line that is just `[name]` (a header with no version, which rewrites keep).
pub open spec fn no_bare_header(raw: Seq<char>, name: Seq<char>) -> bool {
    forall|i: int| 0 <= i < crate::text::lines(raw).len()
        ==> crate::text::trimmed(#[trigger] crate::text::lines(raw)[i]) != seq!['['] + name + seq![']']
}

proof fn lemma_stop_at(s: Seq<char>, stops: Seq<char>, m: int, k: int)
    requires
        0 <= m <= k < s.len(),
        stops.contains(s[k]),
        forall|j: int| m <= j < k ==> !stops.contains(#[trigger] s[j]),
    ensures
        crate::text::stop_from(s, stops, m) == k,
    decreases k - m,
{
    if m < k {
        lemma_stop_at(s, stops, m + 1, k);
    }
}

proof fn lemma_no_stop(s: Seq<char>, stops: Seq<char>, m: int)
    requires
        0 <= m <= s.len(),
        forall|j: int| m <= j < s.len() ==> !stops.contains(#[trigger] s[j]),
    ensures
        crate::text::stop_from(s, stops, m) == s.len(),
    decreases s.len() - m,
{
    if m < s.len() {
        lemma_no_stop(s, stops, m + 1);
    }
}

/// The header line of a recordable entry reads back as that entry.
proof fn lemma_header_line(name: Seq<char>, version: Seq<char>, source: Seq<char>)
    requires
        !name.contains('='),
        !version.contains('|'),
    ensures
        ({
            let h = header_line(name, version, source);
            &&& crate::text::trimmed(h) == h
            &&& crate::text::strip_cr(h) == h
            &&& is_header(h)
            &&& crate::text::starts_with(h, header_prefix(name))
            &&& entry_of(h.subrange(1, h.len() - 1)) == (name, version, source)
        }),
{
    let h = header_line(name, version, source);
    assert(h[0] == '[');
    assert(h.last() == ']');
    assert(!crate::text::is_space('['));
    assert(!crate::text::is_space(']'));
    assert(crate::text::trim_start(h) == h);
    assert(crate::text::trim_end(h) == h);
    assert(h.subrange(0, header_prefix(name).len() as int) =~= header_prefix(name));
    let inner = h.subrange(1, h.len() - 1);
    assert(inner =~= name + seq!['='] + version + seq!['|'] + source);
    let eq = seq!['='];
    let bar = seq!['|'];
    assert(eq.contains(inner[name.len() as int])) by {
        assert(eq[0] == '=');
    }
    assert forall|j: int| 0 <= j < name.len() implies !eq.contains(#[trigger] inner[j]) by {
        assert(inner[j] == name[j]);
        if eq.contains(inner[j]) {
            assert(name[j] == '=');
        }
    }
    lemma_stop_at(inner, eq, 0, name.len() as int);
    let rest = inner.skip(name.len() as int + 1);
    assert(rest =~= version + seq!['|'] + source);
    assert(bar.contains(rest[version.len() as int])) by {
        assert(bar[0] == '|');
    }
    assert forall|j: int| 0 <= j < version.len() implies !bar.contains(#[trigger] rest[j]) by {
        assert(rest[j] == version[j]);
        if bar.contains(rest[j]) {
            assert(version[j] == '|');
        }
    }
    lemma_stop_at(rest, bar, 0, version.len() as int);
    assert(inner.take(name.len() as int) =~= name);
    assert(rest.take(version.len() as int) =~= version);
    assert(rest.skip(version.len() as int + 1) =~= source);
}

/// A header line that does not start with `[name=` and is not `[name]` is not `name`'s.
proof fn lemma_entry_not_named(t: Seq<char>, name: Seq<char>)
    requires
        is_header(t),
        !crate::text::starts_with(t, header_prefix(name)),
        t != seq!['['] + name + seq![']'],
    ensures
        entry_of(t.subrange(1, t.len() - 1)).0 != name,
{
    let inner = t.subrange(1, t.len() - 1);
    let eq = seq!['='];
    crate::text::lemma_stop_from_bounds(inner, eq, 0);
    let k = crate::text::stop_from(inner, eq, 0);
    if entry_of(inner).0 == name {
        assert(inner.take(k) == name);
        if k < inner.len() {
            assert(eq.contains(inner[k]));
            assert(inner[k] == '=');
            assert(t.subrange(0, header_prefix(name).len() as int) =~= header_prefix(name)) by {
                assert forall|j: int| 0 <= j < header_prefix(name).len() implies t.subrange(0, header_prefix(name).len() as int)[j] == header_prefix(name)[j] by {
                    if j == 0 {
                    } else if j <= name.len() {
                        assert(inner[j - 1] == name[j - 1]);
                    } else {
                        assert(inner[k] == t[k + 1]);
                    }
                }
            }
        } else {
            assert(t =~= seq!['['] + name + seq![']']);
        }
    }
}

/// Inside a block, file lines that do not start a block are all collected.
proof fn lemma_files_scan_collect(acc: Seq<Seq<char>>, fs: Seq<Seq<char>>, name: Seq<char>)
    requires
        forall|i: int| 0 <= i < fs.len() ==> !opens_block(crate::text::trimmed(#[trigger] fs[i])),
    ensures
        files_scan((acc, true, false), fs, name) == (acc + clean_files(fs), true, false),
    decreases fs.len(),
{
    if fs.len() == 0 {
        assert(acc + clean_files(fs) =~= acc);
    } else {
        let p = fs.drop_last();
        assert forall|i: int| 0 <= i < p.len() implies !opens_block(crate::text::trimmed(#[trigger] p[i])) by {
            assert(p[i] == fs[i]);
        }
        lemma_files_scan_collect(acc, p, name);
        let t = crate::text::trimmed(fs.last());
        assert(fs[fs.len() - 1] == fs.last());
        assert(!crate::text::starts_with(t, header_prefix(name))) by {
            if crate::text::starts_with(t, header_prefix(name)) {
                assert(t.subrange(0, header_prefix(name).len() as int)[0] == '[');
            }
        }
        if t.len() > 0 {
            assert(acc + clean_files(fs) =~= (acc + clean_files(p)).push(t));
        }
    }
}

proof fn lemma_entries_files(fs: Seq<Seq<char>>)
    requires
        forall|i: int| 0 <= i < fs.len() ==> !opens_block(crate::text::trimmed(#[trigger] fs[i])),
    ensures
        db_entries(fs) == Seq::<(Seq<char>, Seq<char>, Seq<char>)>::empty(),
    decreases fs.len(),
{
    if fs.len() > 0 {
        let p = fs.drop_last();
        assert forall|i: int| 0 <= i < p.len() implies !opens_block(crate::text::trimmed(#[trigger] p[i])) by {
            assert(p[i] == fs[i]);
        }
        lemma_entries_files(p);
        assert(fs[fs.len() - 1] == fs.last());
    }
}

/// The lines of the text that `db_add` writes.
proof fn lemma_added_lines(raw: Seq<char>, name: Seq<char>, version: Seq<char>, source: Seq<char>, files: Seq<Seq<char>>)
    requires
        recordable(name, version, source, files),
    ensures
        crate::text::lines(added_text(raw, name, version, source, files))
            == crate::text::strip_all(kept_lines(raw, name))
            + seq![header_line(name, version, source)]
            + crate::text::strip_all(files)
            + seq![Seq::<char>::empty()],
{
    let k = kept_lines(raw, name);
    let h = header_line(name, version, source);
    let e = Seq::<char>::empty();
    let all = k + seq![h] + files + seq![e];
    lemma_removed_lines(raw, name);
    lemma_header_line_plain(name, version, source);
    assert forall|i: int| 0 <= i < all.len() implies !crate::text::has_newline(#[trigger] all[i]) by {
        if i < k.len() {
            assert(all[i] == k[i]);
        } else if i == k.len() {
            assert(all[i] == h);
        } else if i < k.len() + 1 + files.len() {
            assert(all[i] == files[i - k.len() - 1]);
        } else {
            assert(all[i] == e);
            if e.contains('\n') {
                let j = choose|j: int| 0 <= j < e.len() && e[j] == '\n';
            }
        }
    }
    crate::text::lemma_lines_of_joined(all);
    assert(crate::text::strip_cr(h) == h) by {
        assert(h.last() == ']');
    }
    assert(crate::text::strip_all(all) =~= crate::text::strip_all(k)
        + seq![h] + crate::text::strip_all(files) + seq![e]);
}

proof fn lemma_header_line_plain(name: Seq<char>, version: Seq<char>, source: Seq<char>)
    requires
        !crate::text::has_newline(name),
        !crate::text::has_newline(version),
        !crate::text::has_newline(source),
    ensures
        !crate::text::has_newline(header_line(name, version, source)),
{
    let h = header_line(name, version, source);
    if h.contains('\n') {
        let j = choose|j: int| 0 <= j < h.len() && h[j] == '\n';
        if j == 0 {
        } else if j <= name.len() {
            assert(name[j - 1] == '\n');
        } else if j == name.len() + 1 {
        } else if j <= name.len() + 1 + version.len() {
            assert(version[j - name.len() - 2] == '\n');
        } else if j == name.len() + 2 + version.len() {
        } else if j < h.len() - 1 {
            assert(source[j - name.len() - 3 - version.len()] == '\n');
        } else {
        }
    }
}

proof fn lemma_strip_files(files: Seq<Seq<char>>)
    requires
        forall|i: int| 0 <= i < files.len() ==> !opens_block(crate::text::trimmed(#[trigger] files[i])),
    ensures
        forall|i: int| 0 <= i < files.len() ==> !opens_block(
            crate::text::trimmed(#[trigger] crate::text::strip_all(files)[i]),
        ),
{
    assert forall|i: int| 0 <= i < files.len() implies !opens_block(
        crate::text::trimmed(#[trigger] crate::text::strip_all(files)[i]),
    ) by {
        crate::text::lemma_trim_strip_cr(files[i]);
    }
}

/// Law: after a package is removed, the database records no files for it.
pub proof fn law_remove_forgets_files(raw: Seq<char>, name: Seq<char>)
    ensures
        files_of(removed_text(raw, name), name) == Seq::<Seq<char>>::empty(),
{
    let k = kept_lines(raw, name);
    lemma_removed_lines(raw, name);
    lemma_files_scan_strip((seq![], false, false), k, name);
    lemma_files_scan_skip(seq![], k, name);
}

/// Law: after a package is removed, the database no longer lists it (unless it also held
/// a bare `[name]` line, which a removal keeps).
pub proof fn law_remove_unlists(raw: Seq<char>, name: Seq<char>)
    requires
        no_bare_header(raw, name),
    ensures
        !is_listed(removed_text(raw, name), name),
        forall|i: int| 0 <= i < listed(removed_text(raw, name)).len() ==> (#[trigger] listed(removed_text(raw, name))[i]).0 != name,
{
    let k = kept_lines(raw, name);
    lemma_removed_lines(raw, name);
    lemma_entries_strip(k);
    lemma_entries_named_apart(k, raw, name);
}

proof fn lemma_entries_named_apart(k: Seq<Seq<char>>, raw: Seq<char>, name: Seq<char>)
    requires
        no_bare_header(raw, name),
        forall|i: int| 0 <= i < k.len() ==> {
            let x = #[trigger] k[i];
            &&& !crate::text::starts_with(crate::text::trimmed(x), header_prefix(name))
            &&& crate::text::lines(raw).contains(x)
        },
    ensures
        forall|i: int| 0 <= i < db_entries(k).len() ==> (#[trigger] db_entries(k)[i]).0 != name,
    decreases k.len(),
{
    if k.len() > 0 {
        let p = k.drop_last();
        assert forall|i: int| 0 <= i < p.len() implies {
            let x = #[trigger] p[i];
            &&& !crate::text::starts_with(crate::text::trimmed(x), header_prefix(name))
            &&& crate::text::lines(raw).contains(x)
        } by {
            assert(p[i] == k[i]);
        }
        lemma_entries_named_apart(p, raw, name);
        let x = k.last();
        assert(k[k.len() - 1] == x);
        let t = crate::text::trimmed(x);
        if is_header(t) {
            let j = choose|j: int| 0 <= j < crate::text::lines(raw).len() && crate::text::lines(raw)[j] == x;
            assert(t != seq!['['] + name + seq![']']);
            lemma_entry_not_named(t, name);
        }
        assert forall|i: int| 0 <= i < db_entries(k).len() implies (#[trigger] db_entries(k)[i]).0 != name by {
            if i < db_entries(p).len() {
                assert(db_entries(k)[i] == db_entries(p)[i]);
            }
        }
    }
}

/// Law: after a package is added, the database lists the entries it listed without that
/// package, followed by the new entry.
pub proof fn law_add_lists(raw: Seq<char>, name: Seq<char>, version: Seq<char>, source: Seq<char>, files: Seq<Seq<char>>)
    requires
        recordable(name, version, source, files),
    ensures
        listed(added_text(raw, name, version, source, files)) == listed(removed_text(raw, name)).push((name, version, source)),
{
    let k = kept_lines(raw, name);
    let h = header_line(name, version, source);
    let e = Seq::<char>::empty();
    let km = crate::text::strip_all(k);
    let fm = crate::text::strip_all(files);
    lemma_added_lines(raw, name, version, source, files);
    lemma_removed_lines(raw, name);
    lemma_header_line(name, version, source);
    lemma_entries_split(km + seq![h] + fm, seq![e]);
    lemma_entries_split(km + seq![h], fm);
    lemma_entries_split(km, seq![h]);
    lemma_strip_files(files);
    lemma_entries_files(fm);
    assert(seq![h].drop_last() =~= Seq::<Seq<char>>::empty());
    assert(seq![e].drop_last() =~= Seq::<Seq<char>>::empty());
    assert(crate::text::trimmed(e) =~= e);
    assert(seq![h].last() == h);
    assert(db_entries(seq![h].drop_last()) == Seq::<(Seq<char>, Seq<char>, Seq<char>)>::empty());
    assert(db_entries(seq![h]) =~= seq![(name, version, source)]);
    assert(db_entries(seq![e]) =~= Seq::<(Seq<char>, Seq<char>, Seq<char>)>::empty());
    assert(listed(added_text(raw, name, version, source, files)) =~= listed(removed_text(raw, name)).push((name, version, source)));
}

/// Law: after a package is added, the database records exactly its (trimmed, non-empty)
/// file lines for it.
pub proof fn law_add_records_files(raw: Seq<char>, name: Seq<char>, version: Seq<char>, source: Seq<char>, files: Seq<Seq<char>>)
    requires
        recordable(name, version, source, files),
    ensures
        files_of(added_text(raw, name, version, source, files), name) == clean_files(files),
{
    let k = kept_lines(raw, name);
    let h = header_line(name, version, source);
    let e = Seq::<char>::empty();
    let km = crate::text::strip_all(k);
    let fm = crate::text::strip_all(files);
    let init = (Seq::<Seq<char>>::empty(), false, false);
    lemma_added_lines(raw, name, version, source, files);
    lemma_removed_lines(raw, name);
    lemma_header_line(name, version, source);
    lemma_files_scan_split(init, km + seq![h] + fm, seq![e], name);
    lemma_files_scan_split(init, km + seq![h], fm, name);
    lemma_files_scan_split(init, km, seq![h], name);
    lemma_files_scan_strip(init, k, name);
    lemma_files_scan_skip(seq![], k, name);
    assert(seq![h].drop_last() =~= Seq::<Seq<char>>::empty());
    assert(seq![h].last() == h);
    assert(files_scan(init, seq![h].drop_last(), name) == init);
    assert(files_scan(init, seq![h], name) == (Seq::<Seq<char>>::empty(), true, false));
    lemma_strip_files(files);
    lemma_files_scan_collect(seq![], fm, name);
    lemma_files_scan_strip((seq![], true, false), files, name);
    lemma_files_scan_collect(seq![], files, name);
    assert(Seq::<Seq<char>>::empty() + clean_files(files) =~= clean_files(files));
    assert(seq![e].drop_last() =~= Seq::<Seq<char>>::empty());
    assert(crate::text::trimmed(e) =~= e);
    assert(!crate::text::starts_with(e, header_prefix(name)));
    assert(files_scan(init, km, name) == init);
    assert(files_scan(init, km + seq![h], name) == (Seq::<Seq<char>>::empty(), true, false));
    let st = (clean_files(files), true, false);
    assert(files_scan(init, km + seq![h] + fm, name) == st);
    assert(seq![e].last() == e);
    assert(files_scan(st, seq![e].drop_last(), name) == st);
    assert(files_scan(st, seq![e], name) == st);
}

/// Law: after a package is added, looking it up gives the version and source just written
/// (given no bare `[name]` line in the old text).
pub proof fn law_add_then_lookup(raw: Seq<char>, name: Seq<char>, version: Seq<char>, source: Seq<char>, files: Seq<Seq<char>>)
    requires
        recordable(name, version, source, files),
        no_bare_header(raw, name),
    ensures
        is_listed(added_text(raw, name, version, source, files), name),
        first_entry(listed(added_text(raw, name, version, source, files)), name) == Some((version, source)),
{
    law_add_lists(raw, name, version, source, files);
    law_remove_unlists(raw, name);
    let r = listed(removed_text(raw, name));
    let a = listed(added_text(raw, name, version, source, files));
    assert(a[r.len() as int] == (name, version, source));
    lemma_first_entry_none(r, name);
    assert(a.drop_last() =~= r);
}

proof fn lemma_first_entry_none(es: Seq<(Seq<char>, Seq<char>, Seq<char>)>, name: Seq<char>)
    requires
        forall|i: int| 0 <= i < es.len() ==> (#[trigger] es[i]).0 != name,
    ensures
        first_entry(es, name) is None,
    decreases es.len(),
{
    if es.len() > 0 {
        assert forall|i: int| 0 <= i < es.drop_last().len() implies (#[trigger] es.drop_last()[i]).0 != name by {
            assert(es.drop_last()[i] == es[i]);
        }
        lemma_first_entry_none(es.drop_last(), name);
        assert(es[es.len() - 1] == es.last());
    }
}

} // verus!

verus! {

/// The entries of `es` whose name is not `name`, in order.
pub open spec fn without_name(es: Seq<(Seq<char>, Seq<char>, Seq<char>)>, name: Seq<char>) -> Seq<(Seq<char>, Seq<char>, Seq<char>)>
    decreases es.len(),
{
    if es.len() == 0 {
        seq![]
    } else if es.last().0 == name {
        without_name(es.drop_last(), name)
    } else {
        without_name(es.drop_last(), name).push(es.last())
    }
}

/// A header line that starts with `[name=` holds the entry of `name` (a name without `=`).
proof fn lemma_entry_named(t: Seq<char>, name: Seq<char>)
    requires
        is_header(t),
        crate::text::starts_with(t, header_prefix(name)),
        !name.contains('='),
    ensures
        entry_of(t.subrange(1, t.len() - 1)).0 == name,
{
    let inner = t.subrange(1, t.len() - 1);
    let eq = seq!['='];
    let hp = header_prefix(name);
    assert(t.subrange(0, hp.len() as int) == hp);
    assert(t.len() > name.len() + 2) by {
        // `t` ends with `]` where `[name=` has its `=`.
        if t.len() == name.len() + 2 {
            assert(t[name.len() as int + 1] == hp[name.len() as int + 1]);
        }
    }
    assert forall|j: int| 0 <= j < name.len() implies !eq.contains(#[trigger] inner[j]) by {
        assert(inner[j] == t[j + 1]);
        assert(t[j + 1] == hp[j + 1]);
        assert(hp[j + 1] == name[j]);
        if eq.contains(inner[j]) {
            assert(eq[0] == '=');
            assert(name.contains('='));
        }
    }
    assert(inner[name.len() as int] == '=') by {
        assert(inner[name.len() as int] == t[name.len() as int + 1]);
        assert(t[name.len() as int + 1] == hp[name.len() as int + 1]);
    }
    assert(eq.contains(inner[name.len() as int])) by {
        assert(eq[0] == '=');
    }
    lemma_stop_at(inner, eq, 0, name.len() as int);
    assert forall|j: int| 0 <= j < name.len() implies inner.take(name.len() as int)[j] == name[j] by {
        assert(inner[j] == t[j + 1]);
        assert(t[j + 1] == hp[j + 1]);
    }
    assert(inner.take(name.len() as int) =~= name);
}

proof fn lemma_keep_entries(ls: Seq<Seq<char>>, name: Seq<char>)
    requires
        !name.contains('='),
        forall|i: int| 0 <= i < ls.len() ==> crate::text::trimmed(#[trigger] ls[i]) != seq!['['] + name + seq![']'],
    ensures
        db_entries(keep_scan((seq![], false), ls, name).0) == without_name(db_entries(ls), name),
    decreases ls.len(),
{
    if ls.len() > 0 {
        let init = ls.drop_last();
        assert forall|i: int| 0 <= i < init.len() implies crate::text::trimmed(#[trigger] init[i]) != seq!['['] + name + seq![']'] by {
            assert(init[i] == ls[i]);
        }
        lemma_keep_entries(init, name);
        let l = ls.last();
        assert(ls[ls.len() - 1] == l);
        let t = crate::text::trimmed(l);
        let prev = keep_scan((seq![], false), init, name);
        let e0 = db_entries(init);
        assert(ls.drop_last() == init);
        if is_header(t) {
            let x = entry_of(t.subrange(1, t.len() - 1));
            assert(db_entries(ls) == e0.push(x));
            assert(e0.push(x).drop_last() =~= e0);
            assert(e0.push(x).last() == x);
        } else {
            assert(db_entries(ls) == e0);
        }
        if crate::text::starts_with(t, header_prefix(name)) {
            if is_header(t) {
                lemma_entry_named(t, name);
            }
        } else if prev.1 && !opens_block(t) {
        } else {
            assert(prev.0.push(l).drop_last() =~= prev.0);
            assert(prev.0.push(l).last() == l);
            if is_header(t) {
                lemma_entry_not_named(t, name);
            }
        }
    }
}

/// Law: removing a package keeps every other package's entry, in order (for a name
/// without `=` and a text with no bare `[name]` line).
pub proof fn law_remove_keeps_others(raw: Seq<char>, name: Seq<char>)
    requires
        !name.contains('='),
        no_bare_header(raw, name),
    ensures
        listed(removed_text(raw, name)) == without_name(listed(raw), name),
{
    lemma_removed_lines(raw, name);
    lemma_entries_strip(kept_lines(raw, name));
    lemma_keep_entries(crate::text::lines(raw), name);
}

} // verus!

verus! {

proof fn lemma_first_entry_some(es: Seq<(Seq<char>, Seq<char>, Seq<char>)>, name: Seq<char>)
    ensures
        (exists|i: int| 0 <= i < es.len() && (#[trigger] es[i]).0 == name) <==> first_entry(es, name) is Some,
    decreases es.len(),
{
    if es.len() > 0 {
        let init = es.drop_last();
        lemma_first_entry_some(init, name);
        if exists|i: int| 0 <= i < init.len() && (#[trigger] init[i]).0 == name {
            let i = choose|i: int| 0 <= i < init.len() && (#[trigger] init[i]).0 == name;
            assert(es[i] == init[i]);
        }
        if exists|i: int| 0 <= i < es.len() && (#[trigger] es[i]).0 == name {
            let i = choose|i: int| 0 <= i < es.len() && (#[trigger] es[i]).0 == name;
            if i < init.len() {
                assert(init[i] == es[i]);
            } else {
                assert(es.last() == es[i]);
            }
        }
        if first_entry(es, name) is Some && first_entry(init, name) is None {
            assert(es[es.len() - 1] == es.last());
        }
    }
}

/// Law: the database lists a package exactly when looking it up finds an entry, so
/// `db_is_installed` and `db_get_entry` agree.
pub proof fn law_listed_iff_entry(raw: Seq<char>, name: Seq<char>)
    ensures
        is_listed(raw, name) <==> first_entry(listed(raw), name) is Some,
{
    lemma_first_entry_some(listed(raw), name);
}

} // verus!

verus! {

/// After an addition to a text without a bare `[name]` line, the new text has none either.
proof fn lemma_added_no_bare_header(raw: Seq<char>, name: Seq<char>, version: Seq<char>, source: Seq<char>, files: Seq<Seq<char>>)
    requires
        recordable(name, version, source, files),
        no_bare_header(raw, name),
    ensures
        no_bare_header(added_text(raw, name, version, source, files), name),
{
    let k = kept_lines(raw, name);
    let h = header_line(name, version, source);
    let e = Seq::<char>::empty();
    let km = crate::text::strip_all(k);
    let fm = crate::text::strip_all(files);
    let all = km + seq![h] + fm + seq![e];
    let bare = seq!['['] + name + seq![']'];
    lemma_added_lines(raw, name, version, source, files);
    lemma_removed_lines(raw, name);
    lemma_header_line(name, version, source);
    lemma_strip_files(files);
    assert forall|i: int| 0 <= i < all.len() implies crate::text::trimmed(#[trigger] all[i]) != bare by {
        if i < km.len() {
            assert(all[i] == km[i]);
            crate::text::lemma_trim_strip_cr(k[i]);
            assert(crate::text::lines(raw).contains(k[i]));
            let j = choose|j: int| 0 <= j < crate::text::lines(raw).len() && crate::text::lines(raw)[j] == k[i];
            assert(crate::text::trimmed(crate::text::lines(raw)[j]) != bare);
        } else if i == km.len() {
            assert(all[i] == h);
            if h == bare {
                assert(h[name.len() as int + 1] == '=');
                assert(bare[name.len() as int + 1] == ']');
            }
        } else if i < km.len() + 1 + fm.len() {
            let f = fm[i - km.len() - 1];
            assert(all[i] == f);
            assert(!opens_block(crate::text::trimmed(f)));
            assert(bare[0] == '[');
        } else {
            assert(all[i] == e);
            assert(crate::text::trimmed(e) =~= e);
        }
    }
}

/// Law: adding a package and then removing it leaves the database listing exactly what a
/// removal from the original text lists, and with no files recorded for the package.
pub proof fn law_add_then_remove(raw: Seq<char>, name: Seq<char>, version: Seq<char>, source: Seq<char>, files: Seq<Seq<char>>)
    requires
        recordable(name, version, source, files),
        no_bare_header(raw, name),
    ensures
        listed(removed_text(added_text(raw, name, version, source, files), name)) == listed(removed_text(raw, name)),
        files_of(removed_text(added_text(raw, name, version, source, files), name), name) == Seq::<Seq<char>>::empty(),
{
    let a = added_text(raw, name, version, source, files);
    let r = listed(removed_text(raw, name));
    lemma_added_no_bare_header(raw, name, version, source, files);
    law_remove_keeps_others(a, name);
    law_add_lists(raw, name, version, source, files);
    law_remove_unlists(raw, name);
    law_remove_forgets_files(a, name);
    lemma_without_absent(r, name);
    assert(r.push((name, version, source)).drop_last() =~= r);
    assert(r.push((name, version, source)).last() == (name, version, source));
}

proof fn lemma_without_absent(es: Seq<(Seq<char>, Seq<char>, Seq<char>)>, name: Seq<char>)
    requires
        forall|i: int| 0 <= i < es.len() ==> (#[trigger] es[i]).0 != name,
    ensures
        without_name(es, name) == es,
    decreases es.len(),
{
    if es.len() > 0 {
        assert forall|i: int| 0 <= i < es.drop_last().len() implies (#[trigger] es.drop_last()[i]).0 != name by {
            assert(es.drop_last()[i] == es[i]);
        }
        lemma_without_absent(es.drop_last(), name);
        assert(es[es.len() - 1] == es.last());
        assert(es.drop_last().push(es.last()) =~= es);
    }
}

} // verus!

verus! {

/// No line of `raw` outside `name`'s block ends in a carriage return that is not part of
/// a `\r\n` line break (a rewrite would drop it).
pub open spec fn no_stray_cr_outside(raw: Seq<char>, name: Seq<char>) -> bool {
    forall|i: int| 0 <= i < kept_lines(raw, name).len()
        ==> crate::text::strip_cr(#[trigger] kept_lines(raw, name)[i]) == kept_lines(raw, name)[i]
}

proof fn lemma_keep_scan_split(st: (Seq<Seq<char>>, bool), a: Seq<Seq<char>>, b: Seq<Seq<char>>, name: Seq<char>)
    ensures
        keep_scan(st, a + b, name) == keep_scan(keep_scan(st, a, name), b, name),
    decreases b.len(),
{
    if b.len() == 0 {
        assert(a + b =~= a);
    } else {
        assert((a + b).drop_last() =~= a + b.drop_last());
        assert((a + b).last() == b.last());
        lemma_keep_scan_split(st, a, b.drop_last(), name);
    }
}

proof fn lemma_keep_all(ls: Seq<Seq<char>>, name: Seq<char>)
    requires
        forall|i: int| 0 <= i < ls.len() ==> !crate::text::starts_with(crate::text::trimmed(#[trigger] ls[i]), header_prefix(name)),
    ensures
        keep_scan((seq![], false), ls, name) == (ls, false),
    decreases ls.len(),
{
    if ls.len() > 0 {
        let init = ls.drop_last();
        assert forall|i: int| 0 <= i < init.len() implies !crate::text::starts_with(crate::text::trimmed(#[trigger] init[i]), header_prefix(name)) by {
            assert(init[i] == ls[i]);
        }
        lemma_keep_all(init, name);
        assert(ls[ls.len() - 1] == ls.last());
        assert(init.push(ls.last()) =~= ls);
    }
}

proof fn lemma_skip_rest(acc: Seq<Seq<char>>, ls: Seq<Seq<char>>, name: Seq<char>)
    requires
        forall|i: int| 0 <= i < ls.len() ==> !opens_block(crate::text::trimmed(#[trigger] ls[i])),
    ensures
        keep_scan((acc, true), ls, name) == (acc, true),
    decreases ls.len(),
{
    if ls.len() > 0 {
        let init = ls.drop_last();
        assert forall|i: int| 0 <= i < init.len() implies !opens_block(crate::text::trimmed(#[trigger] init[i])) by {
            assert(init[i] == ls[i]);
        }
        lemma_skip_rest(acc, init, name);
        assert(ls[ls.len() - 1] == ls.last());
        let t = crate::text::trimmed(ls.last());
        assert(!opens_block(t));
        if crate::text::starts_with(t, header_prefix(name)) {
            assert(t.subrange(0, header_prefix(name).len() as int)[0] == t[0]);
            assert(header_prefix(name)[0] == '[');
        }
    }
}

/// Law: adding a package twice over gives the text of adding it once (for a text whose
/// lines outside the package's block end in no stray carriage return, which a rewrite
/// would drop).
pub proof fn law_add_twice(raw: Seq<char>, name: Seq<char>, version: Seq<char>, source: Seq<char>, files: Seq<Seq<char>>)
    requires
        recordable(name, version, source, files),
        no_stray_cr_outside(raw, name),
    ensures
        added_text(added_text(raw, name, version, source, files), name, version, source, files)
            == added_text(raw, name, version, source, files),
{
    let k = kept_lines(raw, name);
    let h = header_line(name, version, source);
    let e = Seq::<char>::empty();
    let fm = crate::text::strip_all(files);
    let a = added_text(raw, name, version, source, files);
    lemma_added_lines(raw, name, version, source, files);
    lemma_removed_lines(raw, name);
    lemma_header_line(name, version, source);
    lemma_strip_files(files);
    assert(crate::text::strip_all(k) =~= k) by {
        assert forall|i: int| 0 <= i < k.len() implies #[trigger] crate::text::strip_all(k)[i] == k[i] by {
            assert(crate::text::strip_cr(k[i]) == k[i]);
        }
    }
    let ls = k + seq![h] + fm + seq![e];
    assert(crate::text::lines(a) == ls);
    lemma_keep_all(k, name);
    lemma_keep_scan_split((seq![], false), k + seq![h] + fm, seq![e], name);
    lemma_keep_scan_split((seq![], false), k + seq![h], fm, name);
    lemma_keep_scan_split((seq![], false), k, seq![h], name);
    assert(seq![h].drop_last() =~= Seq::<Seq<char>>::empty());
    assert(seq![h].last() == h);
    assert(keep_scan((k, false), seq![h].drop_last(), name) == (k, false));
    assert(crate::text::trimmed(h) == h);
    assert(keep_step((k, false), h, name) == (k, true));
    assert(keep_scan((k, false), seq![h], name) == (k, true));
    assert(crate::text::trimmed(e) =~= e);
    assert forall|i: int| 0 <= i < (fm + seq![e]).len() implies !opens_block(crate::text::trimmed(#[trigger] (fm + seq![e])[i])) by {
        if i < fm.len() {
            assert((fm + seq![e])[i] == fm[i]);
        } else {
            assert((fm + seq![e])[i] == e);
        }
    }
    lemma_skip_rest(k, fm, name);
    lemma_skip_rest(k, seq![e], name);
    assert(kept_lines(a, name) == k);
}

} // verus!
