//! Character-level text handling: the specifications of the string operations the
//! package manager relies on (trimming, line splitting, searching), and verified
//! executable versions working on `char` slices.
use vstd::prelude::*;

verus! {

// ---------------------------------------------------------------------------
// Conversions between strings and character vectors
// ---------------------------------------------------------------------------

/// Appends one character to a `String` (std's `String::push`, for which vstd gives
/// no specification). Claimed: the new contents are the old ones followed by `c`.
#[verifier::external_body]
fn string_push(s: &mut String, c: char)
    ensures
        final(s)@ == old(s)@.push(c),
{
    s.push(c);
}

/// The characters of a string slice, in order.
pub fn chars_of(s: &str) -> (out: Vec<char>)
    ensures
        out@ == s@,
{
    let mut out: Vec<char> = Vec::new();
    for c in it: s.chars()
        invariant
            out@ == it.seq().take(it.index() as int),
            it.seq() == s@,
    {
        out.push(c);
    }
    out
}

/// A `String` holding the given characters.
pub fn string_of(cs: &[char]) -> (out: String)
    ensures
        out@ == cs@,
{
    let mut out = String::new();
    let mut i: usize = 0;
    while i < cs.len()
        invariant
            i <= cs@.len(),
            out@ == cs@.take(i as int),
        decreases cs@.len() - i,
    {
        string_push(&mut out, cs[i]);
        assert(cs@.take(i + 1) == cs@.take(i as int).push(cs@[i as int]));
        i = i + 1;
    }
    assert(cs@.take(cs@.len() as int) == cs@);
    out
}

/// The characters `s[from..to]` as a new vector.
pub fn copy_range(s: &[char], from: usize, to: usize) -> (out: Vec<char>)
    requires
        from <= to <= s@.len(),
    ensures
        out@ == s@.subrange(from as int, to as int),
{
    let mut out: Vec<char> = Vec::new();
    let mut i: usize = from;
    while i < to
        invariant
            from <= i <= to <= s@.len(),
            out@ == s@.subrange(from as int, i as int),
        decreases to - i,
    {
        out.push(s[i]);
        assert(s@.subrange(from as int, i + 1) == s@.subrange(from as int, i as int).push(s@[i as int]));
        i = i + 1;
    }
    out
}

/// Appends all of `t` to `out`.
pub fn push_all(out: &mut Vec<char>, t: &[char])
    ensures
        final(out)@ == old(out)@ + t@,
{
    let mut i: usize = 0;
    while i < t.len()
        invariant
            i <= t@.len(),
            out@ == old(out)@ + t@.take(i as int),
        decreases t@.len() - i,
    {
        out.push(t[i]);
        assert(t@.take(i + 1) == t@.take(i as int).push(t@[i as int]));
        i = i + 1;
    }
    assert(t@.take(t@.len() as int) == t@);
}

/// Whether two character sequences are equal.
pub fn same_chars(a: &[char], b: &[char]) -> (r: bool)
    ensures
        r == (a@ == b@),
{
    if a.len() != b.len() {
        return false;
    }
    let mut i: usize = 0;
    while i < a.len()
        invariant
            a@.len() == b@.len(),
            i <= a@.len(),
            forall|j: int| 0 <= j < i ==> a@[j] == b@[j],
        decreases a@.len() - i,
    {
        if a[i] != b[i] {
            return false;
        }
        i = i + 1;
    }
    assert(a@ =~= b@);
    true
}

// ---------------------------------------------------------------------------
// White space and trimming
// ---------------------------------------------------------------------------

/// Unicode `White_Space`, the set that `char::is_whitespace` and `str::trim` use.
pub open spec fn is_space(c: char) -> bool {
    ||| ('\u{9}' <= c && c <= '\u{d}')
    ||| c == ' '
    ||| c == '\u{85}'
    ||| c == '\u{a0}'
    ||| c == '\u{1680}'
    ||| ('\u{2000}' <= c && c <= '\u{200a}')
    ||| c == '\u{2028}'
    ||| c == '\u{2029}'
    ||| c == '\u{202f}'
    ||| c == '\u{205f}'
    ||| c == '\u{3000}'
}

/// `char::is_whitespace`.
pub fn is_space_char(c: char) -> (b: bool)
    ensures
        b == is_space(c),
{
    ('\u{9}' <= c && c <= '\u{d}') || c == ' ' || c == '\u{85}' || c == '\u{a0}' || c
        == '\u{1680}' || ('\u{2000}' <= c && c <= '\u{200a}') || c == '\u{2028}' || c
        == '\u{2029}' || c == '\u{202f}' || c == '\u{205f}' || c == '\u{3000}'
}

/// `s` without its leading white space.
pub open spec fn trim_start(s: Seq<char>) -> Seq<char>
    decreases s.len(),
{
    if s.len() > 0 && is_space(s[0]) {
        trim_start(s.drop_first())
    } else {
        s
    }
}

/// `s` without its trailing white space.
pub open spec fn trim_end(s: Seq<char>) -> Seq<char>
    decreases s.len(),
{
    if s.len() > 0 && is_space(s.last()) {
        trim_end(s.drop_last())
    } else {
        s
    }
}

/// `s` without leading and trailing white space (`str::trim`).
pub open spec fn trimmed(s: Seq<char>) -> Seq<char> {
    trim_end(trim_start(s))
}

/// `str::trim` on a character slice.
pub fn trim_chars(s: &[char]) -> (out: Vec<char>)
    ensures
        out@ == trimmed(s@),
{
    let n = s.len();
    let mut a: usize = 0;
    assert(s@.skip(0) =~= s@);
    while a < n
        invariant
            a <= n == s@.len(),
            trim_start(s@) == trim_start(s@.skip(a as int)),
        ensures
            a <= n,
            trim_start(s@) == s@.skip(a as int),
        decreases n - a,
    {
        if !is_space_char(s[a]) {
            break;
        }
        assert(s@.skip(a as int).drop_first() =~= s@.skip(a + 1));
        a = a + 1;
    }
    let mut b: usize = n;
    while b > a
        invariant
            a <= b <= n == s@.len(),
            trim_end(s@.skip(a as int)) == trim_end(s@.subrange(a as int, b as int)),
        ensures
            a <= b <= n,
            trim_end(s@.skip(a as int)) == s@.subrange(a as int, b as int),
        decreases b - a,
    {
        if !is_space_char(s[b - 1]) {
            break;
        }
        assert(s@.subrange(a as int, b as int).drop_last() =~= s@.subrange(a as int, b - 1));
        b = b - 1;
    }
    copy_range(s, a, b)
}

// ---------------------------------------------------------------------------
// Prefixes, suffixes and searching
// ---------------------------------------------------------------------------

/// `s` begins with `p`.
pub open spec fn starts_with(s: Seq<char>, p: Seq<char>) -> bool {
    p.len() <= s.len() && s.subrange(0, p.len() as int) == p
}

/// `s` ends with `p`.
pub open spec fn ends_with(s: Seq<char>, p: Seq<char>) -> bool {
    p.len() <= s.len() && s.subrange(s.len() - p.len(), s.len() as int) == p
}

/// `t` occurs in `s` at position `i`.
pub open spec fn occurs_at(s: Seq<char>, t: Seq<char>, i: int) -> bool {
    0 <= i && i + t.len() <= s.len() && s.subrange(i, i + t.len()) == t
}

/// `t` occurs somewhere in `s` (`str::contains`).
pub open spec fn contains_seq(s: Seq<char>, t: Seq<char>) -> bool {
    exists|i: int| occurs_at(s, t, i)
}

/// The first position at or after `k` where `t` occurs in `s` (`str::find`).
pub open spec fn find_from(s: Seq<char>, t: Seq<char>, k: int) -> Option<int>
    decreases s.len() + 1 - k,
{
    if k < 0 || k + t.len() > s.len() {
        None
    } else if s.subrange(k, k + t.len()) == t {
        Some(k)
    } else {
        find_from(s, t, k + 1)
    }
}

/// The first position where `t` occurs in `s`.
pub open spec fn find_seq(s: Seq<char>, t: Seq<char>) -> Option<int> {
    find_from(s, t, 0)
}

/// The first position at or after `k` of a character of `stops` in `s`, or `s.len()`.
pub open spec fn stop_from(s: Seq<char>, stops: Seq<char>, k: int) -> int
    decreases s.len() - k,
{
    if k < 0 || k >= s.len() {
        s.len() as int
    } else if stops.contains(s[k]) {
        k
    } else {
        stop_from(s, stops, k + 1)
    }
}

/// The part of `s` before its first character from `stops` (all of `s` if none occurs):
/// the first item of `str::split` with a character set, or of `splitn(2, c)`.
pub open spec fn before_stop(s: Seq<char>, stops: Seq<char>) -> Seq<char> {
    s.take(stop_from(s, stops, 0))
}

/// The part of `s` after its first character from `stops`, if one occurs.
pub open spec fn after_stop(s: Seq<char>, stops: Seq<char>) -> Option<Seq<char>> {
    let k = stop_from(s, stops, 0);
    if k < s.len() {
        Some(s.skip(k + 1))
    } else {
        None
    }
}

/// Where `stop_from` stops: in range, at a stop character unless at the end, with no
/// stop character before it.
pub proof fn lemma_stop_from_bounds(s: Seq<char>, stops: Seq<char>, k: int)
    requires
        0 <= k <= s.len(),
    ensures
        k <= stop_from(s, stops, k) <= s.len(),
        stop_from(s, stops, k) < s.len() ==> stops.contains(s[stop_from(s, stops, k)]),
        forall|j: int| k <= j < stop_from(s, stops, k) ==> !stops.contains(#[trigger] s[j]),
    decreases s.len() - k,
{
    if k < s.len() && !stops.contains(s[k]) {
        lemma_stop_from_bounds(s, stops, k + 1);
    }
}

/// Whether `c` is one of `stops`.
pub fn is_one_of(c: char, stops: &[char]) -> (r: bool)
    ensures
        r == stops@.contains(c),
{
    let mut i: usize = 0;
    while i < stops.len()
        invariant
            i <= stops@.len(),
            forall|j: int| 0 <= j < i ==> stops@[j] != c,
        decreases stops@.len() - i,
    {
        if stops[i] == c {
            return true;
        }
        i = i + 1;
    }
    false
}

/// The position of the first character of `stops` in `s`, or `s.len()`.
pub fn stop_index(s: &[char], stops: &[char]) -> (k: usize)
    ensures
        k == stop_from(s@, stops@, 0),
        k <= s@.len(),
{
    let mut k: usize = 0;
    while k < s.len()
        invariant
            k <= s@.len(),
            stop_from(s@, stops@, 0) == stop_from(s@, stops@, k as int),
        decreases s@.len() - k,
    {
        if is_one_of(s[k], stops) {
            return k;
        }
        k = k + 1;
    }
    k
}

/// Whether `s` begins with `p`.
pub fn has_prefix(s: &[char], p: &[char]) -> (r: bool)
    ensures
        r == starts_with(s@, p@),
{
    if p.len() > s.len() {
        return false;
    }
    let mut i: usize = 0;
    while i < p.len()
        invariant
            p@.len() <= s@.len(),
            i <= p@.len(),
            forall|j: int| 0 <= j < i ==> s@[j] == p@[j],
        decreases p@.len() - i,
    {
        if s[i] != p[i] {
            assert(s@.subrange(0, p@.len() as int)[i as int] != p@[i as int]);
            return false;
        }
        i = i + 1;
    }
    assert(s@.subrange(0, p@.len() as int) =~= p@);
    true
}

/// Whether `t` occurs in `s` at position `i`.
pub fn occurs_at_exec(s: &[char], t: &[char], i: usize) -> (r: bool)
    ensures
        r == (i + t@.len() <= s@.len() && s@.subrange(i as int, i + t@.len()) == t@),
{
    if i > s.len() || t.len() > s.len() - i {
        return false;
    }
    let mut j: usize = 0;
    while j < t.len()
        invariant
            i + t@.len() <= s@.len(),
            j <= t@.len(),
            forall|m: int| 0 <= m < j ==> s@[i + m] == t@[m],
        decreases t@.len() - j,
    {
        assert(i + j < s.len());
        if s[i + j] != t[j] {
            assert(s@.subrange(i as int, i + t@.len())[j as int] != t@[j as int]);
            return false;
        }
        j = j + 1;
    }
    assert(s@.subrange(i as int, i + t@.len()) =~= t@);
    true
}

/// Whether `s` ends with `p`.
pub fn has_suffix(s: &[char], p: &[char]) -> (r: bool)
    ensures
        r == ends_with(s@, p@),
{
    if p.len() > s.len() {
        return false;
    }
    occurs_at_exec(s, p, s.len() - p.len())
}

/// The first position where `t` occurs in `s`.
pub fn find_chars(s: &[char], t: &[char]) -> (r: Option<usize>)
    ensures
        r matches Some(i) ==> find_seq(s@, t@) == Some(i as int),
        r is None ==> find_seq(s@, t@) is None,
{
    if t.len() > s.len() {
        return None;
    }
    let last = s.len() - t.len();
    let mut k: usize = 0;
    while k < last
        invariant
            k <= last,
            last + t@.len() == s@.len(),
            find_seq(s@, t@) == find_from(s@, t@, k as int),
        decreases last - k,
    {
        if occurs_at_exec(s, t, k) {
            return Some(k);
        }
        k = k + 1;
    }
    if occurs_at_exec(s, t, k) {
        Some(k)
    } else {
        assert(find_from(s@, t@, k + 1) is None);
        None
    }
}

/// What `find_from` finds is an occurrence; when it finds none there is none from `k` on.
pub proof fn lemma_find_from_found(s: Seq<char>, t: Seq<char>, k: int)
    requires
        0 <= k,
    ensures
        find_from(s, t, k) matches Some(i) ==> k <= i && occurs_at(s, t, i),
        find_from(s, t, k) is None ==> forall|i: int| k <= i ==> !occurs_at(s, t, i),
    decreases s.len() + 1 - k,
{
    if k + t.len() <= s.len() && s.subrange(k, k + t.len()) != t {
        lemma_find_from_found(s, t, k + 1);
        if find_from(s, t, k) is None {
            assert forall|i: int| k <= i implies !occurs_at(s, t, i) by {
                if i == k {
                } else {
                }
            }
        }
    }
}

/// Whether `t` occurs in `s`.
pub fn contains_chars(s: &[char], t: &[char]) -> (r: bool)
    ensures
        r == contains_seq(s@, t@),
{
    let f = find_chars(s, t);
    proof {
        lemma_find_from_found(s@, t@, 0);
    }
    f.is_some()
}

} // verus!

verus! {

// ---------------------------------------------------------------------------
// Lines
// ---------------------------------------------------------------------------

/// `l` without one trailing carriage return.
pub open spec fn strip_cr(l: Seq<char>) -> Seq<char> {
    if l.len() > 0 && l.last() == '\r' {
        l.drop_last()
    } else {
        l
    }
}

/// Splitting state after reading `s` from state `st`: the finished lines and the line
/// being read.
pub open spec fn line_scan_from(st: (Seq<Seq<char>>, Seq<char>), s: Seq<char>) -> (Seq<Seq<char>>, Seq<char>)
    decreases s.len(),
{
    if s.len() == 0 {
        st
    } else {
        let prev = line_scan_from(st, s.drop_last());
        if s.last() == '\n' {
            (prev.0.push(strip_cr(prev.1)), seq![])
        } else {
            (prev.0, prev.1.push(s.last()))
        }
    }
}

/// The splitting state after reading all of `s`.
pub open spec fn line_scan(s: Seq<char>) -> (Seq<Seq<char>>, Seq<char>) {
    line_scan_from((seq![], seq![]), s)
}

/// The lines of `s` (`str::lines`): split at `\n`, a `\r` right before it dropped, no
/// final empty line after a last `\n`.
pub open spec fn lines(s: Seq<char>) -> Seq<Seq<char>> {
    let st = line_scan(s);
    if st.1.len() == 0 {
        st.0
    } else {
        st.0.push(st.1)
    }
}

/// `str::lines` on a character slice.
pub fn split_lines(s: &[char]) -> (out: Vec<Vec<char>>)
    ensures
        out.deep_view() == lines(s@),
{
    let mut done: Vec<Vec<char>> = Vec::new();
    let mut cur: Vec<char> = Vec::new();
    let mut i: usize = 0;
    while i < s.len()
        invariant
            i <= s@.len(),
            (done.deep_view(), cur@) == line_scan(s@.take(i as int)),
        decreases s@.len() - i,
    {
        proof {
            assert(s@.take(i + 1).drop_last() =~= s@.take(i as int));
            assert(s@.take(i + 1).last() == s@[i as int]);
        }
        if s[i] == '\n' {
            if cur.len() > 0 && cur[cur.len() - 1] == '\r' {
                cur.pop();
            }
            let ghost before = done.deep_view();
            let line = cur;
            cur = Vec::new();
            done.push(line);
            proof {
                assert(line.deep_view() =~= line@);
                assert(done.deep_view() =~= before.push(line@));
                assert(cur@ =~= Seq::<char>::empty());
            }
        } else {
            cur.push(s[i]);
        }
        i = i + 1;
    }
    proof {
        assert(s@.take(s@.len() as int) =~= s@);
    }
    if cur.len() > 0 {
        let ghost before = done.deep_view();
        proof {
            assert(cur.deep_view() =~= cur@);
        }
        done.push(cur);
        proof {
            assert(done.deep_view() =~= before.push(line_scan(s@).1));
        }
    }
    done
}

/// Each line without one trailing carriage return.
pub open spec fn strip_all(ls: Seq<Seq<char>>) -> Seq<Seq<char>> {
    ls.map_values(|l: Seq<char>| strip_cr(l))
}

/// Each line followed by a `\n`.
pub open spec fn join_lines(ls: Seq<Seq<char>>) -> Seq<char>
    decreases ls.len(),
{
    if ls.len() == 0 {
        seq![]
    } else {
        join_lines(ls.drop_last()) + ls.last() + seq!['\n']
    }
}

/// `l` holds a line break.
pub open spec fn has_newline(l: Seq<char>) -> bool {
    l.contains('\n')
}

/// Splitting `x + y` into lines is splitting `x`, then going on with `y`.
pub proof fn lemma_line_scan_split(st: (Seq<Seq<char>>, Seq<char>), x: Seq<char>, y: Seq<char>)
    ensures
        line_scan_from(st, x + y) == line_scan_from(line_scan_from(st, x), y),
    decreases y.len(),
{
    if y.len() == 0 {
        assert(x + y =~= x);
    } else {
        assert((x + y).drop_last() =~= x + y.drop_last());
        lemma_line_scan_split(st, x, y.drop_last());
    }
}

proof fn lemma_line_scan_plain(st: (Seq<Seq<char>>, Seq<char>), l: Seq<char>)
    requires
        !has_newline(l),
    ensures
        line_scan_from(st, l) == (st.0, st.1 + l),
    decreases l.len(),
{
    if l.len() == 0 {
        assert(st.1 + l =~= st.1);
    } else {
        assert(!has_newline(l.drop_last())) by {
            if l.drop_last().contains('\n') {
                let i = choose|i: int| 0 <= i < l.drop_last().len() && l.drop_last()[i] == '\n';
                assert(l[i] == '\n');
            }
        }
        lemma_line_scan_plain(st, l.drop_last());
        assert(l.last() != '\n') by {
            if l.last() == '\n' {
                assert(l[l.len() - 1] == '\n');
            }
        }
        assert(st.1 + l.drop_last() + seq![l.last()] =~= st.1 + l);
    }
}

/// Splitting text made of whole lines gives those lines back (each without one trailing
/// carriage return).
pub proof fn lemma_lines_of_joined(ls: Seq<Seq<char>>)
    requires
        forall|i: int| 0 <= i < ls.len() ==> !has_newline(#[trigger] ls[i]),
    ensures
        line_scan(join_lines(ls)) == (strip_all(ls), Seq::<char>::empty()),
        lines(join_lines(ls)) == strip_all(ls),
    decreases ls.len(),
{
    if ls.len() == 0 {
        assert(strip_all(ls) =~= Seq::<Seq<char>>::empty());
    } else {
        let init = (Seq::<Seq<char>>::empty(), Seq::<char>::empty());
        let p = ls.drop_last();
        assert forall|i: int| 0 <= i < p.len() implies !has_newline(#[trigger] p[i]) by {
            assert(p[i] == ls[i]);
        }
        lemma_lines_of_joined(p);
        let l = ls.last();
        assert(!has_newline(l)) by {
            assert(ls[ls.len() - 1] == l);
        }
        let a = join_lines(p);
        lemma_line_scan_split(init, a + l, seq!['\n']);
        lemma_line_scan_split(init, a, l);
        lemma_line_scan_plain(line_scan(a), l);
        assert(Seq::<char>::empty() + l =~= l);
        let s1 = line_scan_from(init, a + l);
        assert(line_scan_from(s1, seq!['\n']) == (s1.0.push(strip_cr(s1.1)), Seq::<char>::empty())) by {
            assert(seq!['\n'].drop_last() =~= Seq::<char>::empty());
            assert(line_scan_from(s1, seq!['\n'].drop_last()) == s1);
            assert(seq!['\n'].last() == '\n');
        }
        assert(strip_all(ls) =~= strip_all(p).push(strip_cr(l)));
    }
}

/// Joining two runs of lines is joining each in turn.
pub proof fn lemma_join_lines_add(a: Seq<Seq<char>>, b: Seq<Seq<char>>)
    ensures
        join_lines(a + b) == join_lines(a) + join_lines(b),
    decreases b.len(),
{
    if b.len() == 0 {
        assert(a + b =~= a);
        assert(join_lines(a) + join_lines(b) =~= join_lines(a));
    } else {
        assert((a + b).drop_last() =~= a + b.drop_last());
        assert((a + b).last() == b.last());
        lemma_join_lines_add(a, b.drop_last());
        assert(join_lines(a + b) =~= join_lines(a) + join_lines(b));
    }
}

// ---------------------------------------------------------------------------
// Trimming a carriage return
// ---------------------------------------------------------------------------

proof fn lemma_trim_start_push(x: Seq<char>, c: char)
    ensures
        trim_start(x.push(c)) == if trim_start(x).len() == 0 && is_space(c) {
            Seq::<char>::empty()
        } else {
            trim_start(x).push(c)
        },
    decreases x.len(),
{
    if x.len() == 0 {
        assert(x.push(c) =~= seq![c]);
        if is_space(c) {
            assert(seq![c].drop_first() =~= Seq::<char>::empty());
        } else {
            assert(trim_start(x) =~= Seq::<char>::empty());
        }
    } else {
        assert(x.push(c).drop_first() =~= x.drop_first().push(c));
        assert(x.push(c)[0] == x[0]);
        if is_space(x[0]) {
            lemma_trim_start_push(x.drop_first(), c);
        }
    }
}

/// Trimming does not see a trailing carriage return.
pub proof fn lemma_trim_strip_cr(l: Seq<char>)
    ensures
        trimmed(strip_cr(l)) == trimmed(l),
{
    if l.len() > 0 && l.last() == '\r' {
        let x = l.drop_last();
        assert(x.push('\r') =~= l);
        lemma_trim_start_push(x, '\r');
        if trim_start(x).len() > 0 {
            assert(trim_start(l).drop_last() =~= trim_start(x));
        }
    }
}

} // verus!
