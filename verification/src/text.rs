//! Character-level text helpers with exact specifications: splitting,
//! lines, trimming, words and decimal numbers, on sequences of characters.
//! Pieces are computed as index ranges into the text.

use vstd::prelude::*;
use vstd::string::StrSliceExecFns;

verus! {

/// The pieces of `s` between occurrences of `sep` (as `str::split` with a char).
pub open spec fn spec_split(s: Seq<char>, sep: char) -> Seq<Seq<char>>
    decreases s.len(),
{
    if s.len() == 0 {
        seq![Seq::<char>::empty()]
    } else {
        let p = spec_split(s.drop_last(), sep);
        if s.last() == sep {
            p.push(Seq::empty())
        } else {
            p.update(p.len() - 1, p.last().push(s.last()))
        }
    }
}

/// The first piece of `s` split at `sep` is the text before the first
/// `sep`: a prefix of `s` holding no `sep`, followed in `s` by `sep` unless
/// it is the whole of `s`; it is the only piece exactly when `s` holds no `sep`.
pub proof fn lemma_split_first(s: Seq<char>, sep: char)
    ensures
        spec_split(s, sep).len() >= 1,
        spec_split(s, sep)[0].len() <= s.len(),
        s.subrange(0, spec_split(s, sep)[0].len() as int) == spec_split(s, sep)[0],
        forall|i: int| 0 <= i < spec_split(s, sep)[0].len() ==> spec_split(s, sep)[0][i] != sep,
        spec_split(s, sep)[0].len() < s.len() ==> s[spec_split(s, sep)[0].len() as int] == sep,
        spec_split(s, sep).len() == 1 ==> spec_split(s, sep)[0] == s,
        spec_split(s, sep).len() > 1 ==> spec_split(s, sep)[0].len() < s.len(),
    decreases s.len(),
{
    if s.len() == 0 {
        assert(s.subrange(0, 0) =~= Seq::<char>::empty());
    } else {
        let t = s.drop_last();
        lemma_split_first(t, sep);
        let p = spec_split(t, sep);
        let f = p[0];
        assert(forall|i: int| 0 <= i < t.len() ==> s[i] == t[i]);
        if s.last() == sep {
            assert(spec_split(s, sep)[0] == f);
            assert(s.subrange(0, f.len() as int) =~= t.subrange(0, f.len() as int));
            if f.len() == t.len() {
                assert(s[f.len() as int] == s.last());
            }
        } else if p.len() == 1 {
            assert(spec_split(s, sep)[0] == f.push(s.last()));
            assert(f == t);
            assert(s.subrange(0, s.len() as int) =~= s);
            assert(f.push(s.last()) =~= s);
        } else {
            assert(spec_split(s, sep)[0] == f);
            assert(s.subrange(0, f.len() as int) =~= t.subrange(0, f.len() as int));
        }
    }
}

/// Whitespace as `char::is_whitespace` defines it (Unicode White_Space).
pub open spec fn is_ws(c: char) -> bool {
    ||| c == '\t' || c == '\n' || c == '\u{0B}' || c == '\u{0C}' || c == '\r' || c == ' '
    ||| c == '\u{85}' || c == '\u{A0}' || c == '\u{1680}'
    ||| ('\u{2000}' <= c && c <= '\u{200A}')
    ||| c == '\u{2028}' || c == '\u{2029}' || c == '\u{202F}' || c == '\u{205F}' || c == '\u{3000}'
}

/// The maximal runs of non-whitespace characters of `s` with the
/// whitespace-separated pieces, empty ones included.
pub open spec fn spec_split_ws(s: Seq<char>) -> Seq<Seq<char>>
    decreases s.len(),
{
    if s.len() == 0 {
        seq![Seq::<char>::empty()]
    } else {
        let p = spec_split_ws(s.drop_last());
        if is_ws(s.last()) {
            p.push(Seq::empty())
        } else {
            p.update(p.len() - 1, p.last().push(s.last()))
        }
    }
}

/// The non-empty pieces of `p`, in order.
pub open spec fn non_empty(p: Seq<Seq<char>>) -> Seq<Seq<char>>
    decreases p.len(),
{
    if p.len() == 0 {
        Seq::empty()
    } else if p.last().len() == 0 {
        non_empty(p.drop_last())
    } else {
        non_empty(p.drop_last()).push(p.last())
    }
}

/// The words of `s` (as `str::split_whitespace`).
pub open spec fn spec_words(s: Seq<char>) -> Seq<Seq<char>> {
    non_empty(spec_split_ws(s))
}

/// `s` without leading whitespace.
pub open spec fn trim_start(s: Seq<char>) -> Seq<char>
    decreases s.len(),
{
    if s.len() > 0 && is_ws(s[0]) { trim_start(s.drop_first()) } else { s }
}

/// `s` without trailing whitespace.
pub open spec fn trim_end(s: Seq<char>) -> Seq<char>
    decreases s.len(),
{
    if s.len() > 0 && is_ws(s.last()) { trim_end(s.drop_last()) } else { s }
}

/// `s` without leading and trailing whitespace (as `str::trim`).
pub open spec fn spec_trim(s: Seq<char>) -> Seq<char> {
    trim_end(trim_start(s))
}

/// `s` with one trailing `\r` removed, if any.
pub open spec fn strip_cr(s: Seq<char>) -> Seq<char> {
    if s.len() > 0 && s.last() == '\r' { s.drop_last() } else { s }
}

/// The lines of `s` (as `str::lines`): split at `\n`, a `\r` before a `\n`
/// removed, and no final empty line after a trailing `\n`.
pub open spec fn spec_lines(s: Seq<char>) -> Seq<Seq<char>> {
    let p = spec_split(s, '\n');
    if s.len() == 0 {
        Seq::empty()
    } else if s.last() == '\n' {
        p.drop_last().map_values(|l: Seq<char>| strip_cr(l))
    } else {
        p.drop_last().map_values(|l: Seq<char>| strip_cr(l)).push(p.last())
    }
}

/// The text of index range `r` of `v`.
pub open spec fn piece(v: Seq<char>, r: (usize, usize)) -> Seq<char> {
    v.subrange(r.0 as int, r.1 as int)
}

/// The texts of the index ranges `rs` of `v`.
pub open spec fn pieces(v: Seq<char>, rs: Seq<(usize, usize)>) -> Seq<Seq<char>> {
    Seq::new(rs.len(), |k: int| piece(v, rs[k]))
}

/// The characters of `s`.
pub fn chars_of(s: &str) -> (r: Vec<char>)
    ensures
        r@ == s@,
{
    let n = s.unicode_len();
    let mut v: Vec<char> = Vec::new();
    let mut i: usize = 0;
    while i < n
        invariant
            n == s@.len(),
            i <= n,
            v@ == s@.take(i as int),
        decreases n - i,
    {
        v.push(s.get_char(i));
        i += 1;
        assert(v@ =~= s@.take(i as int));
    }
    assert(s@.take(n as int) =~= s@);
    v
}

/// The ranges of the pieces of `v[lo..hi]` between occurrences of `sep`.
pub fn split_ranges(v: &Vec<char>, lo: usize, hi: usize, sep: char) -> (r: Vec<(usize, usize)>)
    requires
        lo <= hi <= v@.len(),
    ensures
        pieces(v@, r@) == spec_split(v@.subrange(lo as int, hi as int), sep),
        r@.len() > 0,
        forall|k: int| 0 <= k < r@.len() ==> lo <= (#[trigger] r@[k]).0 <= r@[k].1 <= hi,
{
    let mut r: Vec<(usize, usize)> = Vec::new();
    r.push((lo, lo));
    let mut i = lo;
    proof {
        assert(v@.subrange(lo as int, lo as int) =~= Seq::<char>::empty());
        assert(pieces(v@, r@) =~= spec_split(v@.subrange(lo as int, lo as int), sep));
    }
    while i < hi
        invariant
            lo <= i <= hi <= v@.len(),
            r@.len() > 0,
            r@.last().1 == i,
            forall|k: int| 0 <= k < r@.len() ==> lo <= (#[trigger] r@[k]).0 <= r@[k].1 <= i,
            pieces(v@, r@) == spec_split(v@.subrange(lo as int, i as int), sep),
        decreases hi - i,
    {
        let ghost s1 = v@.subrange(lo as int, i + 1);
        assert(s1.drop_last() =~= v@.subrange(lo as int, i as int));
        assert(s1.last() == v@[i as int]);
        let ghost before = r@;
        if v[i] == sep {
            r.push((i + 1, i + 1));
            proof {
                assert(v@.subrange(i + 1, i + 1) =~= Seq::<char>::empty());
                assert(pieces(v@, r@) =~= pieces(v@, before).push(Seq::empty()));
            }
        } else {
            let last = r.len() - 1;
            let (a, _b) = r[last];
            r.set(last, (a, i + 1));
            proof {
                assert(v@.subrange(a as int, i + 1) =~= v@.subrange(a as int, i as int).push(v@[i as int]));
                assert(pieces(v@, r@) =~= pieces(v@, before).update(last as int,
                    pieces(v@, before).last().push(v@[i as int])));
            }
        }
        i += 1;
    }
    r
}

/// Whether `c` is whitespace (`char::is_whitespace`).
pub fn is_whitespace(c: char) -> (r: bool)
    ensures
        r == is_ws(c),
{
    c == '\t' || c == '\n' || c == '\u{0B}' || c == '\u{0C}' || c == '\r' || c == ' '
        || c == '\u{85}' || c == '\u{A0}' || c == '\u{1680}'
        || ('\u{2000}' <= c && c <= '\u{200A}')
        || c == '\u{2028}' || c == '\u{2029}' || c == '\u{202F}' || c == '\u{205F}' || c == '\u{3000}'
}

/// The ranges of the words of `v[lo..hi]`.
pub fn word_ranges(v: &Vec<char>, lo: usize, hi: usize) -> (r: Vec<(usize, usize)>)
    requires
        lo <= hi <= v@.len(),
    ensures
        pieces(v@, r@) == spec_words(v@.subrange(lo as int, hi as int)),
        forall|k: int| 0 <= k < r@.len() ==> lo <= (#[trigger] r@[k]).0 <= r@[k].1 <= hi,
{
    let mut r: Vec<(usize, usize)> = Vec::new();
    let mut cur: usize = lo;
    let mut i = lo;
    proof {
        assert(v@.subrange(lo as int, lo as int) =~= Seq::<char>::empty());
        assert(spec_split_ws(Seq::<char>::empty()) == seq![Seq::<char>::empty()]);
        assert(spec_split_ws(Seq::<char>::empty()).drop_last() =~= Seq::<Seq<char>>::empty());
        assert(pieces(v@, r@) =~= Seq::<Seq<char>>::empty());
    }
    while i < hi
        invariant
            lo <= cur <= i <= hi <= v@.len(),
            forall|k: int| 0 <= k < r@.len() ==> lo <= (#[trigger] r@[k]).0 <= r@[k].1 <= i,
            spec_split_ws(v@.subrange(lo as int, i as int)).last() == v@.subrange(cur as int, i as int),
            spec_split_ws(v@.subrange(lo as int, i as int)).len() > 0,
            pieces(v@, r@) == non_empty(spec_split_ws(v@.subrange(lo as int, i as int)).drop_last()),
        decreases hi - i,
    {
        let ghost s0 = v@.subrange(lo as int, i as int);
        let ghost s1 = v@.subrange(lo as int, i + 1);
        assert(s1.drop_last() =~= s0);
        assert(s1.last() == v@[i as int]);
        let ghost p0 = spec_split_ws(s0);
        let ghost before = r@;
        if is_whitespace(v[i]) {
            if cur < i {
                r.push((cur, i));
            }
            cur = i + 1;
            proof {
                let p1 = spec_split_ws(s1);
                assert(p1 == p0.push(Seq::empty()));
                assert(p1.drop_last() =~= p0);
                assert(p0 =~= p0.drop_last().push(p0.last()));
                assert(v@.subrange(i + 1, i + 1) =~= Seq::<char>::empty());
                if before.len() < r@.len() {
                    assert(p0.last().len() > 0);
                    assert(pieces(v@, r@) =~= pieces(v@, before).push(p0.last()));
                } else {
                    assert(p0.last().len() == 0);
                    assert(pieces(v@, r@) =~= pieces(v@, before));
                }
                assert(pieces(v@, r@) =~= non_empty(p0));
            }
        } else {
            proof {
                let p1 = spec_split_ws(s1);
                assert(p1 == p0.update(p0.len() - 1, p0.last().push(v@[i as int])));
                assert(p1.drop_last() =~= p0.drop_last());
                assert(v@.subrange(cur as int, i + 1) =~= v@.subrange(cur as int, i as int).push(v@[i as int]));
            }
        }
        i += 1;
    }
    let ghost s = v@.subrange(lo as int, hi as int);
    let ghost before = r@;
    if cur < hi {
        r.push((cur, hi));
    }
    proof {
        let p = spec_split_ws(s);
        assert(p =~= p.drop_last().push(p.last()));
        assert(pieces(v@, r@) =~= non_empty(p));
    }
    r
}

/// Leading whitespace does not count for `trim_start`.
proof fn lemma_trim_start_step(v: Seq<char>, a: int, hi: int)
    requires
        0 <= a < hi <= v.len(),
        is_ws(v[a]),
    ensures
        trim_start(v.subrange(a, hi)) == trim_start(v.subrange(a + 1, hi)),
{
    assert(v.subrange(a, hi).drop_first() =~= v.subrange(a + 1, hi));
}

/// Trailing whitespace does not count for `trim_end`.
proof fn lemma_trim_end_step(v: Seq<char>, a: int, b: int)
    requires
        0 <= a < b <= v.len(),
        is_ws(v[b - 1]),
    ensures
        trim_end(v.subrange(a, b)) == trim_end(v.subrange(a, b - 1)),
{
    assert(v.subrange(a, b).drop_last() =~= v.subrange(a, b - 1));
}

/// The range of `v[lo..hi]` without leading and trailing whitespace.
pub fn trim_range(v: &Vec<char>, lo: usize, hi: usize) -> (r: (usize, usize))
    requires
        lo <= hi <= v@.len(),
    ensures
        lo <= r.0 <= r.1 <= hi,
        piece(v@, r) == spec_trim(v@.subrange(lo as int, hi as int)),
{
    let mut a = lo;
    while a < hi && is_whitespace(v[a])
        invariant
            lo <= a <= hi <= v@.len(),
            trim_start(v@.subrange(lo as int, hi as int)) == trim_start(v@.subrange(a as int, hi as int)),
        decreases hi - a,
    {
        proof { lemma_trim_start_step(v@, a as int, hi as int); }
        a += 1;
    }
    proof {
        if a < hi {
            assert(v@.subrange(a as int, hi as int)[0] == v@[a as int]);
        }
    }
    let mut b = hi;
    while b > a && is_whitespace(v[b - 1])
        invariant
            lo <= a <= b <= hi <= v@.len(),
            trim_end(v@.subrange(a as int, hi as int)) == trim_end(v@.subrange(a as int, b as int)),
        decreases b - a,
    {
        proof { lemma_trim_end_step(v@, a as int, b as int); }
        b -= 1;
    }
    proof {
        if b > a {
            assert(v@.subrange(a as int, b as int).last() == v@[b - 1]);
        }
    }
    (a, b)
}

/// The ranges of the lines of `v[lo..hi]` (as `str::lines`).
pub fn line_ranges(v: &Vec<char>, lo: usize, hi: usize) -> (r: Vec<(usize, usize)>)
    requires
        lo <= hi <= v@.len(),
    ensures
        pieces(v@, r@) == spec_lines(v@.subrange(lo as int, hi as int)),
        forall|k: int| 0 <= k < r@.len() ==> lo <= (#[trigger] r@[k]).0 <= r@[k].1 <= hi,
{
    let parts = split_ranges(v, lo, hi, '\n');
    let ghost s = v@.subrange(lo as int, hi as int);
    let ghost p = spec_split(s, '\n');
    let mut out: Vec<(usize, usize)> = Vec::new();
    if lo == hi {
        assert(pieces(v@, out@) =~= spec_lines(s));
        return out;
    }
    let n = parts.len();
    assert(n == p.len());
    let mut k: usize = 0;
    while k + 1 < n
        invariant
            n == parts@.len(),
            lo < hi <= v@.len(),
            s == v@.subrange(lo as int, hi as int),
            p == spec_split(s, '\n'),
            n > 0,
            k + 1 <= n,
            pieces(v@, parts@) == p,
            forall|j: int| 0 <= j < parts@.len() ==> lo <= (#[trigger] parts@[j]).0 <= parts@[j].1 <= hi,
            out@.len() == k,
            forall|j: int| 0 <= j < out@.len() ==> lo <= (#[trigger] out@[j]).0 <= out@[j].1 <= hi,
            pieces(v@, out@) == p.take(k as int).map_values(|l: Seq<char>| strip_cr(l)),
        decreases n - k,
    {
        let (a, b) = parts[k];
        assert(lo <= parts@[k as int].0 <= parts@[k as int].1 <= hi);
        assert(piece(v@, parts@[k as int]) == p[k as int]);
        let ghost before = out@;
        let ghost pk = v@.subrange(a as int, b as int);
        assert(p[k as int] == pk);
        if b > a && v[b - 1] == '\r' {
            out.push((a, b - 1));
            assert(pk.last() == v@[b - 1]);
            assert(pk.drop_last() =~= v@.subrange(a as int, b - 1));
            assert(strip_cr(pk) == pk.drop_last());
        } else {
            out.push((a, b));
            if b > a {
                assert(pk.last() == v@[b - 1]);
            }
            assert(strip_cr(pk) == pk);
        }
        proof {
            assert(pieces(v@, out@) =~= pieces(v@, before).push(strip_cr(p[k as int])));
            assert(p.take(k + 1).map_values(|l: Seq<char>| strip_cr(l)) =~=
                p.take(k as int).map_values(|l: Seq<char>| strip_cr(l)).push(strip_cr(p[k as int])));
        }
        k += 1;
    }
    assert(p.take(k as int) =~= p.drop_last());
    if v[hi - 1] != '\n' {
        out.push(parts[n - 1]);
        assert(pieces(v@, out@) =~= p.drop_last().map_values(|l: Seq<char>| strip_cr(l)).push(p.last()));
    }
    assert(s.last() == v@[hi - 1]);
    assert(pieces(v@, out@) =~= spec_lines(s));
    out
}

/// Whether `c` occurs in `v[lo..hi]`.
pub fn contains_char(v: &Vec<char>, lo: usize, hi: usize, c: char) -> (r: bool)
    requires
        lo <= hi <= v@.len(),
    ensures
        r == v@.subrange(lo as int, hi as int).contains(c),
{
    let mut i = lo;
    while i < hi
        invariant
            lo <= i <= hi <= v@.len(),
            forall|k: int| lo <= k < i ==> v@[k] != c,
        decreases hi - i,
    {
        if v[i] == c {
            assert(v@.subrange(lo as int, hi as int)[i - lo] == c);
            return true;
        }
        i += 1;
    }
    proof {
        if v@.subrange(lo as int, hi as int).contains(c) {
            let k = choose|k: int| 0 <= k < hi - lo && v@.subrange(lo as int, hi as int)[k] == c;
            assert(v@[lo + k] == c);
        }
    }
    false
}

/// Whether `i` is the first index of `c` in `s`.
pub open spec fn is_first(s: Seq<char>, c: char, i: int) -> bool {
    0 <= i < s.len() && s[i] == c && forall|j: int| 0 <= j < i ==> s[j] != c
}

/// The first index of `c` in `s`, if any.
#[verifier::opaque]
pub open spec fn spec_find(s: Seq<char>, c: char) -> Option<int> {
    if s.contains(c) {
        Some(choose|i: int| is_first(s, c, i))
    } else {
        None
    }
}

/// When `c` occurs in `s`, it has a first occurrence.
proof fn lemma_first_exists(s: Seq<char>, c: char)
    requires
        s.contains(c),
    ensures
        exists|i: int| is_first(s, c, i),
    decreases s.len(),
{
    let p = s.drop_last();
    if p.contains(c) {
        lemma_first_exists(p, c);
        let i = choose|i: int| is_first(p, c, i);
        assert forall|j: int| 0 <= j < i implies s[j] != c by {
            assert(p[j] == s[j]);
        }
        assert(p[i] == s[i]);
        assert(is_first(s, c, i));
    } else {
        let i = s.len() - 1;
        assert forall|j: int| 0 <= j < i implies s[j] != c by {
            assert(p[j] == s[j]);
        }
        if s[i] != c {
            let k = choose|k: int| 0 <= k < s.len() && s[k] == c;
            assert(p[k] == s[k]);
        }
        assert(is_first(s, c, i));
    }
}

/// When `c` occurs in `s`, `spec_find` returns its first occurrence.
pub proof fn lemma_find_first(s: Seq<char>, c: char)
    requires
        s.contains(c),
    ensures
        spec_find(s, c) matches Some(i) && is_first(s, c, i),
{
    reveal(spec_find);
    lemma_first_exists(s, c);
}

/// The first index of `c` in `v[lo..hi]`, counted from `lo`.
pub fn find_char(v: &Vec<char>, lo: usize, hi: usize, c: char) -> (r: Option<usize>)
    requires
        lo <= hi <= v@.len(),
    ensures
        match r {
            Some(i) => spec_find(v@.subrange(lo as int, hi as int), c) == Some(i as int) && i < hi - lo,
            None => spec_find(v@.subrange(lo as int, hi as int), c) is None,
        },
{
    let ghost s = v@.subrange(lo as int, hi as int);
    let mut i = lo;
    while i < hi
        invariant
            lo <= i <= hi <= v@.len(),
            s == v@.subrange(lo as int, hi as int),
            forall|k: int| lo <= k < i ==> v@[k] != c,
        decreases hi - i,
    {
        if v[i] == c {
            proof {
                assert(s[i - lo] == c);
                lemma_find_first(s, c);
                let w = spec_find(s, c)->Some_0;
                assert forall|j: int| 0 <= j < i - lo implies s[j] != c by {
                    assert(s[j] == v@[lo + j]);
                }
                assert(is_first(s, c, i - lo));
                if w < i - lo {
                    assert(v@[lo + w] == c);
                } else if w > i - lo {
                    assert(s[i - lo] != c);
                }
            }
            return Some(i - lo);
        }
        i += 1;
    }
    proof {
        reveal(spec_find);
        if s.contains(c) {
            let k = choose|k: int| 0 <= k < s.len() && s[k] == c;
            assert(v@[lo + k] == c);
        }
    }
    None
}

/// Whether `v[lo..hi]` starts with `pat`.
pub fn starts_with_at(v: &Vec<char>, lo: usize, hi: usize, pat: &Vec<char>) -> (r: bool)
    requires
        lo <= hi <= v@.len(),
    ensures
        r == (pat@.len() <= hi - lo && v@.subrange(lo as int, lo + pat@.len()) == pat@),
{
    if pat.len() > hi - lo {
        return false;
    }
    let mut k: usize = 0;
    while k < pat.len()
        invariant
            pat@.len() <= hi - lo,
            lo <= hi <= v@.len(),
            k <= pat@.len(),
            forall|j: int| 0 <= j < k ==> v@[lo + j] == pat@[j],
        decreases pat@.len() - k,
    {
        if v[lo + k] != pat[k] {
            assert(v@.subrange(lo as int, lo + pat@.len())[k as int] != pat@[k as int]);
            return false;
        }
        k += 1;
    }
    assert(v@.subrange(lo as int, lo + pat@.len()) =~= pat@);
    true
}

/// The pieces of `s[start..]` between the leftmost non-overlapping
/// occurrences of `pat` found scanning from index `i` (as `str::split` with
/// a string pattern).
pub open spec fn split_str_from(s: Seq<char>, pat: Seq<char>, start: int, i: int) -> Seq<Seq<char>>
    decreases s.len() - i,
{
    if pat.len() == 0 || i < start || start < 0 || i + pat.len() > s.len() {
        seq![s.subrange(start, s.len() as int)]
    } else if s.subrange(i, i + pat.len()) == pat {
        seq![s.subrange(start, i)] + split_str_from(s, pat, i + pat.len(), i + pat.len())
    } else {
        split_str_from(s, pat, start, i + 1)
    }
}

/// The pieces of `s` between occurrences of the non-empty `pat`.
pub open spec fn spec_split_str(s: Seq<char>, pat: Seq<char>) -> Seq<Seq<char>> {
    split_str_from(s, pat, 0, 0)
}

/// The ranges of the pieces of `v` between the leftmost non-overlapping
/// occurrences of `pat`.
pub fn split_str_ranges(v: &Vec<char>, pat: &Vec<char>) -> (r: Vec<(usize, usize)>)
    requires
        pat@.len() > 0,
    ensures
        pieces(v@, r@) == spec_split_str(v@, pat@),
        forall|k: int| 0 <= k < r@.len() ==> 0 <= (#[trigger] r@[k]).0 <= r@[k].1 <= v@.len(),
{
    let n = v.len();
    let m = pat.len();
    let mut r: Vec<(usize, usize)> = Vec::new();
    let mut start: usize = 0;
    let mut i: usize = 0;
    assert(pieces(v@, r@) + split_str_from(v@, pat@, 0, 0) =~= spec_split_str(v@, pat@));
    while i <= n && m <= n - i
        invariant
            n == v@.len(),
            m == pat@.len(),
            m > 0,
            start <= i,
            start <= n,
            i <= n + 1,
            forall|k: int| 0 <= k < r@.len() ==> 0 <= (#[trigger] r@[k]).0 <= r@[k].1 <= n,
            pieces(v@, r@) + split_str_from(v@, pat@, start as int, i as int) == spec_split_str(v@, pat@),
        decreases n + 1 - i,
    {
        let ghost before = r@;
        if starts_with_at(v, i, n, pat) {
            r.push((start, i));
            proof {
                assert(pieces(v@, r@) =~= pieces(v@, before).push(v@.subrange(start as int, i as int)));
                let rest = split_str_from(v@, pat@, (i + m) as int, (i + m) as int);
                assert(split_str_from(v@, pat@, start as int, i as int)
                    == seq![v@.subrange(start as int, i as int)] + rest);
                assert(pieces(v@, r@) + rest =~= pieces(v@, before)
                    + (seq![v@.subrange(start as int, i as int)] + rest));
            }
            i = i + m;
            start = i;
        } else {
            i = i + 1;
        }
    }
    let ghost before = r@;
    r.push((start, n));
    proof {
        assert(split_str_from(v@, pat@, start as int, i as int) == seq![v@.subrange(start as int, n as int)]);
        assert(pieces(v@, r@) =~= pieces(v@, before) + seq![v@.subrange(start as int, n as int)]);
    }
    r
}

/// Whether every character of `s` is an ASCII digit.
pub open spec fn all_digits(s: Seq<char>) -> bool {
    forall|i: int| 0 <= i < s.len() ==> '0' <= #[trigger] s[i] <= '9'
}

/// The decimal value of the digit string `s`.
pub open spec fn digits_value(s: Seq<char>) -> int
    decreases s.len(),
{
    if s.len() == 0 {
        0
    } else {
        digits_value(s.drop_last()) * 10 + (s.last() as int - '0' as int)
    }
}

/// `s` parsed as a `usize` (as `str::parse::<usize>`): an optional `+`, then
/// one or more decimal digits whose value fits.
pub open spec fn spec_parse_usize(s: Seq<char>) -> Option<usize> {
    let d = if s.len() > 0 && s[0] == '+' { s.drop_first() } else { s };
    if d.len() > 0 && all_digits(d) && digits_value(d) <= usize::MAX {
        Some(digits_value(d) as usize)
    } else {
        None
    }
}

/// The value of a digit string does not shrink when digits are appended.
proof fn lemma_digits_prefix(s: Seq<char>, j: int)
    requires
        all_digits(s),
        0 <= j <= s.len(),
    ensures
        0 <= digits_value(s.take(j)) <= digits_value(s),
    decreases s.len(),
{
    if s.len() > 0 {
        assert(all_digits(s.drop_last()));
        if j == s.len() {
            assert(s.take(j) =~= s);
            lemma_digits_prefix(s.drop_last(), s.len() - 1);
            assert(s.drop_last().take(s.len() - 1) =~= s.drop_last());
        } else {
            lemma_digits_prefix(s.drop_last(), j);
            assert(s.drop_last().take(j) =~= s.take(j));
            lemma_digits_prefix(s.drop_last(), s.len() - 1);
            assert(s.drop_last().take(s.len() - 1) =~= s.drop_last());
        }
    } else {
        assert(s.take(j) =~= s);
    }
}

/// The number of leading ASCII digits of `s`.
pub open spec fn leading_digits(s: Seq<char>) -> nat
    decreases s.len(),
{
    if s.len() > 0 && '0' <= s[0] <= '9' { 1 + leading_digits(s.drop_first()) } else { 0 }
}

/// The message of the error `str::parse::<usize>` gives for `s` when it
/// fails: an empty string; a lone sign, or a character that is not a digit
/// before the leading digits pass `usize::MAX`; or a value past `usize::MAX`.
pub open spec fn spec_parse_usize_error(s: Seq<char>) -> Seq<char> {
    let d = if s.len() > 0 && s[0] == '+' { s.drop_first() } else { s };
    if s.len() == 0 {
        "cannot parse integer from empty string"@
    } else if d.len() == 0 {
        "invalid digit found in string"@
    } else if digits_value(d.take(leading_digits(d) as int)) > usize::MAX {
        "number too large to fit in target type"@
    } else {
        "invalid digit found in string"@
    }
}

proof fn lemma_leading_digits(s: Seq<char>, i: int)
    requires
        0 <= i <= s.len(),
        all_digits(s.take(i)),
    ensures
        i <= leading_digits(s) <= s.len(),
        all_digits(s.take(leading_digits(s) as int)),
        i < s.len() && !('0' <= s[i] <= '9') ==> leading_digits(s) == i,
    decreases s.len(),
{
    if s.len() > 0 && '0' <= s[0] <= '9' {
        let t = s.drop_first();
        if i > 0 {
            assert forall|k: int| 0 <= k < i - 1 implies '0' <= #[trigger] t.take(i - 1)[k] <= '9' by {
                assert(s.take(i)[k + 1] == t.take(i - 1)[k]);
            }
            lemma_leading_digits(t, i - 1);
        } else {
            lemma_leading_digits(t, 0);
        }
        assert forall|k: int| 0 <= k < leading_digits(s) implies '0' <= #[trigger] s.take(leading_digits(s) as int)[k] <= '9' by {
            if k > 0 {
                assert(t.take(leading_digits(t) as int)[k - 1] == s[k]);
            }
        }
    } else {
        if i > 0 {
            assert(s.take(i)[0] == s[0]);
        }
    }
}

/// The message of the error `str::parse::<usize>` gives for `v[lo..hi]`
/// when `parse_usize` finds none.
pub fn parse_usize_error(v: &Vec<char>, lo: usize, hi: usize) -> (r: &'static str)
    requires
        lo <= hi <= v@.len(),
    ensures
        r@ == spec_parse_usize_error(v@.subrange(lo as int, hi as int)),
{
    let ghost s = v@.subrange(lo as int, hi as int);
    let mut a = lo;
    if lo < hi && v[lo] == '+' {
        a = lo + 1;
    }
    let ghost d = v@.subrange(a as int, hi as int);
    proof {
        if lo < hi && v@[lo as int] == '+' {
            assert(d =~= s.drop_first());
        } else {
            assert(d =~= s);
        }
        reveal_strlit("cannot parse integer from empty string");
        reveal_strlit("number too large to fit in target type");
        reveal_strlit("invalid digit found in string");
    }
    if lo == hi {
        return "cannot parse integer from empty string";
    }
    if a == hi {
        return "invalid digit found in string";
    }
    let mut acc: usize = 0;
    let mut i = a;
    assert(d.take(0) =~= Seq::<char>::empty());
    while i < hi
        invariant
            lo <= a <= i <= hi <= v@.len(),
            d == v@.subrange(a as int, hi as int),
            s == v@.subrange(lo as int, hi as int),
            s.len() > 0,
            d == (if s.len() > 0 && s[0] == '+' { s.drop_first() } else { s }),
            d.len() > 0,
            all_digits(d.take(i - a)),
            acc == digits_value(d.take(i - a)),
        decreases hi - i,
    {
        let c = v[i];
        if c < '0' || c > '9' {
            proof {
                reveal_strlit("invalid digit found in string");
                assert(d[i - a] == c);
                lemma_leading_digits(d, i - a);
            }
            return "invalid digit found in string";
        }
        let dig = (c as u32 - '0' as u32) as usize;
        proof {
            assert(d.take(i - a + 1).drop_last() =~= d.take(i - a));
            assert(d.take(i - a + 1).last() == c);
            assert(all_digits(d.take(i - a + 1)));
        }
        let m = acc.checked_mul(10);
        let t = match m {
            Some(x) => x.checked_add(dig),
            None => None,
        };
        if t.is_none() {
            proof {
                reveal_strlit("number too large to fit in target type");
                lemma_leading_digits(d, i - a + 1);
                let k = leading_digits(d) as int;
                assert(d.take(k).take(i - a + 1) =~= d.take(i - a + 1));
                lemma_digits_prefix(d.take(k), i - a + 1);
            }
            return "number too large to fit in target type";
        }
        acc = t.unwrap();
        i += 1;
    }
    proof {
        reveal_strlit("invalid digit found in string");
        assert(d.take(hi - a) =~= d);
        lemma_leading_digits(d, hi - a);
        assert(d.take(leading_digits(d) as int) =~= d);
    }
    "invalid digit found in string"
}

/// `v[lo..hi]` parsed as a `usize` (as `str::parse::<usize>`).
pub fn parse_usize(v: &Vec<char>, lo: usize, hi: usize) -> (r: Option<usize>)
    requires
        lo <= hi <= v@.len(),
    ensures
        r == spec_parse_usize(v@.subrange(lo as int, hi as int)),
{
    let ghost s = v@.subrange(lo as int, hi as int);
    let mut a = lo;
    if lo < hi && v[lo] == '+' {
        a = lo + 1;
    }
    let ghost d = v@.subrange(a as int, hi as int);
    proof {
        if lo < hi && v@[lo as int] == '+' {
            assert(d =~= s.drop_first());
        } else {
            assert(d =~= s);
        }
    }
    if a == hi {
        return None;
    }
    let mut acc: usize = 0;
    let mut i = a;
    assert(d.take(0) =~= Seq::<char>::empty());
    assert(all_digits(d.take(0)));
    while i < hi
        invariant
            lo <= a <= i <= hi <= v@.len(),
            d == v@.subrange(a as int, hi as int),
            s == v@.subrange(lo as int, hi as int),
            d.len() > 0,
            spec_parse_usize(s) == (if all_digits(d) && digits_value(d) <= usize::MAX {
                Some(digits_value(d) as usize)
            } else {
                None::<usize>
            }),
            all_digits(d.take(i - a)),
            acc == digits_value(d.take(i - a)),
        decreases hi - i,
    {
        let c = v[i];
        if c < '0' || c > '9' {
            assert(d[i - a] == c);
            return None;
        }
        let dig = (c as u32 - '0' as u32) as usize;
        proof {
            assert(d.take(i - a + 1).drop_last() =~= d.take(i - a));
            assert(d.take(i - a + 1).last() == c);
            assert(all_digits(d.take(i - a + 1)));
        }
        let m = acc.checked_mul(10);
        if m.is_none() {
            proof {
                if all_digits(d) {
                    lemma_digits_prefix(d, i - a + 1);
                }
            }
            return None;
        }
        let t = m.unwrap().checked_add(dig);
        if t.is_none() {
            proof {
                if all_digits(d) {
                    lemma_digits_prefix(d, i - a + 1);
                }
            }
            return None;
        }
        acc = t.unwrap();
        i += 1;
    }
    assert(d.take(hi - a) =~= d);
    Some(acc)
}

/// Whether two strings hold the same characters.
pub fn str_eq(a: &str, b: &str) -> (r: bool)
    ensures
        r == (a@ == b@),
{
    let x = a.to_owned();
    let y = b.to_owned();
    x == y
}

} // verus!
