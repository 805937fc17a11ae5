//! Stable line sorting: by code-point order (the byte order of UTF-8), by
//! length, or by the integer a line holds.

use vstd::prelude::*;
use crate::lineblock::texts;
use crate::numbering::{leading_int, leading_int_chars};

verus! {

/// `a` sorts at or before `b`: lexicographic order by code point.
pub open spec fn lex_le(a: Seq<char>, b: Seq<char>) -> bool
    decreases a.len(),
{
    if a.len() == 0 {
        true
    } else if b.len() == 0 {
        false
    } else if a[0] != b[0] {
        a[0] < b[0]
    } else {
        lex_le(a.drop_first(), b.drop_first())
    }
}

/// A common prefix does not change the order.
pub proof fn lemma_lex_skip(a: Seq<char>, b: Seq<char>, i: int)
    requires
        0 <= i <= a.len(),
        i <= b.len(),
        a.take(i) == b.take(i),
    ensures
        lex_le(a, b) == lex_le(a.skip(i), b.skip(i)),
    decreases i,
{
    if i > 0 {
        assert(a[0] == a.take(i)[0]);
        assert(b[0] == b.take(i)[0]);
        assert(a.drop_first().take(i - 1) =~= a.take(i).drop_first());
        assert(b.drop_first().take(i - 1) =~= b.take(i).drop_first());
        lemma_lex_skip(a.drop_first(), b.drop_first(), i - 1);
        assert(a.drop_first().skip(i - 1) =~= a.skip(i));
        assert(b.drop_first().skip(i - 1) =~= b.skip(i));
    } else {
        assert(a.skip(0) =~= a);
        assert(b.skip(0) =~= b);
    }
}

/// Whether `a` sorts at or before `b`.
pub fn lex_le_chars(a: &[char], b: &[char]) -> (r: bool)
    ensures
        r == lex_le(a@, b@),
{
    let mut i: usize = 0;
    while i < a.len() && i < b.len() && a[i] == b[i]
        invariant
            i <= a@.len(),
            i <= b@.len(),
            a@.take(i as int) == b@.take(i as int),
        decreases a@.len() - i,
    {
        proof {
            assert(a@.take(i + 1) =~= a@.take(i as int).push(a@[i as int]));
            assert(b@.take(i + 1) =~= b@.take(i as int).push(b@[i as int]));
        }
        i = i + 1;
    }
    proof {
        lemma_lex_skip(a@, b@, i as int);
        if i < a@.len() && i < b@.len() {
            assert(a@.skip(i as int)[0] == a@[i as int]);
            assert(b@.skip(i as int)[0] == b@[i as int]);
        }
    }
    if i == a.len() {
        true
    } else if i == b.len() {
        false
    } else {
        a[i] < b[i]
    }
}

/// What lines are sorted by.
#[derive(Debug, Clone, Copy, PartialEq, Eq, Structural)]
pub enum SortKey {
    /// Code-point order of the text.
    Text,
    /// The number of characters.
    Length,
    /// The integer that the line holds (see [`leading_int`]); lines without
    /// one go last in either direction.
    Number,
}

/// Numeric keys in order: both present, by value (reversed descending); a
/// missing key sorts after every present one.
pub open spec fn num_before(a: Option<int>, b: Option<int>, desc: bool) -> bool {
    match (a, b) {
        (Some(u), Some(v)) => if desc { v <= u } else { u <= v },
        (_, None) => true,
        (None, Some(_)) => false,
    }
}

/// Line `a` may stay before line `b` when sorting by `by`: ascending, `a`'s
/// key is at or before `b`'s; descending, at or after it (lines without a
/// number last either way).
pub open spec fn line_before(by: SortKey, a: Seq<char>, b: Seq<char>, desc: bool) -> bool {
    match by {
        SortKey::Text => if desc { lex_le(b, a) } else { lex_le(a, b) },
        SortKey::Length => if desc { b.len() <= a.len() } else { a.len() <= b.len() },
        SortKey::Number => num_before(leading_int(a), leading_int(b), desc),
    }
}

/// Whether line `a` may stay before line `b` (see [`line_before`]).
pub fn line_before_chars(by: SortKey, a: &[char], b: &[char], desc: bool) -> (r: bool)
    ensures
        r == line_before(by, a@, b@, desc),
{
    match by {
        SortKey::Text => if desc { lex_le_chars(b, a) } else { lex_le_chars(a, b) },
        SortKey::Length => if desc { b.len() <= a.len() } else { a.len() <= b.len() },
        SortKey::Number => {
            let ka = leading_int_chars(a);
            let kb = leading_int_chars(b);
            match (ka, kb) {
                (Some(u), Some(v)) => if desc { v <= u } else { u <= v },
                (_, None) => true,
                (None, Some(_)) => false,
            }
        },
    }
}

/// Line `y` may stay before line `x` (see [`line_before`]).
pub open spec fn stays_before(lines: Seq<Seq<char>>, y: int, x: int, desc: bool, by: SortKey) -> bool {
    line_before(by, lines[y], lines[x], desc)
}

/// Index `x` placed into the sorted indices `s`, after the last index that
/// may stay before it.
pub open spec fn ins_idx(lines: Seq<Seq<char>>, s: Seq<int>, x: int, desc: bool, by: SortKey) -> Seq<int>
    decreases s.len(),
{
    if s.len() == 0 {
        seq![x]
    } else if stays_before(lines, s.last(), x, desc, by) {
        s.push(x)
    } else {
        ins_idx(lines, s.drop_last(), x, desc, by).push(s.last())
    }
}

/// The first `k` line indices in stable sorted order.
pub open spec fn sort_perm(lines: Seq<Seq<char>>, k: nat, desc: bool, by: SortKey) -> Seq<int>
    decreases k,
{
    if k == 0 { seq![] } else { ins_idx(lines, sort_perm(lines, (k - 1) as nat, desc, by), k - 1, desc, by) }
}

/// The lines in stable sorted order.
pub open spec fn sorted_lines(lines: Seq<Seq<char>>, desc: bool, by: SortKey) -> Seq<Seq<char>> {
    sort_perm(lines, lines.len(), desc, by).map_values(|i: int| lines[i])
}

/// `p` lists each of `0..k` exactly once.
pub open spec fn is_perm(p: Seq<int>, k: int) -> bool {
    &&& p.len() == k
    &&& forall|m: int| 0 <= m < p.len() ==> 0 <= #[trigger] p[m] < k
    &&& forall|m1: int, m2: int| 0 <= m1 < m2 < p.len() ==> p[m1] != p[m2]
    &&& forall|o: int| 0 <= o < k ==> #[trigger] occurs(p, o)
}

/// `o` occurs in `p`.
pub open spec fn occurs(p: Seq<int>, o: int) -> bool {
    exists|m: int| 0 <= m < p.len() && p[m] == o
}

/// Where `o` sits in `p`.
pub open spec fn pos_of(p: Seq<int>, o: int) -> int {
    choose|m: int| 0 <= m < p.len() && p[m] == o
}

/// Where each line goes when sorted: line `o` to `map[o]`.
pub open spec fn sort_map(lines: Seq<Seq<char>>, desc: bool, by: SortKey) -> Seq<Option<usize>> {
    Seq::new(lines.len(), |o: int| Some(pos_of(sort_perm(lines, lines.len(), desc, by), o) as usize))
}

/// Indices as integers.
pub open spec fn ints(v: Seq<usize>) -> Seq<int> {
    v.map_values(|u: usize| u as int)
}

/// Inserting `x` at `j`, after the last index that may stay before it, is
/// what [`ins_idx`] does.
proof fn lemma_ins_at(lines: Seq<Seq<char>>, s: Seq<int>, x: int, j: int, desc: bool, by: SortKey)
    requires
        0 <= j <= s.len(),
        forall|m: int| j <= m < s.len() ==> !stays_before(lines, #[trigger] s[m], x, desc, by),
        j == 0 || stays_before(lines, s[j - 1], x, desc, by),
    ensures
        ins_idx(lines, s, x, desc, by) == s.insert(j, x),
    decreases s.len(),
{
    if s.len() == 0 {
        assert(s.insert(j, x) =~= seq![x]);
    } else if j == s.len() {
        assert(s.insert(j, x) =~= s.push(x));
    } else {
        let d = s.drop_last();
        assert(!stays_before(lines, s[s.len() - 1], x, desc, by));
        assert forall|m: int| j <= m < d.len() implies !stays_before(lines, #[trigger] d[m], x, desc, by) by {
            assert(d[m] == s[m]);
        }
        if j > 0 {
            assert(d[j - 1] == s[j - 1]);
        }
        lemma_ins_at(lines, d, x, j, desc, by);
        assert(d.insert(j, x).push(s.last()) =~= s.insert(j, x));
    }
}

/// Inserting the next index keeps a permutation.
proof fn lemma_ins_perm(s: Seq<int>, k: int, j: int)
    requires
        is_perm(s, k),
        0 <= j <= s.len(),
    ensures
        is_perm(s.insert(j, k), k + 1),
{
    let t = s.insert(j, k);
    assert forall|m: int| 0 <= m < t.len() implies #[trigger] t[m] == (if m < j { s[m] } else if m == j { k } else { s[m - 1] }) by {
    }
    assert forall|m1: int, m2: int| 0 <= m1 < m2 < t.len() implies t[m1] != t[m2] by {
        assert(t[m1] == (if m1 < j { s[m1] } else if m1 == j { k } else { s[m1 - 1] }));
        assert(t[m2] == (if m2 < j { s[m2] } else if m2 == j { k } else { s[m2 - 1] }));
        if m1 < j && m2 > j {
            assert(s[m1] != s[m2 - 1]);
        }
    }
    assert forall|o: int| 0 <= o < k + 1 implies #[trigger] occurs(t, o) by {
        if o == k {
            assert(t[j] == k);
        } else {
            assert(occurs(s, o));
            let m = choose|m: int| 0 <= m < s.len() && s[m] == o;
            if m < j {
                assert(t[m] == o);
            } else {
                assert(t[m + 1] == o);
            }
        }
    }
}

/// The stable sorted order of `lines`, as indices.
pub fn stable_sort_perm(lines: &Vec<Vec<char>>, desc: bool, by: SortKey) -> (p: Vec<usize>)
    ensures
        ints(p@) == sort_perm(texts(lines@), lines@.len(), desc, by),
        is_perm(ints(p@), lines@.len() as int),
{
    let ghost ls = texts(lines@);
    let mut perm: Vec<usize> = Vec::new();
    let mut k: usize = 0;
    proof {
        assert(ints(perm@) =~= sort_perm(ls, 0, desc, by));
    }
    while k < lines.len()
        invariant
            k <= lines@.len(),
            ls == texts(lines@),
            ints(perm@) == sort_perm(ls, k as nat, desc, by),
            is_perm(ints(perm@), k as int),
        decreases lines@.len() - k,
    {
        let mut j = perm.len();
        let mut done = false;
        while j > 0 && !done
            invariant
                j <= perm@.len() == k,
                k < lines@.len(),
                ls == texts(lines@),
                is_perm(ints(perm@), k as int),
                forall|m: int| j <= m < perm@.len() ==> !stays_before(ls, #[trigger] ints(perm@)[m], k as int, desc, by),
                done ==> j > 0 && stays_before(ls, ints(perm@)[j - 1], k as int, desc, by),
            decreases j + (if done { 0int } else { 1int }),
        {
            let y = perm[j - 1];
            assert(ints(perm@)[j - 1] == y as int);
            assert(y < k);
            let keep = line_before_chars(by, lines[y].as_slice(), lines[k].as_slice(), desc);
            if keep {
                done = true;
            } else {
                j = j - 1;
            }
        }
        proof {
            lemma_ins_at(ls, ints(perm@), k as int, j as int, desc, by);
            lemma_ins_perm(ints(perm@), k as int, j as int);
        }
        let ghost before = perm@;
        perm.insert(j, k);
        proof {
            assert(ints(perm@) =~= ints(before).insert(j as int, k as int));
        }
        k = k + 1;
    }
    perm
}

/// The inverse of a permutation: `map[p[m]] == Some(m)`.
pub fn inverse_map(p: &Vec<usize>) -> (map: Vec<Option<usize>>)
    requires
        is_perm(ints(p@), p@.len() as int),
    ensures
        map@ == Seq::new(p@.len(), |o: int| Some(pos_of(ints(p@), o) as usize)),
{
    let n = p.len();
    let ghost q = ints(p@);
    let mut map: Vec<Option<usize>> = Vec::new();
    let mut i: usize = 0;
    while i < n
        invariant
            i <= n,
            map@.len() == i,
        decreases n - i,
    {
        map.push(None);
        i = i + 1;
    }
    let mut m: usize = 0;
    while m < n
        invariant
            m <= n == p@.len(),
            q == ints(p@),
            is_perm(q, n as int),
            map@.len() == n,
            forall|m2: int| 0 <= m2 < m ==> map@[#[trigger] q[m2]] == Some(m2 as usize),
        decreases n - m,
    {
        let o = p[m];
        assert(q[m as int] == o as int);
        map.set(o, Some(m));
        proof {
            assert forall|m2: int| 0 <= m2 < m + 1 implies map@[#[trigger] q[m2]] == Some(m2 as usize) by {
                if m2 < m {
                    assert(q[m2] != q[m as int]);
                }
            }
        }
        m = m + 1;
    }
    proof {
        assert forall|o: int| 0 <= o < n implies map@[o] == Some(pos_of(q, o) as usize) by {
            assert(occurs(q, o));
            let m0 = choose|m0: int| 0 <= m0 < q.len() && q[m0] == o;
            let m1 = pos_of(q, o);
            assert(map@[q[m0]] == Some(m0 as usize));
            if m0 < m1 {
                assert(q[m0] != q[m1]);
            } else if m1 < m0 {
                assert(q[m1] != q[m0]);
            }
        }
        assert(map@ =~= Seq::new(p@.len(), |o: int| Some(pos_of(q, o) as usize)));
    }
    map
}

/// Code-point order is total.
pub proof fn lemma_lex_total(a: Seq<char>, b: Seq<char>)
    ensures
        lex_le(a, b) || lex_le(b, a),
    decreases a.len(),
{
    if a.len() > 0 && b.len() > 0 {
        if a[0] == b[0] {
            lemma_lex_total(a.drop_first(), b.drop_first());
        }
    }
}

/// Code-point order is transitive.
pub proof fn lemma_lex_trans(a: Seq<char>, b: Seq<char>, c: Seq<char>)
    requires
        lex_le(a, b),
        lex_le(b, c),
    ensures
        lex_le(a, c),
    decreases a.len(),
{
    if a.len() > 0 && b.len() > 0 && c.len() > 0 && a[0] == b[0] && b[0] == c[0] {
        lemma_lex_trans(a.drop_first(), b.drop_first(), c.drop_first());
    }
}

/// The indices `s` are in sorted order.
pub open spec fn in_order(lines: Seq<Seq<char>>, s: Seq<int>, desc: bool, by: SortKey) -> bool {
    forall|m1: int, m2: int| 0 <= m1 < m2 < s.len() ==> stays_before(lines, #[trigger] s[m1], #[trigger] s[m2], desc, by)
}

/// What [`ins_idx`] holds: the old indices and the new one.
proof fn lemma_ins_elems(lines: Seq<Seq<char>>, s: Seq<int>, x: int, desc: bool, by: SortKey)
    ensures
        ins_idx(lines, s, x, desc, by).len() == s.len() + 1,
        forall|m: int| 0 <= m < ins_idx(lines, s, x, desc, by).len() ==> #[trigger] ins_idx(lines, s, x, desc, by)[m] == x
            || s.contains(ins_idx(lines, s, x, desc, by)[m]),
    decreases s.len(),
{
    if s.len() > 0 && !stays_before(lines, s.last(), x, desc, by) {
        let d = s.drop_last();
        lemma_ins_elems(lines, d, x, desc, by);
        let r = ins_idx(lines, d, x, desc, by);
        assert forall|m: int| 0 <= m < r.push(s.last()).len() implies #[trigger] r.push(s.last())[m] == x
            || s.contains(r.push(s.last())[m]) by {
            if m < r.len() {
                if r[m] != x {
                    assert(d.contains(r[m]));
                    let w = choose|w: int| 0 <= w < d.len() && d[w] == r[m];
                    assert(s[w] == r[m]);
                }
            } else {
                assert(s[s.len() - 1] == s.last());
            }
        }
    } else if s.len() > 0 {
        assert forall|m: int| 0 <= m < s.push(x).len() implies #[trigger] s.push(x)[m] == x || s.contains(s.push(x)[m]) by {
            if m < s.len() {
                assert(s[m] == s.push(x)[m]);
            }
        }
    }
}

/// The relation [`stays_before`] is total and transitive.
proof fn lemma_stays(lines: Seq<Seq<char>>, a: int, b: int, c: int, desc: bool, by: SortKey)
    ensures
        stays_before(lines, a, b, desc, by) || stays_before(lines, b, a, desc, by),
        stays_before(lines, a, b, desc, by) && stays_before(lines, b, c, desc, by) ==> stays_before(lines, a, c, desc, by),
{
    if by == SortKey::Text {
        lemma_lex_total(lines[a], lines[b]);
        if stays_before(lines, a, b, desc, by) && stays_before(lines, b, c, desc, by) {
            if desc {
                lemma_lex_trans(lines[c], lines[b], lines[a]);
            } else {
                lemma_lex_trans(lines[a], lines[b], lines[c]);
            }
        }
    }
}

/// Placing an index keeps the order.
proof fn lemma_ins_sorted(lines: Seq<Seq<char>>, s: Seq<int>, x: int, desc: bool, by: SortKey)
    requires
        in_order(lines, s, desc, by),
    ensures
        in_order(lines, ins_idx(lines, s, x, desc, by), desc, by),
    decreases s.len(),
{
    if s.len() == 0 {
    } else if stays_before(lines, s.last(), x, desc, by) {
        let t = s.push(x);
        assert forall|m1: int, m2: int| 0 <= m1 < m2 < t.len() implies stays_before(lines, #[trigger] t[m1], #[trigger] t[m2], desc, by) by {
            if m2 < s.len() {
                assert(t[m1] == s[m1] && t[m2] == s[m2]);
            } else {
                assert(t[m1] == s[m1]);
                if m1 < s.len() - 1 {
                    assert(stays_before(lines, s[m1], s[s.len() - 1], desc, by));
                    lemma_stays(lines, s[m1], s[s.len() - 1], x, desc, by);
                }
            }
        }
    } else {
        let d = s.drop_last();
        assert(in_order(lines, d, desc, by)) by {
            assert forall|m1: int, m2: int| 0 <= m1 < m2 < d.len() implies stays_before(lines, #[trigger] d[m1], #[trigger] d[m2], desc, by) by {
                assert(d[m1] == s[m1] && d[m2] == s[m2]);
            }
        }
        lemma_ins_sorted(lines, d, x, desc, by);
        lemma_ins_elems(lines, d, x, desc, by);
        let r = ins_idx(lines, d, x, desc, by);
        let t = r.push(s.last());
        lemma_stays(lines, s.last(), x, s.last(), desc, by);
        assert forall|m1: int, m2: int| 0 <= m1 < m2 < t.len() implies stays_before(lines, #[trigger] t[m1], #[trigger] t[m2], desc, by) by {
            if m2 < r.len() {
                assert(t[m1] == r[m1] && t[m2] == r[m2]);
            } else {
                assert(t[m1] == r[m1]);
                if r[m1] != x {
                    assert(d.contains(r[m1]));
                    let w = choose|w: int| 0 <= w < d.len() && d[w] == r[m1];
                    assert(s[w] == r[m1]);
                    assert(stays_before(lines, s[w], s[s.len() - 1], desc, by));
                }
            }
        }
    }
}

/// The first `k` indices in sorted order are in order.
proof fn lemma_sort_perm_in_order(lines: Seq<Seq<char>>, k: nat, desc: bool, by: SortKey)
    ensures
        in_order(lines, sort_perm(lines, k, desc, by), desc, by),
        sort_perm(lines, k, desc, by).len() == k,
    decreases k,
{
    if k > 0 {
        lemma_sort_perm_in_order(lines, (k - 1) as nat, desc, by);
        lemma_ins_sorted(lines, sort_perm(lines, (k - 1) as nat, desc, by), k - 1, desc, by);
        lemma_ins_elems(lines, sort_perm(lines, (k - 1) as nat, desc, by), k - 1, desc, by);
    }
}

/// [`ins_idx`] inserts the index somewhere.
proof fn lemma_ins_idx_insert(lines: Seq<Seq<char>>, s: Seq<int>, x: int, desc: bool, by: SortKey) -> (j: int)
    ensures
        0 <= j <= s.len(),
        ins_idx(lines, s, x, desc, by) == s.insert(j, x),
    decreases s.len(),
{
    if s.len() == 0 {
        assert(s.insert(0, x) =~= seq![x]);
        0
    } else if stays_before(lines, s.last(), x, desc, by) {
        assert(s.insert(s.len() as int, x) =~= s.push(x));
        s.len() as int
    } else {
        let d = s.drop_last();
        let j = lemma_ins_idx_insert(lines, d, x, desc, by);
        assert(d.insert(j, x).push(s.last()) =~= s.insert(j, x));
        j
    }
}

/// The sorted indices are a rearrangement of `0..k`.
proof fn lemma_sort_perm_is_perm(lines: Seq<Seq<char>>, k: nat, desc: bool, by: SortKey)
    ensures
        is_perm(sort_perm(lines, k, desc, by), k as int),
    decreases k,
{
    if k == 0 {
        assert forall|o: int| 0 <= o < 0 implies #[trigger] occurs(sort_perm(lines, 0, desc, by), o) by {}
    } else {
        lemma_sort_perm_is_perm(lines, (k - 1) as nat, desc, by);
        let s = sort_perm(lines, (k - 1) as nat, desc, by);
        let j = lemma_ins_idx_insert(lines, s, k - 1, desc, by);
        lemma_ins_perm(s, k - 1, j);
    }
}

/// Sorting rearranges the lines (each line of the input is used exactly once)
/// and puts them in order: each line of the result may stay before every
/// later one by the chosen key and direction (see [`line_before`]).
pub proof fn law_sorted_lines_in_order(lines: Seq<Seq<char>>, desc: bool, by: SortKey)
    ensures
        sorted_lines(lines, desc, by).len() == lines.len(),
        is_perm(sort_perm(lines, lines.len(), desc, by), lines.len() as int),
        forall|i: int, j: int|
            0 <= i < j < lines.len() ==> line_before(by, #[trigger] sorted_lines(lines, desc, by)[i],
                #[trigger] sorted_lines(lines, desc, by)[j], desc),
{
    lemma_sort_perm_in_order(lines, lines.len(), desc, by);
    lemma_sort_perm_is_perm(lines, lines.len(), desc, by);
    let p = sort_perm(lines, lines.len(), desc, by);
    assert forall|i: int, j: int| 0 <= i < j < lines.len() implies line_before(by,
        #[trigger] sorted_lines(lines, desc, by)[i], #[trigger] sorted_lines(lines, desc, by)[j], desc) by {
        assert(stays_before(lines, p[i], p[j], desc, by));
    }
}

} // verus!
