//! Extra cursors: adding and removing them, keeping them ordered and
//! unique, stepping them along their lines, editing at all of them at once,
//! and adding a cursor at the next occurrence of the current word.

use vstd::prelude::*;
use crate::document::LineV;
use crate::editor::{CursorPos, EditorCore, ExtraCursor, pos_in};

verus! {

/// At most this many extra cursors.
pub const MAX_EXTRA_CURSORS: usize = 1000;

/// `a` comes strictly before `b` in document order.
pub open spec fn pos_lt(a: CursorPos, b: CursorPos) -> bool {
    a.line < b.line || (a.line == b.line && a.col < b.col)
}

/// Cursors strictly ordered by position.
pub open spec fn extras_sorted(xs: Seq<ExtraCursor>) -> bool {
    forall|i: int, j: int| 0 <= i < j < xs.len() ==> pos_lt(#[trigger] xs[i].cursor, #[trigger] xs[j].cursor)
}

/// Every cursor and anchor of `xs` lies on the lines `ls`.
pub open spec fn extras_on(ls: Seq<LineV>, xs: Seq<ExtraCursor>) -> bool {
    forall|i: int|
        0 <= i < xs.len() ==> pos_in(ls, #[trigger] xs[i].cursor) && (xs[i].anchor matches Some(a) ==> pos_in(ls, a))
}

/// Index of the first cursor of `xs` at `p` (with an anchor, when
/// `need_anchor`); -1 if there is none.
pub open spec fn first_at(xs: Seq<ExtraCursor>, p: CursorPos, need_anchor: bool) -> int
    decreases xs.len(),
{
    if xs.len() == 0 {
        -1
    } else {
        let r = first_at(xs.drop_last(), p, need_anchor);
        if r >= 0 {
            r
        } else if xs.last().cursor == p && (!need_anchor || xs.last().anchor is Some) {
            xs.len() - 1
        } else {
            -1
        }
    }
}

/// The cursor kept for position `p` when duplicates are merged: the first
/// one there that has a selection, else the first one there.
pub open spec fn keeper(xs: Seq<ExtraCursor>, p: CursorPos) -> ExtraCursor {
    let a = first_at(xs, p, true);
    if a >= 0 {
        xs[a]
    } else {
        xs[first_at(xs, p, false)]
    }
}

/// `r` is `xs` ordered by position with one cursor per position, chosen by
/// [`keeper`].
pub open spec fn dedup_of(r: Seq<ExtraCursor>, xs: Seq<ExtraCursor>) -> bool {
    &&& extras_sorted(r)
    &&& forall|i: int|
        0 <= i < r.len() ==> first_at(xs, #[trigger] r[i].cursor, false) >= 0 && r[i] == keeper(xs, r[i].cursor)
    &&& forall|k: int| 0 <= k < xs.len() ==> exists|i: int| 0 <= i < r.len() && #[trigger] r[i].cursor == #[trigger] xs[k].cursor
}

impl EditorCore {
    /// The extra cursors lie on the document.
    pub open spec fn extras_ok(&self) -> bool {
        extras_on(self.ls(), self.extra_cursors@)
    }
}

/// `pos_lt` for exec code.
fn pos_before(a: CursorPos, b: CursorPos) -> (r: bool)
    ensures
        r == pos_lt(a, b),
{
    a.line < b.line || (a.line == b.line && a.col < b.col)
}

/// The first match of a position, after one more cursor.
proof fn lemma_first_at_push(xs: Seq<ExtraCursor>, x: ExtraCursor, p: CursorPos, need_anchor: bool)
    ensures
        first_at(xs.push(x), p, need_anchor) == if first_at(xs, p, need_anchor) >= 0 {
            first_at(xs, p, need_anchor)
        } else if x.cursor == p && (!need_anchor || x.anchor is Some) {
            xs.len() as int
        } else {
            -1
        },
{
    assert(xs.push(x).drop_last() =~= xs);
}

/// A first match is a match.
proof fn lemma_first_at_valid(xs: Seq<ExtraCursor>, p: CursorPos, need_anchor: bool)
    ensures
        -1 <= first_at(xs, p, need_anchor) < xs.len(),
        first_at(xs, p, need_anchor) >= 0 ==> xs[first_at(xs, p, need_anchor)].cursor == p,
        first_at(xs, p, need_anchor) >= 0 && need_anchor ==> xs[first_at(xs, p, need_anchor)].anchor is Some,
        first_at(xs, p, need_anchor) < 0 ==> forall|k: int|
            0 <= k < xs.len() ==> !(#[trigger] xs[k].cursor == p && (!need_anchor || xs[k].anchor is Some)),
        forall|k: int|
            0 <= k < first_at(xs, p, need_anchor) ==> !(#[trigger] xs[k].cursor == p && (!need_anchor || xs[k].anchor is Some)),
    decreases xs.len(),
{
    if xs.len() > 0 {
        lemma_first_at_valid(xs.drop_last(), p, need_anchor);
        assert forall|k: int| 0 <= k < xs.len() - 1 implies xs.drop_last()[k] == xs[k] by {}
    }
}

/// A cursor with an anchor at `p` makes the anchored search succeed; any
/// cursor at `p` makes the plain one succeed.
proof fn lemma_first_at_found(xs: Seq<ExtraCursor>, p: CursorPos, k: int)
    requires
        0 <= k < xs.len(),
        xs[k].cursor == p,
    ensures
        first_at(xs, p, false) >= 0,
        xs[k].anchor is Some ==> first_at(xs, p, true) >= 0,
{
    lemma_first_at_valid(xs, p, false);
    lemma_first_at_valid(xs, p, true);
}

/// Merging after one more cursor.
proof fn lemma_keeper_push(xs: Seq<ExtraCursor>, x: ExtraCursor, p: CursorPos)
    requires
        first_at(xs, p, false) >= 0,
    ensures
        keeper(xs.push(x), p) == if p == x.cursor && first_at(xs, p, true) < 0 && x.anchor is Some {
            x
        } else {
            keeper(xs, p)
        },
{
    lemma_first_at_push(xs, x, p, true);
    lemma_first_at_push(xs, x, p, false);
    lemma_first_at_valid(xs, p, true);
    lemma_first_at_valid(xs, p, false);
}

/// `xs` ordered by position, one cursor per position (see [`dedup_of`]).
pub(crate) fn sorted_dedup(xs: &Vec<ExtraCursor>) -> (r: Vec<ExtraCursor>)
    ensures
        dedup_of(r@, xs@),
        r@.len() <= xs@.len(),
{
    let mut r: Vec<ExtraCursor> = Vec::new();
    let mut i: usize = 0;
    proof {
        assert(xs@.take(0) =~= Seq::<ExtraCursor>::empty());
    }
    while i < xs.len()
        invariant
            i <= xs@.len(),
            dedup_of(r@, xs@.take(i as int)),
            r@.len() <= i,
        decreases xs@.len() - i,
    {
        let x = xs[i];
        let ghost pre = xs@.take(i as int);
        let ghost old_r = r@;
        proof {
            assert(xs@.take(i + 1) =~= pre.push(x));
        }
        let mut j: usize = 0;
        while j < r.len() && pos_before(r[j].cursor, x.cursor)
            invariant
                r@ == old_r,
                j <= r@.len(),
                forall|k: int| 0 <= k < j ==> pos_lt(#[trigger] r@[k].cursor, x.cursor),
            decreases r@.len() - j,
        {
            j = j + 1;
        }
        if j < r.len() && r[j].cursor == x.cursor {
            let replace = r[j].anchor.is_none() && x.anchor.is_some();
            proof {
                let p = x.cursor;
                lemma_first_at_valid(pre, p, true);
                assert(old_r[j as int] == keeper(pre, p));
                if first_at(pre, p, true) >= 0 {
                    assert(keeper(pre, p).anchor is Some);
                }
            }
            if replace {
                r.set(j, x);
            }
            proof {
                let post = pre.push(x);
                assert forall|q: int| 0 <= q < r@.len() implies first_at(post, #[trigger] r@[q].cursor, false) >= 0
                    && r@[q] == keeper(post, r@[q].cursor) by {
                    lemma_keeper_push(pre, x, old_r[q].cursor);
                    lemma_first_at_push(pre, x, old_r[q].cursor, false);
                    if q == j {
                        lemma_first_at_valid(pre, x.cursor, true);
                        lemma_first_at_valid(pre, x.cursor, false);
                        if first_at(pre, x.cursor, true) < 0 {
                            let f = first_at(pre, x.cursor, false);
                            assert(pre[f].cursor == x.cursor);
                            assert(keeper(pre, x.cursor).anchor is None);
                        }
                    } else {
                        assert(r@[q] == old_r[q]);
                        if q < j {
                            assert(pos_lt(old_r[q].cursor, old_r[j as int].cursor));
                        } else {
                            assert(pos_lt(old_r[j as int].cursor, old_r[q].cursor));
                        }
                    }
                }
                assert forall|k: int| 0 <= k < post.len() implies exists|q: int|
                    0 <= q < r@.len() && #[trigger] r@[q].cursor == #[trigger] post[k].cursor by {
                    if k < pre.len() {
                        assert(post[k] == pre[k]);
                        let q = choose|q: int| 0 <= q < old_r.len() && #[trigger] old_r[q].cursor == #[trigger] pre[k].cursor;
                        assert(r@[q].cursor == post[k].cursor);
                    } else {
                        assert(r@[j as int].cursor == post[k].cursor);
                    }
                }
            }
        } else {
            r.insert(j, x);
            proof {
                let post = pre.push(x);
                let p = x.cursor;
                assert forall|q: int| j < q < r@.len() implies pos_lt(x.cursor, #[trigger] r@[q].cursor) by {
                    assert(r@[q] == old_r[q - 1]);
                    if q - 1 > j {
                        assert(pos_lt(old_r[j as int].cursor, old_r[q - 1].cursor));
                    }
                }
                assert(first_at(pre, p, false) < 0) by {
                    if first_at(pre, p, false) >= 0 {
                        lemma_first_at_valid(pre, p, false);
                        let k = first_at(pre, p, false);
                        let q = choose|q: int| 0 <= q < old_r.len() && #[trigger] old_r[q].cursor == #[trigger] pre[k].cursor;
                        if q < j {
                            assert(pos_lt(old_r[q].cursor, x.cursor));
                        } else if q > j {
                            assert(pos_lt(old_r[j as int].cursor, old_r[q].cursor));
                        }
                    }
                }
                lemma_first_at_valid(pre, p, true);
                assert(first_at(pre, p, true) < 0);
                lemma_first_at_push(pre, x, p, false);
                lemma_first_at_push(pre, x, p, true);
                assert forall|a: int, b: int| 0 <= a < b < r@.len() implies pos_lt(#[trigger] r@[a].cursor, #[trigger] r@[b].cursor) by {
                    if b < j {
                        assert(r@[a] == old_r[a] && r@[b] == old_r[b]);
                    } else if b == j {
                        assert(r@[a] == old_r[a]);
                    } else if a == j {
                    } else if a < j {
                        assert(r@[a] == old_r[a]);
                        assert(pos_lt(x.cursor, r@[b].cursor));
                    } else {
                        assert(r@[a] == old_r[a - 1] && r@[b] == old_r[b - 1]);
                    }
                }
                assert forall|q: int| 0 <= q < r@.len() implies first_at(post, #[trigger] r@[q].cursor, false) >= 0
                    && r@[q] == keeper(post, r@[q].cursor) by {
                    if q != j {
                        let oq = if q < j { q } else { q - 1 };
                        assert(r@[q] == old_r[oq]);
                        lemma_keeper_push(pre, x, old_r[oq].cursor);
                        lemma_first_at_push(pre, x, old_r[oq].cursor, false);
                    } else {
                        lemma_first_at_valid(post, p, false);
                        lemma_first_at_valid(post, p, true);
                    }
                }
                assert forall|k: int| 0 <= k < post.len() implies exists|q: int|
                    0 <= q < r@.len() && #[trigger] r@[q].cursor == #[trigger] post[k].cursor by {
                    if k < pre.len() {
                        assert(post[k] == pre[k]);
                        let q = choose|q: int| 0 <= q < old_r.len() && #[trigger] old_r[q].cursor == #[trigger] pre[k].cursor;
                        if q < j {
                            assert(r@[q].cursor == post[k].cursor);
                        } else {
                            assert(r@[q + 1].cursor == post[k].cursor);
                        }
                    } else {
                        assert(r@[j as int].cursor == post[k].cursor);
                    }
                }
            }
        }
        i = i + 1;
    }
    proof {
        assert(xs@.take(i as int) =~= xs@);
    }
    r
}

/// The length of line `l` of `ls` (0 past the last line).
pub open spec fn line_len(ls: Seq<LineV>, l: int) -> int {
    if 0 <= l < ls.len() { ls[l].body.len() as int } else { 0 }
}

/// Whether a cursor can take one step along its line.
pub open spec fn can_step(ls: Seq<LineV>, e: ExtraCursor, right: bool) -> bool {
    if right { e.cursor.col < line_len(ls, e.cursor.line as int) } else { e.cursor.col > 0 }
}

/// A cursor one step further along its line (its anchor stays).
pub open spec fn step_one(e: ExtraCursor, right: bool) -> ExtraCursor {
    ExtraCursor {
        cursor: CursorPos {
            line: e.cursor.line,
            col: if right { (e.cursor.col + 1) as usize } else { (e.cursor.col - 1) as usize },
        },
        anchor: e.anchor,
    }
}

/// The main cursor after one step along its line (it stays at the end of
/// its way).
pub open spec fn main_step(ls: Seq<LineV>, p: CursorPos, right: bool) -> CursorPos {
    let e = ExtraCursor { cursor: p, anchor: None };
    if can_step(ls, e, right) { step_one(e, right).cursor } else { p }
}

/// The cursors after one step each: those at the end of their way (line
/// start for a step left, line end for a step right) are dropped.
pub open spec fn stepped(ls: Seq<LineV>, xs: Seq<ExtraCursor>, right: bool) -> Seq<ExtraCursor>
    decreases xs.len(),
{
    if xs.len() == 0 {
        seq![]
    } else {
        let r = stepped(ls, xs.drop_last(), right);
        if can_step(ls, xs.last(), right) { r.push(step_one(xs.last(), right)) } else { r }
    }
}

/// `x` is one of the cursors `s`.
#[verifier::opaque]
pub open spec fn in_list(x: ExtraCursor, s: Seq<ExtraCursor>) -> bool {
    exists|j: int| 0 <= j < s.len() && s[j] == x
}

/// Every cursor of `a` is one of `b`.
pub open spec fn all_in(a: Seq<ExtraCursor>, b: Seq<ExtraCursor>) -> bool {
    forall|i: int| 0 <= i < a.len() ==> in_list(#[trigger] a[i], b)
}

/// A witness for [`in_list`].
proof fn lemma_in_list_at(x: ExtraCursor, s: Seq<ExtraCursor>) -> (j: int)
    requires
        in_list(x, s),
    ensures
        0 <= j < s.len(),
        s[j] == x,
{
    reveal(in_list);
    choose|j: int| 0 <= j < s.len() && s[j] == x
}

/// [`in_list`] from a witness.
proof fn lemma_in_list_of(x: ExtraCursor, s: Seq<ExtraCursor>, j: int)
    requires
        0 <= j < s.len(),
        s[j] == x,
    ensures
        in_list(x, s),
{
    reveal(in_list);
}

/// The tail of an ordered list is ordered.
proof fn lemma_sorted_tail(a: Seq<ExtraCursor>)
    requires
        extras_sorted(a),
        a.len() > 0,
    ensures
        extras_sorted(a.drop_first()),
{
    let t = a.drop_first();
    assert forall|i: int, j: int| 0 <= i < j < t.len() implies pos_lt(#[trigger] t[i].cursor, #[trigger] t[j].cursor) by {
        assert(t[i] == a[i + 1] && t[j] == a[j + 1]);
    }
}

/// Ordered lists holding the same cursors start with the same one.
proof fn lemma_same_head(a: Seq<ExtraCursor>, b: Seq<ExtraCursor>)
    requires
        extras_sorted(a),
        extras_sorted(b),
        a.len() > 0,
        b.len() > 0,
        in_list(a[0], b),
        in_list(b[0], a),
    ensures
        a[0] == b[0],
{
    let j0 = lemma_in_list_at(a[0], b);
    let i0 = lemma_in_list_at(b[0], a);
    if j0 > 0 {
        assert(pos_lt(b[0].cursor, b[j0].cursor));
        if i0 > 0 {
            assert(pos_lt(a[0].cursor, a[i0].cursor));
        }
    }
}

/// After a common head, the tails hold each other's cursors.
proof fn lemma_tail_in(a: Seq<ExtraCursor>, b: Seq<ExtraCursor>)
    requires
        extras_sorted(a),
        extras_sorted(b),
        a.len() > 0,
        b.len() > 0,
        a[0] == b[0],
        all_in(a, b),
    ensures
        all_in(a.drop_first(), b.drop_first()),
{
    let ta = a.drop_first();
    let tb = b.drop_first();
    assert forall|i: int| 0 <= i < ta.len() implies in_list(#[trigger] ta[i], tb) by {
        assert(ta[i] == a[i + 1]);
        assert(in_list(a[i + 1], b));
        let j = lemma_in_list_at(a[i + 1], b);
        assert(pos_lt(a[0].cursor, a[i + 1].cursor));
        assert(j != 0);
        assert(tb[j - 1] == b[j]);
        lemma_in_list_of(ta[i], tb, j - 1);
    }
}

/// Two lists of cursors, each strictly ordered by position, that hold the
/// same cursors are the same list.
proof fn lemma_sorted_same_eq(a: Seq<ExtraCursor>, b: Seq<ExtraCursor>)
    requires
        extras_sorted(a),
        extras_sorted(b),
        all_in(a, b),
        all_in(b, a),
    ensures
        a == b,
    decreases a.len(),
{
    if a.len() == 0 {
        if b.len() > 0 {
            assert(in_list(b[0], a));
            let i = lemma_in_list_at(b[0], a);
        }
        assert(a =~= b);
    } else if b.len() == 0 {
        assert(in_list(a[0], b));
        let j = lemma_in_list_at(a[0], b);
    } else {
        assert(in_list(a[0], b));
        assert(in_list(b[0], a));
        lemma_same_head(a, b);
        lemma_tail_in(a, b);
        lemma_tail_in(b, a);
        lemma_sorted_tail(a);
        lemma_sorted_tail(b);
        lemma_sorted_same_eq(a.drop_first(), b.drop_first());
        assert(a =~= seq![a[0]] + a.drop_first());
        assert(b =~= seq![b[0]] + b.drop_first());
    }
}

/// Adding an extra cursor where there is none and then toggling it again
/// gives back the cursors there were: the added cursor is found and
/// removing it leaves exactly the earlier list.
pub proof fn law_toggle_extra_twice(xs: Seq<ExtraCursor>, at: CursorPos, r: Seq<ExtraCursor>)
    requires
        extras_sorted(xs),
        first_at(xs, at, false) < 0,
        dedup_of(r, xs.push(ExtraCursor { cursor: at, anchor: None })),
    ensures
        first_at(r, at, false) >= 0,
        r.remove(first_at(r, at, false)) == xs,
{
    let n = ExtraCursor { cursor: at, anchor: None };
    let ys = xs.push(n);
    assert(ys[xs.len() as int].cursor == at);
    let i1 = choose|i: int| 0 <= i < r.len() && #[trigger] r[i].cursor == #[trigger] ys[xs.len() as int].cursor;
    lemma_first_at_found(r, at, i1);
    lemma_first_at_valid(r, at, false);
    lemma_first_at_valid(xs, at, false);
    let k0 = first_at(r, at, false);
    let t = r.remove(k0);
    assert(extras_sorted(t)) by {
        assert forall|i: int, j: int| 0 <= i < j < t.len() implies pos_lt(#[trigger] t[i].cursor, #[trigger] t[j].cursor) by {
            let ri = if i < k0 { i } else { i + 1 };
            let rj = if j < k0 { j } else { j + 1 };
            assert(t[i] == r[ri] && t[j] == r[rj]);
        }
    }
    assert forall|i: int| 0 <= i < t.len() implies in_list(#[trigger] t[i], xs) by {
        lemma_kept_from_xs(xs, at, r, k0, i);
    }
    assert forall|j: int| 0 <= j < xs.len() implies in_list(#[trigger] xs[j], t) by {
        lemma_xs_kept(xs, at, r, k0, j);
    }
    lemma_sorted_same_eq(t, xs);
}

/// A cursor left after removing the added one came from the earlier list.
proof fn lemma_kept_from_xs(xs: Seq<ExtraCursor>, at: CursorPos, r: Seq<ExtraCursor>, k0: int, i: int)
    requires
        extras_sorted(xs),
        dedup_of(r, xs.push(ExtraCursor { cursor: at, anchor: None })),
        0 <= k0 < r.len(),
        r[k0].cursor == at,
        0 <= i < r.len() - 1,
    ensures
        in_list(r.remove(k0)[i], xs),
{
    let n = ExtraCursor { cursor: at, anchor: None };
    let ys = xs.push(n);
    let t = r.remove(k0);
    let ri = if i < k0 { i } else { i + 1 };
    assert(t[i] == r[ri]);
    let p = r[ri].cursor;
    assert(p != at) by {
        if ri < k0 {
            assert(pos_lt(r[ri].cursor, r[k0].cursor));
        } else {
            assert(pos_lt(r[k0].cursor, r[ri].cursor));
        }
    }
    assert(first_at(ys, p, false) >= 0 && r[ri] == keeper(ys, p));
    lemma_first_at_push(xs, n, p, false);
    lemma_keeper_push(xs, n, p);
    lemma_first_at_valid(xs, p, true);
    lemma_first_at_valid(xs, p, false);
    if first_at(xs, p, true) >= 0 {
        lemma_in_list_of(t[i], xs, first_at(xs, p, true));
    } else {
        lemma_in_list_of(t[i], xs, first_at(xs, p, false));
    }
}

/// Every cursor of the earlier list is left after removing the added one.
proof fn lemma_xs_kept(xs: Seq<ExtraCursor>, at: CursorPos, r: Seq<ExtraCursor>, k0: int, j: int)
    requires
        extras_sorted(xs),
        first_at(xs, at, false) < 0,
        dedup_of(r, xs.push(ExtraCursor { cursor: at, anchor: None })),
        0 <= k0 < r.len(),
        r[k0].cursor == at,
        0 <= j < xs.len(),
    ensures
        in_list(xs[j], r.remove(k0)),
{
    let n = ExtraCursor { cursor: at, anchor: None };
    let ys = xs.push(n);
    let t = r.remove(k0);
    assert(ys[j] == xs[j]);
    let i = choose|i: int| 0 <= i < r.len() && #[trigger] r[i].cursor == #[trigger] ys[j].cursor;
    let p = xs[j].cursor;
    lemma_first_at_valid(xs, at, false);
    assert(p != at);
    assert(i != k0);
    assert(r[i] == keeper(ys, p));
    lemma_first_at_found(xs, p, j);
    lemma_first_at_push(xs, n, p, false);
    lemma_keeper_push(xs, n, p);
    lemma_first_at_valid(xs, p, true);
    lemma_first_at_valid(xs, p, false);
    let q = if first_at(xs, p, true) >= 0 { first_at(xs, p, true) } else { first_at(xs, p, false) };
    assert(r[i] == xs[q]);
    if q < j {
        assert(pos_lt(xs[q].cursor, xs[j].cursor));
    } else if j < q {
        assert(pos_lt(xs[j].cursor, xs[q].cursor));
    }
    let ti = if i < k0 { i } else { i - 1 };
    assert(t[ti] == r[i]);
    lemma_in_list_of(xs[j], t, ti);
}

/// The cursors of a merged list are among those it was made from, so they lie on
/// the same lines.
pub(crate) proof fn lemma_dedup_on(ls: Seq<LineV>, r: Seq<ExtraCursor>, xs: Seq<ExtraCursor>)
    requires
        extras_on(ls, xs),
        dedup_of(r, xs),
    ensures
        extras_on(ls, r),
{
    assert forall|i: int| 0 <= i < r.len() implies pos_in(ls, #[trigger] r[i].cursor) && (r[i].anchor matches Some(a) ==> pos_in(ls, a)) by {
        lemma_first_at_valid(xs, r[i].cursor, true);
        lemma_first_at_valid(xs, r[i].cursor, false);
    }
}

impl EditorCore {
    /// Whether there are extra cursors.
    pub fn has_multi(&self) -> (r: bool)
        ensures
            r == (self.extra_cursors@.len() > 0),
    {
        self.extra_cursors.len() > 0
    }

    /// Drops the extra cursors; whether there were any.
    pub fn collapse_multi(&mut self) -> (had: bool)
        ensures
            had == (old(self).extra_cursors@.len() > 0),
            final(self).extra_cursors@ == Seq::<ExtraCursor>::empty(),
            *final(self) == (EditorCore { extra_cursors: final(self).extra_cursors, ..*old(self) }),
    {
        let had = self.extra_cursors.len() > 0;
        self.extra_cursors = Vec::new();
        had
    }

    /// Orders the extra cursors by position, one per position (see
    /// [`dedup_of`]).
    pub(crate) fn sort_dedup_cursors(&mut self)
        ensures
            dedup_of(final(self).extra_cursors@, old(self).extra_cursors@),
            final(self).extra_cursors@.len() <= old(self).extra_cursors@.len(),
            *final(self) == (EditorCore { extra_cursors: final(self).extra_cursors, ..*old(self) }),
    {
        let r = sorted_dedup(&self.extra_cursors);
        self.extra_cursors = r;
    }

    /// Adds an extra cursor at `at`, or removes the one there. Refused
    /// (`false`, nothing changes) while soft wrap, a column block or an IME
    /// composition is active, at the main cursor, and when adding past
    /// [`MAX_EXTRA_CURSORS`]. A change ends the typing run.
    pub fn toggle_extra_cursor(&mut self, at: CursorPos) -> (changed: bool)
        ensures
            ({
                let refused = old(self).wrap_enabled || old(self).block_sel is Some || old(self).preedit is Some
                    || at == old(self).cursor;
                let k = first_at(old(self).extra_cursors@, at, false);
                let full = old(self).extra_cursors@.len() >= MAX_EXTRA_CURSORS;
                &&& (refused || (k < 0 && full)) ==> !changed && *final(self) == *old(self)
                &&& (!refused && k >= 0) ==> changed
                    && final(self).extra_cursors@ == old(self).extra_cursors@.remove(k)
                &&& (!refused && k < 0 && !full) ==> changed
                    && dedup_of(final(self).extra_cursors@, old(self).extra_cursors@.push(ExtraCursor { cursor: at, anchor: None }))
                &&& changed ==> *final(self) == (EditorCore {
                    extra_cursors: final(self).extra_cursors,
                    typing_run: None,
                    ..*old(self)
                })
            }),
            old(self).extras_ok() && pos_in(old(self).ls(), at) ==> final(self).extras_ok(),
            extras_sorted(old(self).extra_cursors@) ==> extras_sorted(final(self).extra_cursors@),
            old(self).extra_cursors@.len() <= MAX_EXTRA_CURSORS ==> final(self).extra_cursors@.len() <= MAX_EXTRA_CURSORS,
    {
        if self.wrap_enabled || self.block_sel.is_some() || self.preedit.is_some() {
            return false;
        }
        if at == self.cursor {
            return false;
        }
        let mut i: usize = 0;
        while i < self.extra_cursors.len() && self.extra_cursors[i].cursor != at
            invariant
                i <= self.extra_cursors@.len(),
                forall|q: int| 0 <= q < i ==> #[trigger] self.extra_cursors@[q].cursor != at,
            decreases self.extra_cursors@.len() - i,
        {
            i = i + 1;
        }
        proof {
            lemma_first_at_valid(self.extra_cursors@, at, false);
        }
        if i < self.extra_cursors.len() {
            let ghost xs = self.extra_cursors@;
            proof {
                let k = first_at(xs, at, false);
                assert(k >= 0) by {
                    lemma_first_at_found(xs, at, i as int);
                }
                if k < i {
                    assert(xs[k].cursor != at);
                }
                assert(k == i);
            }
            self.extra_cursors.remove(i);
            self.typing_run = None;
            proof {
                assert forall|a: int, b: int| 0 <= a < b < self.extra_cursors@.len() && extras_sorted(xs) implies
                    pos_lt(#[trigger] self.extra_cursors@[a].cursor, #[trigger] self.extra_cursors@[b].cursor) by {
                    let oa = if a < i { a } else { a + 1 };
                    let ob = if b < i { b } else { b + 1 };
                    assert(self.extra_cursors@[a] == xs[oa] && self.extra_cursors@[b] == xs[ob]);
                    assert(pos_lt(xs[oa].cursor, xs[ob].cursor));
                }
                assert forall|q: int| 0 <= q < self.extra_cursors@.len() && extras_on(old(self).ls(), xs) implies
                    pos_in(old(self).ls(), #[trigger] self.extra_cursors@[q].cursor)
                    && (self.extra_cursors@[q].anchor matches Some(a) ==> pos_in(old(self).ls(), a)) by {
                    let oq = if q < i { q } else { q + 1 };
                    assert(self.extra_cursors@[q] == xs[oq]);
                }
            }
            return true;
        }
        proof {
            assert(first_at(self.extra_cursors@, at, false) < 0) by {
                if first_at(self.extra_cursors@, at, false) >= 0 {
                    assert(self.extra_cursors@[first_at(self.extra_cursors@, at, false)].cursor != at);
                }
            }
        }
        if self.extra_cursors.len() >= MAX_EXTRA_CURSORS {
            return false;
        }
        let ghost xs = self.extra_cursors@;
        self.extra_cursors.push(ExtraCursor { cursor: at, anchor: None });
        self.sort_dedup_cursors();
        self.typing_run = None;
        proof {
            let ys = xs.push(ExtraCursor { cursor: at, anchor: None });
            if extras_on(old(self).ls(), xs) && pos_in(old(self).ls(), at) {
                assert(extras_on(old(self).ls(), ys));
                lemma_dedup_on(old(self).ls(), self.extra_cursors@, ys);
            }
        }
        true
    }

    /// Moves each extra cursor one character along its line (to the right
    /// when `right`); a cursor that would leave its line is dropped.
    pub fn multi_step_horizontal(&mut self, right: bool)
        ensures
            final(self).extra_cursors@ == stepped(old(self).ls(), old(self).extra_cursors@, right),
            *final(self) == (EditorCore { extra_cursors: final(self).extra_cursors, ..*old(self) }),
            old(self).extras_ok() ==> final(self).extras_ok(),
            extras_sorted(old(self).extra_cursors@) ==> extras_sorted(final(self).extra_cursors@),
    {
        let ghost ls = self.ls();
        let ghost xs = self.extra_cursors@;
        let mut r: Vec<ExtraCursor> = Vec::new();
        let mut i: usize = 0;
        let n = self.extra_cursors.len();
        let ghost mut src: Seq<int> = seq![];
        proof {
            assert(xs.take(0) =~= Seq::<ExtraCursor>::empty());
        }
        while i < n
            invariant
                n == xs.len(),
                xs == self.extra_cursors@,
                ls == self.ls(),
                i <= n,
                r@ == stepped(ls, xs.take(i as int), right),
                src.len() == r@.len(),
                forall|q: int| 0 <= q < r@.len() ==> 0 <= #[trigger] src[q] < i && r@[q] == step_one(xs[src[q]], right)
                    && can_step(ls, xs[src[q]], right),
                forall|a: int, b: int| 0 <= a < b < r@.len() ==> #[trigger] src[a] < #[trigger] src[b],
                extras_on(ls, xs) ==> extras_on(ls, r@),
                extras_sorted(xs) ==> extras_sorted(r@),
            decreases n - i,
        {
            let e = self.extra_cursors[i];
            let len = self.line_display_len(e.cursor.line);
            let ok = if right { e.cursor.col < len } else { e.cursor.col > 0 };
            proof {
                assert(xs.take(i + 1).drop_last() =~= xs.take(i as int));
                assert(xs.take(i + 1).last() == e);
            }
            if ok {
                let moved = ExtraCursor {
                    cursor: CursorPos { line: e.cursor.line, col: if right { e.cursor.col + 1 } else { e.cursor.col - 1 } },
                    anchor: e.anchor,
                };
                let ghost old_r = r@;
                r.push(moved);
                proof {
                    src = src.push(i as int);
                    if extras_sorted(xs) && old_r.len() > 0 {
                        let last = old_r.len() - 1;
                        assert(pos_lt(xs[src[last]].cursor, xs[i as int].cursor));
                        assert forall|a: int, b: int| 0 <= a < b < r@.len() implies pos_lt(#[trigger] r@[a].cursor, #[trigger] r@[b].cursor) by {
                            if b == r@.len() - 1 {
                                assert(pos_lt(xs[src[a]].cursor, xs[i as int].cursor));
                            } else {
                                assert(r@[a] == old_r[a] && r@[b] == old_r[b]);
                            }
                        }
                    }
                }
            }
            i = i + 1;
        }
        proof {
            assert(xs.take(n as int) =~= xs);
        }
        self.extra_cursors = r;
    }

    /// All cursor positions, the main one included, in document order and
    /// without repeats.
    pub fn all_cursors(&self) -> (r: Vec<CursorPos>)
        ensures
            forall|i: int, j: int| 0 <= i < j < r@.len() ==> pos_lt(#[trigger] r@[i], #[trigger] r@[j]),
            r@.contains(self.cursor),
            forall|k: int| 0 <= k < self.extra_cursors@.len() ==> r@.contains(#[trigger] self.extra_cursors@[k].cursor),
            forall|i: int| 0 <= i < r@.len() ==> #[trigger] r@[i] == self.cursor
                || exists|k: int| 0 <= k < self.extra_cursors@.len() && self.extra_cursors@[k].cursor == r@[i],
    {
        let mut r: Vec<CursorPos> = Vec::new();
        let n = self.extra_cursors.len();
        let mut i: usize = 0;
        while i < n
            invariant
                n == self.extra_cursors@.len(),
                i <= n,
                forall|a: int, b: int| 0 <= a < b < r@.len() ==> pos_lt(#[trigger] r@[a], #[trigger] r@[b]),
                forall|k: int| 0 <= k < i ==> r@.contains(#[trigger] self.extra_cursors@[k].cursor),
                forall|q: int| 0 <= q < r@.len() ==> exists|k: int| 0 <= k < i && #[trigger] self.extra_cursors@[k].cursor == #[trigger] r@[q],
            decreases n - i,
        {
            let ghost old_r = r@;
            insert_sorted(&mut r, self.extra_cursors[i].cursor);
            proof {
                assert forall|q: int| 0 <= q < r@.len() implies exists|k: int| 0 <= k < i + 1 && #[trigger] self.extra_cursors@[k].cursor == #[trigger] r@[q] by {
                    if r@[q] == self.extra_cursors@[i as int].cursor {
                    } else {
                        assert(old_r.contains(r@[q]));
                        let w = choose|w: int| 0 <= w < old_r.len() && old_r[w] == r@[q];
                        let k = choose|k: int| 0 <= k < i && #[trigger] self.extra_cursors@[k].cursor == #[trigger] old_r[w];
                        assert(self.extra_cursors@[k].cursor == r@[q]);
                    }
                }
                assert forall|k: int| 0 <= k < i + 1 implies r@.contains(#[trigger] self.extra_cursors@[k].cursor) by {
                    if k < i {
                        assert(old_r.contains(self.extra_cursors@[k].cursor));
                    }
                }
            }
            i = i + 1;
        }
        let ghost old_r = r@;
        insert_sorted(&mut r, self.cursor);
        proof {
            assert forall|q: int| 0 <= q < r@.len() implies #[trigger] r@[q] == self.cursor
                || exists|k: int| 0 <= k < self.extra_cursors@.len() && self.extra_cursors@[k].cursor == r@[q] by {
                if r@[q] != self.cursor {
                    assert(old_r.contains(r@[q]));
                    let w = choose|w: int| 0 <= w < old_r.len() && old_r[w] == r@[q];
                    let k = choose|k: int| 0 <= k < i && #[trigger] self.extra_cursors@[k].cursor == #[trigger] old_r[w];
                    assert(self.extra_cursors@[k].cursor == r@[q]);
                }
            }
            assert forall|k: int| 0 <= k < self.extra_cursors@.len() implies r@.contains(#[trigger] self.extra_cursors@[k].cursor) by {
                assert(old_r.contains(self.extra_cursors@[k].cursor));
            }
        }
        r
    }
}

/// Puts `p` into a strictly ordered list unless it is already there.
fn insert_sorted(v: &mut Vec<CursorPos>, p: CursorPos)
    requires
        forall|a: int, b: int| 0 <= a < b < old(v)@.len() ==> pos_lt(#[trigger] old(v)@[a], #[trigger] old(v)@[b]),
    ensures
        forall|a: int, b: int| 0 <= a < b < final(v)@.len() ==> pos_lt(#[trigger] final(v)@[a], #[trigger] final(v)@[b]),
        final(v)@.contains(p),
        forall|q: CursorPos| old(v)@.contains(q) ==> final(v)@.contains(q),
        forall|q: CursorPos| final(v)@.contains(q) ==> old(v)@.contains(q) || q == p,
{
    let ghost o = v@;
    let mut j: usize = 0;
    while j < v.len() && pos_before(v[j], p)
        invariant
            v@ == o,
            j <= v@.len(),
            forall|k: int| 0 <= k < j ==> pos_lt(#[trigger] v@[k], p),
        decreases v@.len() - j,
    {
        j = j + 1;
    }
    if j < v.len() && v[j] == p {
        return;
    }
    v.insert(j, p);
    proof {
        assert forall|q: int| j < q < v@.len() implies pos_lt(p, #[trigger] v@[q]) by {
            assert(v@[q] == o[q - 1]);
            if q - 1 > j {
                assert(pos_lt(o[j as int], o[q - 1]));
            }
        }
        assert forall|a: int, b: int| 0 <= a < b < v@.len() implies pos_lt(#[trigger] v@[a], #[trigger] v@[b]) by {
            if b < j {
                assert(v@[a] == o[a] && v@[b] == o[b]);
            } else if b == j {
                assert(v@[a] == o[a]);
            } else if a == j {
            } else if a < j {
                assert(v@[a] == o[a]);
                assert(pos_lt(p, v@[b]));
            } else {
                assert(v@[a] == o[a - 1] && v@[b] == o[b - 1]);
            }
        }
        assert(v@[j as int] == p);
        assert forall|q: CursorPos| o.contains(q) implies v@.contains(q) by {
            let w = choose|w: int| 0 <= w < o.len() && o[w] == q;
            if w < j {
                assert(v@[w] == q);
            } else {
                assert(v@[w + 1] == q);
            }
        }
        assert forall|q: CursorPos| v@.contains(q) implies o.contains(q) || q == p by {
            let w = choose|w: int| 0 <= w < v@.len() && v@[w] == q;
            if w < j {
                assert(o[w] == q);
            } else if w > j {
                assert(o[w - 1] == q);
            }
        }
    }
}

} // verus!
