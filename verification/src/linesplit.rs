//! A text determines its lines: two well-formed line sequences with the same
//! text are the same, so a block of lines rewritten as break-free bodies
//! joined by the dominant ending splits back into exactly those bodies,
//! with the lines around it untouched.

use vstd::prelude::*;
use crate::document::{LineV, Eol, LineEnding, lines_wf, cr_ok, text_of, line_text, eol_chars,
    ending_chars, no_breaks, is_break_char, line_start, lemma_text_of_append};
use crate::lineblock::{join_with, rebuild};

verus! {

/// `s` is empty or ends with a line-break character.
pub open spec fn ends_at_break(s: Seq<char>) -> bool {
    s.len() == 0 || is_break_char(s.last())
}

/// Every line ends with a break, bodies hold no break, and no lone `\r` is
/// followed by an empty line ending in `\n`: the lines before the last one
/// of a well-formed sequence.
pub open spec fn broken_lines(ls: Seq<LineV>) -> bool {
    &&& forall|i: int| 0 <= i < ls.len() ==> (#[trigger] ls[i]).eol != Eol::NoBreak
    &&& forall|i: int| 0 <= i < ls.len() ==> no_breaks((#[trigger] ls[i]).body)
    &&& forall|i: int| 0 <= i < ls.len() - 1 ==> #[trigger] cr_ok(ls, i)
}

/// The break of a dominant ending.
pub open spec fn ending_eol(e: LineEnding) -> Eol {
    match e {
        LineEnding::Lf => Eol::Lf,
        LineEnding::CrLf => Eol::CrLf,
    }
}

/// The lines `ls` joined by the ending `e`: each body ends with `e`'s break
/// but the last, which has none.
pub open spec fn joined_lines(ls: Seq<Seq<char>>, e: LineEnding) -> Seq<LineV> {
    Seq::new(ls.len(), |i: int| LineV { body: ls[i], eol: if i < ls.len() - 1 { ending_eol(e) } else { Eol::NoBreak } })
}

proof fn lemma_broken_text_ends(ls: Seq<LineV>)
    requires
        broken_lines(ls),
    ensures
        ends_at_break(text_of(ls)),
        ls.len() > 0 ==> text_of(ls).len() > 0,
{
    if ls.len() > 0 {
        let l = ls.last();
        assert(l == ls[ls.len() - 1]);
        let t = text_of(ls);
        assert(t == text_of(ls.drop_last()) + (l.body + eol_chars(l.eol)));
        assert(t.last() == eol_chars(l.eol).last());
    }
}

/// Splitting a text at its last line: what follows the last break is the
/// last body.
proof fn lemma_split_last(p1: Seq<char>, b1: Seq<char>, p2: Seq<char>, b2: Seq<char>)
    requires
        p1 + b1 == p2 + b2,
        ends_at_break(p1),
        ends_at_break(p2),
        no_breaks(b1),
        no_breaks(b2),
    ensures
        b1 == b2,
        p1 == p2,
{
    let t = p1 + b1;
    assert(t.len() == p2.len() + b2.len());
    if b1.len() < b2.len() {
        let k = p1.len() - 1;
        assert(p1.len() > 0);
        assert(t[k] == p1[k]);
        assert(t[k] == (p2 + b2)[k]);
        assert(b2[k - p2.len()] == t[k]);
    } else if b2.len() < b1.len() {
        let k = p2.len() - 1;
        assert(p2.len() > 0);
        assert(t[k] == (p2 + b2)[k]);
        assert(t[k] == p2[k]);
        assert(b1[k - p1.len()] == t[k]);
    }
    assert(p1 =~= t.take(p1.len() as int));
    assert(p2 =~= (p2 + b2).take(p2.len() as int));
    assert(b1 =~= t.skip(p1.len() as int));
    assert(b2 =~= (p2 + b2).skip(p2.len() as int));
}

proof fn lemma_broken_drop_last(x: Seq<LineV>)
    requires
        broken_lines(x),
        x.len() > 0,
    ensures
        broken_lines(x.drop_last()),
{
    let xp = x.drop_last();
    assert forall|i: int| 0 <= i < xp.len() - 1 implies #[trigger] cr_ok(xp, i) by {
        assert(cr_ok(x, i));
        assert(xp[i] == x[i] && xp[i + 1] == x[i + 1]);
    }
    assert forall|i: int| 0 <= i < xp.len() implies (#[trigger] xp[i]).eol != Eol::NoBreak
        && no_breaks(xp[i].body) by {
        assert(xp[i] == x[i]);
    }
}

/// A `\r\n` break and a lone `\n` cannot end the same text: the `\r` would
/// end the line before an empty one, which `cr_ok` rules out.
proof fn lemma_crlf_not_lf(x: Seq<LineV>, y: Seq<LineV>)
    requires
        broken_lines(x),
        broken_lines(y),
        x.len() > 0,
        y.len() > 0,
        text_of(x) == text_of(y),
        x.last().eol == Eol::CrLf,
    ensures
        y.last().eol != Eol::Lf,
{
    let t = text_of(x);
    let xl = x.last();
    let yl = y.last();
    let yp = y.drop_last();
    assert(xl == x[x.len() - 1]);
    assert(yl == y[y.len() - 1]);
    assert(t =~= (text_of(x.drop_last()) + xl.body) + eol_chars(xl.eol));
    let qy = text_of(yp) + yl.body;
    assert(t =~= qy + eol_chars(yl.eol));
    if yl.eol == Eol::Lf {
        assert(t[t.len() - 2] == '\r');
        assert(qy.len() == t.len() - 1);
        assert(qy.last() == t[t.len() - 2]);
        assert(no_breaks(yl.body));
        if yl.body.len() > 0 {
            assert(qy.last() == yl.body[yl.body.len() - 1]);
        } else {
            assert(qy =~= text_of(yp));
            let pl = yp.last();
            assert(pl == y[y.len() - 2]);
            assert(text_of(yp) =~= text_of(yp.drop_last()) + (pl.body + eol_chars(pl.eol)));
            assert(cr_ok(y, y.len() - 2));
        }
    }
}

/// Lines that all end with a break, with the same text, end with the same
/// line, and the lines before it have the same text.
proof fn lemma_broken_last(x: Seq<LineV>, y: Seq<LineV>)
    requires
        broken_lines(x),
        broken_lines(y),
        x.len() > 0,
        y.len() > 0,
        text_of(x) == text_of(y),
    ensures
        x.last() == y.last(),
        text_of(x.drop_last()) == text_of(y.drop_last()),
{
    let t = text_of(x);
    let xp = x.drop_last();
    let yp = y.drop_last();
    let xl = x.last();
    let yl = y.last();
    assert(xl == x[x.len() - 1]);
    assert(yl == y[y.len() - 1]);
    let qx = text_of(xp) + xl.body;
    let qy = text_of(yp) + yl.body;
    assert(t =~= qx + eol_chars(xl.eol));
    assert(t =~= qy + eol_chars(yl.eol));
    lemma_broken_drop_last(x);
    lemma_broken_drop_last(y);
    lemma_broken_text_ends(xp);
    lemma_broken_text_ends(yp);
    assert(t.last() == eol_chars(xl.eol).last());
    assert(t.last() == eol_chars(yl.eol).last());
    if xl.eol == Eol::CrLf {
        lemma_crlf_not_lf(x, y);
    }
    if yl.eol == Eol::CrLf {
        lemma_crlf_not_lf(y, x);
    }
    assert(xl.eol == yl.eol);
    assert(qx =~= t.take(qx.len() as int));
    assert(qy =~= t.take(qy.len() as int));
    assert(no_breaks(xl.body) && no_breaks(yl.body));
    lemma_split_last(text_of(xp), xl.body, text_of(yp), yl.body);
}

/// Lines that all end with a break are fixed by their text.
proof fn lemma_broken_unique(x: Seq<LineV>, y: Seq<LineV>)
    requires
        broken_lines(x),
        broken_lines(y),
        text_of(x) == text_of(y),
    ensures
        x == y,
    decreases x.len(),
{
    lemma_broken_text_ends(x);
    lemma_broken_text_ends(y);
    if x.len() == 0 || y.len() == 0 {
        assert(x =~= y);
    } else {
        lemma_broken_last(x, y);
        lemma_broken_drop_last(x);
        lemma_broken_drop_last(y);
        lemma_broken_unique(x.drop_last(), y.drop_last());
        assert(x =~= x.drop_last().push(x.last()));
        assert(y =~= y.drop_last().push(y.last()));
    }
}

/// Two well-formed line sequences with the same text are the same.
pub proof fn lemma_lines_unique(x: Seq<LineV>, y: Seq<LineV>)
    requires
        lines_wf(x),
        lines_wf(y),
        text_of(x) == text_of(y),
    ensures
        x == y,
{
    reveal(lines_wf);
    let xp = x.drop_last();
    let yp = y.drop_last();
    let xl = x.last();
    let yl = y.last();
    assert(xl == x[x.len() - 1]);
    assert(yl == y[y.len() - 1]);
    assert(broken_lines(xp)) by {
        assert forall|i: int| 0 <= i < xp.len() - 1 implies #[trigger] cr_ok(xp, i) by {
            assert(cr_ok(x, i));
        }
        assert forall|i: int| 0 <= i < xp.len() implies (#[trigger] xp[i]).eol != Eol::NoBreak
            && no_breaks(xp[i].body) by {
            assert(xp[i] == x[i]);
        }
    }
    assert(broken_lines(yp)) by {
        assert forall|i: int| 0 <= i < yp.len() - 1 implies #[trigger] cr_ok(yp, i) by {
            assert(cr_ok(y, i));
        }
        assert forall|i: int| 0 <= i < yp.len() implies (#[trigger] yp[i]).eol != Eol::NoBreak
            && no_breaks(yp[i].body) by {
            assert(yp[i] == y[i]);
        }
    }
    lemma_broken_text_ends(xp);
    lemma_broken_text_ends(yp);
    assert(text_of(x) =~= text_of(xp) + xl.body);
    assert(text_of(y) =~= text_of(yp) + yl.body);
    assert(no_breaks(xl.body) && no_breaks(yl.body));
    lemma_split_last(text_of(xp), xl.body, text_of(yp), yl.body);
    lemma_broken_unique(xp, yp);
    assert(x =~= xp.push(xl));
    assert(y =~= yp.push(yl));
}

/// The text of [`joined_lines`] is the lines joined by the ending.
proof fn lemma_joined_text(ls: Seq<Seq<char>>, e: LineEnding)
    requires
        ls.len() >= 1,
    ensures
        text_of(joined_lines(ls, e)) == join_with(ls, ending_chars(e)),
    decreases ls.len(),
{
    let j = joined_lines(ls, e);
    assert(j.last() == j[ls.len() - 1]);
    if ls.len() == 1 {
        assert(j.drop_last() =~= Seq::<LineV>::empty());
        assert(j[0].eol == Eol::NoBreak);
        assert(text_of(j) == text_of(j.drop_last()) + line_text(j.last()));
        assert(text_of(j) =~= ls[0]);
    } else {
        let p = ls.drop_last();
        lemma_joined_text(p, e);
        let jp = joined_lines(p, e);
        let d = j.drop_last();
        assert(d.drop_last() =~= jp.drop_last());
        assert(d.last() == d[ls.len() - 2]);
        assert(jp.last() == jp[ls.len() - 2]);
        assert(eol_chars(ending_eol(e)) == ending_chars(e));
        assert(text_of(d) =~= text_of(d.drop_last()) + (p.last() + ending_chars(e)));
        assert(text_of(jp) =~= text_of(jp.drop_last()) + p.last());
        assert(text_of(j) =~= text_of(d) + ls.last());
        assert(join_with(ls, ending_chars(e)) == join_with(p, ending_chars(e)) + ending_chars(e) + ls.last());
        assert(text_of(j) =~= join_with(ls, ending_chars(e)));
    }
}

/// Every line break of `ls` is the break of the ending `e`.
pub open spec fn one_ending(ls: Seq<LineV>, e: LineEnding) -> bool {
    forall|i: int| 0 <= i < ls.len() - 1 ==> (#[trigger] ls[i]).eol == ending_eol(e)
}

/// The text around two neighbouring lines `k` and `k + 1`.
pub proof fn lemma_split_two(ls: Seq<LineV>, k: int)
    requires
        0 <= k,
        k + 1 < ls.len(),
    ensures
        text_of(ls) == text_of(ls.take(k)) + line_text(ls[k]) + line_text(ls[k + 1]) + text_of(ls.skip(k + 2)),
        line_start(ls, k) == text_of(ls.take(k)).len(),
        line_start(ls, k + 2) == line_start(ls, k) + line_text(ls[k]).len() + line_text(ls[k + 1]).len(),
        line_start(ls, ls.len() as int) == text_of(ls).len(),
{
    let two = seq![ls[k], ls[k + 1]];
    assert(two.drop_last() =~= seq![ls[k]]);
    assert(seq![ls[k]].drop_last() =~= Seq::<LineV>::empty());
    assert(text_of(seq![ls[k]]) =~= line_text(ls[k])) by {
        assert(text_of(seq![ls[k]]) == text_of(seq![ls[k]].drop_last()) + line_text(seq![ls[k]].last()));
    }
    assert(text_of(two) == text_of(two.drop_last()) + line_text(two.last()));
    assert(text_of(two) =~= line_text(ls[k]) + line_text(ls[k + 1]));
    assert(ls.take(k + 2) =~= ls.take(k) + two);
    assert(ls =~= ls.take(k + 2) + ls.skip(k + 2));
    lemma_text_of_append(ls.take(k), two);
    lemma_text_of_append(ls.take(k + 2), ls.skip(k + 2));
    assert(ls.take(ls.len() as int) =~= ls);
}

/// The lines a block rewrite leaves in place of lines `a..=b`: the new
/// bodies, each with the ending's break, but the document's last line,
/// which keeps none.
pub open spec fn block_lines(outs: Seq<Seq<char>>, a: int, n: int, e: LineEnding) -> Seq<LineV> {
    Seq::new(outs.len(), |j: int| LineV { body: outs[j], eol: if a + j < n - 1 { ending_eol(e) } else { Eol::NoBreak } })
}

/// Rewriting lines `a..=b` as break-free bodies joined by the ending (and
/// followed by it when lines follow) keeps the lines around them and gives
/// the block exactly those bodies, provided no lone `\r` ends the line
/// before the block.
pub proof fn lemma_block_lines(ls: Seq<LineV>, pl: Seq<LineV>, a: int, b: int, outs: Seq<Seq<char>>, e: LineEnding)
    requires
        lines_wf(ls),
        lines_wf(pl),
        0 <= a <= b < ls.len(),
        outs.len() == b - a + 1,
        forall|j: int| 0 <= j < outs.len() ==> no_breaks(#[trigger] outs[j]),
        !(a > 0 && ls[a - 1].eol == Eol::Cr),
        text_of(pl) == text_of(ls.take(a)) + rebuild(outs, ending_chars(e), b < ls.len() - 1) + text_of(ls.skip(b + 1)),
    ensures
        pl.len() == ls.len(),
        forall|i: int| 0 <= i < a ==> #[trigger] pl[i] == ls[i],
        forall|i: int| a <= i <= b ==> (#[trigger] pl[i]).body == outs[i - a],
        forall|i: int| b < i < ls.len() ==> #[trigger] pl[i] == ls[i],
{
    reveal(lines_wf);
    let n = ls.len() as int;
    let nl = ending_chars(e);
    let ee = ending_eol(e);
    assert(eol_chars(ee) == nl);
    let l = block_lines(outs, a, n, e);
    let jl = joined_lines(outs, e);
    lemma_joined_text(outs, e);
    assert(text_of(l) == rebuild(outs, nl, b < n - 1)) by {
        if b == n - 1 {
            assert(l =~= jl);
        } else {
            let m = outs.len() as int;
            assert(l.drop_last() =~= jl.drop_last());
            assert(l.last() == l[m - 1]);
            assert(jl.last() == jl[m - 1]);
            assert(text_of(l) == text_of(l.drop_last()) + line_text(l.last()));
            assert(text_of(jl) == text_of(jl.drop_last()) + line_text(jl.last()));
            assert(text_of(l) =~= text_of(jl) + nl);
        }
    }
    let y = ls.take(a) + l + ls.skip(b + 1);
    lemma_text_of_append(ls.take(a), l);
    lemma_text_of_append(ls.take(a) + l, ls.skip(b + 1));
    assert(text_of(y) == text_of(pl));
    assert(y.len() == n);
    assert forall|i: int| 0 <= i < n implies #[trigger] y[i] == (if i < a { ls[i] } else if i <= b { l[i - a] } else { ls[i] }) by {
        if i < a {
            assert(y[i] == ls.take(a)[i]);
        } else if i <= b {
            assert(y[i] == (ls.take(a) + l)[i]);
        } else {
            assert(y[i] == ls.skip(b + 1)[i - (b + 1)]);
        }
    }
    assert(lines_wf(y)) by {
        assert(y.last() == y[n - 1]);
        assert(ls.last() == ls[n - 1]);
        assert forall|i: int| 0 <= i < n - 1 implies #[trigger] cr_ok(y, i) by {
            if i + 1 < a || i > b {
                assert(cr_ok(ls, i));
            } else if i == a - 1 {
                assert(y[i] == ls[i]);
            } else {
                assert(y[i] == l[i - a]);
            }
        }
        assert forall|i: int| 0 <= i < n implies no_breaks((#[trigger] y[i]).body)
            && (i < n - 1 ==> y[i].eol != Eol::NoBreak) by {
            if a <= i <= b {
                assert(y[i] == l[i - a]);
                assert(no_breaks(outs[i - a]));
            } else {
                assert(y[i] == ls[i]);
            }
        }
    }
    lemma_lines_unique(pl, y);
    assert forall|i: int| a <= i <= b implies (#[trigger] pl[i]).body == outs[i - a] by {
        assert(pl[i] == y[i]);
        assert(y[i] == l[i - a]);
    }
    assert forall|i: int| 0 <= i < a implies #[trigger] pl[i] == ls[i] by {
        assert(pl[i] == y[i]);
    }
    assert forall|i: int| b < i < n implies #[trigger] pl[i] == ls[i] by {
        assert(pl[i] == y[i]);
    }
}

/// The text of lines `a..=b` sits between the text of the lines before and
/// after them.
pub proof fn lemma_region_text(ls: Seq<LineV>, a: int, b: int)
    requires
        0 <= a <= b < ls.len(),
    ensures
        text_of(ls) == text_of(ls.take(a)) + text_of(ls.subrange(a, b + 1)) + text_of(ls.skip(b + 1)),
        line_start(ls, a) == text_of(ls.take(a)).len(),
        line_start(ls, b + 1) == text_of(ls.take(a)).len() + text_of(ls.subrange(a, b + 1)).len(),
        line_start(ls, ls.len() as int) == text_of(ls).len(),
{
    assert(ls.take(b + 1) =~= ls.take(a) + ls.subrange(a, b + 1));
    assert(ls =~= ls.take(b + 1) + ls.skip(b + 1));
    lemma_text_of_append(ls.take(a), ls.subrange(a, b + 1));
    lemma_text_of_append(ls.take(b + 1), ls.skip(b + 1));
    assert(ls.take(ls.len() as int) =~= ls);
}

/// The text after the first `k` lines is empty exactly when no line
/// follows, or only the empty last line does.
pub proof fn lemma_rest_text(ls: Seq<LineV>, k: int)
    requires
        lines_wf(ls),
        0 <= k <= ls.len(),
    ensures
        (text_of(ls.skip(k)).len() > 0) == (k < ls.len() && !(k == ls.len() - 1 && ls[k].body.len() == 0)),
{
    reveal(lines_wf);
    let n = ls.len() as int;
    assert(ls.last() == ls[n - 1]);
    if k < n {
        let one = seq![ls[k]];
        assert(ls.skip(k) =~= one + ls.skip(k + 1));
        lemma_text_of_append(one, ls.skip(k + 1));
        assert(one.drop_last() =~= Seq::<LineV>::empty());
        assert(text_of(one) == text_of(one.drop_last()) + line_text(one.last()));
        if k == n - 1 {
            assert(ls.skip(k + 1) =~= Seq::<LineV>::empty());
        }
    } else {
        assert(ls.skip(k) =~= Seq::<LineV>::empty());
    }
}

} // verus!
