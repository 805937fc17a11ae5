//! Adding an extra cursor at the next free occurrence of the selection, or
//! of the word under the cursor, searching on from it and wrapping around.

use vstd::prelude::*;
use crate::cursors::{dedup_of, extras_on, sorted_dedup, lemma_dedup_on, MAX_EXTRA_CURSORS};
use crate::document::{LineV, line_start, lemma_pos_round_trip};
use crate::editor::{CursorPos, EditErr, EditorCore, ExtraCursor, pos_in};
use crate::motion::{is_word_char, word_char};
use crate::multiedit::{sel_span, off_at, pos_at};

verus! {

/// Where the run of word characters that ends at `i` starts.
pub open spec fn word_start(b: Seq<char>, i: int) -> int
    decreases i,
{
    if 0 < i <= b.len() && is_word_char(b[i - 1]) { word_start(b, i - 1) } else { i }
}

/// Where the run of word characters that starts at `i` ends.
pub open spec fn word_end(b: Seq<char>, i: int) -> int
    decreases b.len() - i,
{
    if 0 <= i < b.len() && is_word_char(b[i]) { word_end(b, i + 1) } else { i }
}

/// The word at column `col` of `b`, as columns: the one the column is in,
/// else the one that ends there; `None` next to no word character.
pub open spec fn word_span(b: Seq<char>, col: int) -> Option<(int, int)> {
    if 0 <= col < b.len() && is_word_char(b[col]) {
        Some((word_start(b, col), word_end(b, col)))
    } else if 0 < col <= b.len() && is_word_char(b[col - 1]) {
        Some((word_start(b, col), col))
    } else {
        None
    }
}

/// A found occurrence `[ms, me)` is in use: it holds an empty range
/// strictly inside it, or overlaps a non-empty one.
pub open spec fn taken(occ: Seq<(int, int)>, ms: int, me: int) -> bool {
    exists|k: int|
        0 <= k < occ.len() && (if (#[trigger] occ[k]).0 == occ[k].1 {
            occ[k].0 > ms && occ[k].0 < me
        } else {
            ms < occ[k].1 && occ[k].0 < me
        })
}

/// The first occurrence of `nd` in `t` that starts at or after `from` and
/// ends by `to`.
pub open spec fn next_occurrence(t: Seq<char>, nd: Seq<char>, from: int, to: int) -> Option<int>
    decreases to - from,
{
    if from < 0 || from + nd.len() > to || to > t.len() || nd.len() == 0 {
        None
    } else if t.subrange(from, from + nd.len()) == nd {
        Some(from)
    } else {
        next_occurrence(t, nd, from + 1, to)
    }
}

/// The first free one among the occurrences of `nd` found one after the
/// other (each search going on after the end of the last one) in
/// `t[from..to)`.
pub open spec fn first_free(t: Seq<char>, nd: Seq<char>, from: int, to: int, occ: Seq<(int, int)>) -> Option<int>
    decreases to - from,
{
    if nd.len() == 0 {
        None
    } else {
        match next_occurrence(t, nd, from, to) {
            None => None,
            Some(k) => if k < from || k + nd.len() > to {
                None
            } else if !taken(occ, k, k + nd.len()) {
                Some(k)
            } else {
                first_free(t, nd, k + nd.len(), to, occ)
            },
        }
    }
}

/// The free occurrence found searching from `from` to the end of the text,
/// then from its start up to `from`.
pub open spec fn ring_hit(t: Seq<char>, nd: Seq<char>, from: int, occ: Seq<(int, int)>) -> Option<int> {
    match first_free(t, nd, from, t.len() as int, occ) {
        Some(k) => Some(k),
        None => first_free(t, nd, 0, from, occ),
    }
}

impl EditorCore {
    /// The word at the main cursor, as columns of its line.
    pub open spec fn cursor_word(&self) -> Option<(int, int)> {
        word_span(self.ls()[self.cursor.line as int].body, self.cursor.col as int)
    }

    /// What to search for and where to start: the selection and its end,
    /// else the word at the cursor and its end.
    pub open spec fn needle(&self) -> Option<(int, int)> {
        match sel_span(self.ls(), self.anchor, self.cursor) {
            Some(r) => Some(r),
            None => match self.cursor_word() {
                Some((ws, we)) => Some(
                    (line_start(self.ls(), self.cursor.line as int) + ws, line_start(self.ls(), self.cursor.line as int) + we),
                ),
                None => None,
            },
        }
    }

    /// The ranges already in use: the main cursor's needle, then each extra
    /// cursor's selection (or its position).
    pub open spec fn occupied(&self) -> Seq<(int, int)> {
        seq![self.needle().unwrap()] + Seq::new(
            self.extra_cursors@.len(),
            |i: int| match sel_span(self.ls(), self.extra_cursors@[i].anchor, self.extra_cursors@[i].cursor) {
                Some(r) => r,
                None => (off_at(self.ls(), self.extra_cursors@[i].cursor), off_at(self.ls(), self.extra_cursors@[i].cursor)),
            },
        )
    }
}

/// `occ` with its ends as integers.
pub open spec fn occ_view(v: Seq<(usize, usize)>) -> Seq<(int, int)> {
    Seq::new(v.len(), |k: int| (v[k].0 as int, v[k].1 as int))
}

/// A found occurrence lies where it was looked for.
proof fn lemma_next_occurrence(t: Seq<char>, nd: Seq<char>, from: int, to: int)
    ensures
        next_occurrence(t, nd, from, to) matches Some(k) ==> from <= k && k + nd.len() <= to <= t.len()
            && t.subrange(k, k + nd.len()) == nd,
    decreases to - from,
{
    if !(from < 0 || from + nd.len() > to || to > t.len() || nd.len() == 0) && t.subrange(from, from + nd.len()) != nd {
        lemma_next_occurrence(t, nd, from + 1, to);
    }
}

/// Whether `nd` occurs in `t` at `pos`.
fn occurs_at(t: &Vec<char>, nd: &Vec<char>, pos: usize) -> (r: bool)
    requires
        pos + nd@.len() <= t@.len(),
    ensures
        r == (t@.subrange(pos as int, pos + nd@.len()) == nd@),
{
    let n = nd.len();
    let tl = t.len();
    let mut i: usize = 0;
    while i < n
        invariant
            n == nd@.len(),
            tl == t@.len(),
            pos + n <= t@.len(),
            i <= n,
            forall|j: int| 0 <= j < i ==> t@[pos + j] == nd@[j],
        decreases n - i,
    {
        assert(pos + i < t@.len());
        let at = pos + i;
        if t[at] != nd[i] {
            proof {
                assert(t@.subrange(pos as int, pos + n)[i as int] != nd@[i as int]);
            }
            return false;
        }
        i = i + 1;
    }
    proof {
        assert(t@.subrange(pos as int, pos + n) =~= nd@);
    }
    true
}

/// Whether `[ms, me)` is in use (see [`taken`]).
fn is_taken(occ: &Vec<(usize, usize)>, ms: usize, me: usize) -> (r: bool)
    ensures
        r == taken(occ_view(occ@), ms as int, me as int),
{
    let ghost ov = occ_view(occ@);
    let mut k: usize = 0;
    while k < occ.len()
        invariant
            k <= occ@.len(),
            ov == occ_view(occ@),
            forall|q: int| 0 <= q < k ==> !(if (#[trigger] ov[q]).0 == ov[q].1 {
                ov[q].0 > ms && ov[q].0 < me
            } else {
                ms < ov[q].1 && ov[q].0 < me
            }),
        decreases occ@.len() - k,
    {
        let (os, oe) = occ[k];
        let hit = if os == oe { os > ms && os < me } else { ms < oe && os < me };
        if hit {
            proof {
                assert(ov[k as int] == (os as int, oe as int));
            }
            return true;
        }
        proof {
            assert(ov[k as int] == (os as int, oe as int));
        }
        k = k + 1;
    }
    false
}

/// The first free occurrence in `t[from..to)` (see [`first_free`]).
fn find_free(t: &Vec<char>, nd: &Vec<char>, from: usize, to: usize, occ: &Vec<(usize, usize)>) -> (r: Option<usize>)
    requires
        from <= to <= t@.len(),
        nd@.len() > 0,
    ensures
        match r {
            Some(k) => first_free(t@, nd@, from as int, to as int, occ_view(occ@)) == Some(k as int),
            None => first_free(t@, nd@, from as int, to as int, occ_view(occ@)) is None,
        },
{
    let n = nd.len();
    let ghost target = first_free(t@, nd@, from as int, to as int, occ_view(occ@));
    let mut pos: usize = from;
    while pos <= to && n <= to - pos
        invariant
            n == nd@.len(),
            n > 0,
            from <= pos,
            to <= t@.len(),
            target == first_free(t@, nd@, pos as int, to as int, occ_view(occ@)),
            target == first_free(t@, nd@, from as int, to as int, occ_view(occ@)),
        decreases to + 1 - pos,
    {
        proof {
            lemma_next_occurrence(t@, nd@, pos as int + 1, to as int);
        }
        if occurs_at(t, nd, pos) {
            proof {
                assert(next_occurrence(t@, nd@, pos as int, to as int) == Some(pos as int));
            }
            if !is_taken(occ, pos, pos + n) {
                proof {
                    assert(!taken(occ_view(occ@), pos as int, pos + nd@.len()));
                    assert(first_free(t@, nd@, pos as int, to as int, occ_view(occ@)) == Some(pos as int));
                }
                return Some(pos);
            }
            pos = pos + n;
        } else {
            pos = pos + 1;
        }
    }
    None
}

impl EditorCore {
    /// The word at the main cursor (see [`EditorCore::cursor_word`]).
    fn word_range_at_cursor(&self) -> (r: Option<(usize, usize)>)
        requires
            self.wf(),
        ensures
            match r {
                None => self.cursor_word() is None,
                Some((s, e)) => self.cursor_word() == Some((s as int, e as int)) && s < e
                    && e <= self.ls()[self.cursor.line as int].body.len(),
            },
    {
        let b = self.doc.body_chars(self.cursor.line);
        let col = self.cursor.col;
        let on_word = col < b.len() && word_char(b[col]);
        let before_word = col > 0 && word_char(b[col - 1]);
        if !on_word && !before_word {
            return None;
        }
        let mut s = col;
        while s > 0 && word_char(b[s - 1])
            invariant
                s <= col <= b@.len(),
                word_start(b@, s as int) == word_start(b@, col as int),
            decreases s,
        {
            s = s - 1;
        }
        if !on_word {
            return Some((s, col));
        }
        let mut e = col;
        while e < b.len() && word_char(b[e])
            invariant
                col <= e <= b@.len(),
                word_end(b@, e as int) == word_end(b@, col as int),
            decreases b@.len() - e,
        {
            e = e + 1;
        }
        Some((s, e))
    }
}

/// A free occurrence lies where it was looked for.
proof fn lemma_first_free(t: Seq<char>, nd: Seq<char>, from: int, to: int, occ: Seq<(int, int)>)
    ensures
        first_free(t, nd, from, to, occ) matches Some(k) ==> from <= k && k + nd.len() <= to,
    decreases to - from,
{
    lemma_next_occurrence(t, nd, from, to);
    if nd.len() > 0 {
        if let Some(k) = next_occurrence(t, nd, from, to) {
            if from <= k && k + nd.len() <= to && taken(occ, k, k + nd.len()) {
                lemma_first_free(t, nd, k + nd.len(), to, occ);
            }
        }
    }
}

impl EditorCore {
    /// What [`EditorCore::add_next_match`] answers and leaves behind.
    pub open spec fn next_match_result(&self, post: &EditorCore, r: Result<bool, EditErr>) -> bool {
        let refused = self.wrap_enabled || self.block_sel is Some || self.preedit is Some;
        let full = self.extra_cursors@.len() >= MAX_EXTRA_CURSORS;
        &&& refused ==> r == Ok::<bool, EditErr>(false) && *post == *self
        &&& !refused && self.needle() is None ==> r == Err::<bool, EditErr>(EditErr::CursorNotOnWord) && *post == *self
        &&& !refused && self.needle() is Some && full ==> r == Err::<bool, EditErr>(EditErr::ExtraCursorCap(MAX_EXTRA_CURSORS))
            && *post == *self
        &&& !refused && self.needle() is Some && !full ==> {
            let ns = self.needle().unwrap().0;
            let ne = self.needle().unwrap().1;
            let t = self.doc.text();
            let nd = t.subrange(ns, ne);
            match ring_hit(t, nd, ne, self.occupied()) {
                None => r == Err::<bool, EditErr>(EditErr::NoMoreMatch) && *post == *self,
                Some(ms) => r == Ok::<bool, EditErr>(true) && dedup_of(
                    post.extra_cursors@,
                    self.extra_cursors@.push(
                        ExtraCursor { cursor: pos_at(self.ls(), ms + nd.len()), anchor: Some(pos_at(self.ls(), ms)) },
                    ),
                ) && *post == (EditorCore { extra_cursors: post.extra_cursors, typing_run: None, ..*self }),
            }
        }
    }

    /// Adds an extra cursor at the next free occurrence of the selection,
    /// or of the word at the cursor (see [`ring_hit`]): the occurrence
    /// becomes the new cursor's selection, the cursor at its end. Refused
    /// (`Ok(false)`) while soft wrap, a column block or an IME composition
    /// is active; an error when there is nothing to search for, when the
    /// extra cursors are at their limit, or when no free occurrence is
    /// left. Only a success changes anything (and ends the typing run).
    pub fn add_next_match(&mut self) -> (r: Result<bool, EditErr>)
        requires
            old(self).wf(),
            old(self).extras_ok(),
        ensures
            final(self).wf(),
            final(self).extras_ok(),
            old(self).next_match_result(final(self), r),
    {
        if self.wrap_enabled || self.block_sel.is_some() || self.preedit.is_some() {
            return Ok(false);
        }
        let (ns, ne) = match self.sel_span_exec(self.anchor, self.cursor) {
            Some(r) => r,
            None => match self.word_range_at_cursor() {
                None => {
                    return Err(EditErr::CursorNotOnWord);
                },
                Some((ws, we)) => {
                    proof {
                        lemma_pos_round_trip(self.ls(), self.cursor.line as int, we as int);
                    }
                    let lo = self.doc.line_to_char(self.cursor.line);
                    (lo + ws, lo + we)
                },
            },
        };
        assert(self.needle() == Some((ns as int, ne as int)));
        if self.extra_cursors.len() >= MAX_EXTRA_CURSORS {
            return Err(EditErr::ExtraCursorCap(MAX_EXTRA_CURSORS));
        }
        let mut occ: Vec<(usize, usize)> = Vec::new();
        occ.push((ns, ne));
        let m = self.extra_cursors.len();
        let ghost occ_spec = self.occupied();
        let mut i: usize = 0;
        while i < m
            invariant
                self.wf(),
                self.extras_ok(),
                m == self.extra_cursors@.len(),
                i <= m,
                occ_spec == self.occupied(),
                self.needle() == Some((ns as int, ne as int)),
                occ@.len() == i + 1,
                forall|k: int| 0 <= k < i + 1 ==> #[trigger] occ_view(occ@)[k] == occ_spec[k],
            decreases m - i,
        {
            let ec = self.extra_cursors[i];
            let ghost before = occ@;
            proof {
                assert(pos_in(self.ls(), self.extra_cursors@[i as int].cursor));
            }
            match self.sel_span_exec(ec.anchor, ec.cursor) {
                Some(r) => {
                    occ.push(r);
                },
                None => {
                    let o = self.offset_of_pos(ec.cursor);
                    occ.push((o, o));
                },
            }
            proof {
                assert(occ_view(occ@)[i + 1] == occ_spec[i + 1]);
                assert forall|k: int| 0 <= k < i + 2 implies #[trigger] occ_view(occ@)[k] == occ_spec[k] by {
                    if k < i + 1 {
                        assert(occ@[k] == before[k]);
                        assert(occ_view(before)[k] == occ_spec[k]);
                    }
                }
            }
            i = i + 1;
        }
        proof {
            assert(occ_view(occ@) =~= occ_spec);
        }
        let t = self.doc.to_chars();
        let nd = self.doc.slice(ns, ne);
        let first = find_free(&t, &nd, ne, t.len(), &occ);
        let hit = match first {
            Some(k) => Some(k),
            None => find_free(&t, &nd, 0, ne, &occ),
        };
        match hit {
            None => Err(EditErr::NoMoreMatch),
            Some(ms) => {
                proof {
                    lemma_first_free(t@, nd@, ne as int, t@.len() as int, occ_spec);
                    lemma_first_free(t@, nd@, 0, ne as int, occ_spec);
                }
                let (sl, sc) = self.doc.char_to_pos(ms);
                let (el, ec) = self.doc.char_to_pos(ms + nd.len());
                let ghost xs = self.extra_cursors@;
                let x = ExtraCursor { cursor: CursorPos { line: el, col: ec }, anchor: Some(CursorPos { line: sl, col: sc }) };
                self.extra_cursors.push(x);
                proof {
                    assert(self.extra_cursors@ == xs.push(x));
                    assert forall|q: int| 0 <= q < self.extra_cursors@.len() implies pos_in(self.ls(), #[trigger] self.extra_cursors@[q].cursor)
                        && (self.extra_cursors@[q].anchor matches Some(a) ==> pos_in(self.ls(), a)) by {
                        if q < xs.len() {
                            assert(self.extra_cursors@[q] == xs[q]);
                        }
                    }
                }
                self.sort_dedup_cursors();
                self.typing_run = None;
                proof {
                    lemma_dedup_on(self.ls(), self.extra_cursors@, xs.push(x));
                }
                Ok(true)
            },
        }
    }
}

} // verus!
