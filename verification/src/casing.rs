//! Upper/lower case conversion of the selection or the whole document.

use vstd::prelude::*;
use crate::document::{lines_wf, pos_of_offset};
use crate::editor::{EditorCore, CaseKind, CursorPos, push_capped, SnapV, edit_frame};
use crate::strs::same_chars;
use crate::motion::{unicode_alphanumeric, is_alphanumeric};

verus! {

/// What `str::to_uppercase` gives for a text (the full Unicode mapping;
/// the length may change).
pub uninterp spec fn unicode_upper(s: Seq<char>) -> Seq<char>;

/// What `str::to_lowercase` gives for a text (the full Unicode mapping;
/// the length may change).
pub uninterp spec fn unicode_lower(s: Seq<char>) -> Seq<char>;

/// `str::to_uppercase` on the characters `s`; the result is
/// [`unicode_upper`] of them.
#[verifier::external_body]
fn to_upper_chars(s: &[char]) -> (r: Vec<char>)
    ensures
        r@ == unicode_upper(s@),
{
    let t: String = s.iter().collect();
    t.to_uppercase().chars().collect()
}

/// `str::to_lowercase` on the characters `s`; the result is
/// [`unicode_lower`] of them.
#[verifier::external_body]
pub(crate) fn to_lower_chars(s: &[char]) -> (r: Vec<char>)
    ensures
        r@ == unicode_lower(s@),
{
    let t: String = s.iter().collect();
    t.to_lowercase().chars().collect()
}

/// The end of the run of alphanumeric characters that starts at `i`.
pub open spec fn word_end_from(s: Seq<char>, i: int) -> int
    decreases s.len() - i,
{
    if i < 0 || i >= s.len() || !unicode_alphanumeric(s[i]) {
        i
    } else {
        word_end_from(s, i + 1)
    }
}

/// A run of alphanumerics ends inside the text.
proof fn lemma_word_end_bounds(s: Seq<char>, i: int)
    requires
        0 <= i <= s.len(),
    ensures
        i <= word_end_from(s, i) <= s.len(),
    decreases s.len() - i,
{
    if i < s.len() && unicode_alphanumeric(s[i]) {
        lemma_word_end_bounds(s, i + 1);
    }
}

/// Each word (maximal run of alphanumeric characters; `_`, punctuation and
/// white space separate words) with its first character upper-cased and the
/// rest lower-cased; everything else as it was.
pub open spec fn title_case(s: Seq<char>) -> Seq<char>
    decreases s.len(),
{
    if s.len() == 0 {
        seq![]
    } else if !unicode_alphanumeric(s[0]) {
        seq![s[0]] + title_case(s.drop_first())
    } else {
        let w = word_end_from(s, 1);
        if 1 <= w <= s.len() {
            unicode_upper(s.take(1)) + unicode_lower(s.subrange(1, w)) + title_case(s.skip(w))
        } else {
            seq![]
        }
    }
}

/// The end of the word that starts at `i`, seen from later in the word.
proof fn lemma_word_end_skip(s: Seq<char>, i: int, j: int)
    requires
        0 <= i <= j <= s.len(),
        forall|k: int| i <= k < j ==> unicode_alphanumeric(#[trigger] s[k]),
    ensures
        word_end_from(s, i) == word_end_from(s, j),
    decreases j - i,
{
    if i < j {
        lemma_word_end_skip(s, i + 1, j);
    }
}

/// Word ends agree on a suffix.
proof fn lemma_word_end_shift(s: Seq<char>, i: int, j: int)
    requires
        0 <= i <= s.len(),
        0 <= j <= s.len() - i,
    ensures
        word_end_from(s.skip(i), j) + i == word_end_from(s, i + j),
    decreases s.len() - i - j,
{
    if j < s.len() - i && unicode_alphanumeric(s[i + j]) {
        assert(s.skip(i)[j] == s[i + j]);
        lemma_word_end_shift(s, i, j + 1);
    } else if j < s.len() - i {
        assert(s.skip(i)[j] == s[i + j]);
    }
}

/// Title case of the characters `s`.
fn title_chars(s: &[char]) -> (r: Vec<char>)
    ensures
        r@ == title_case(s@),
{
    let n = s.len();
    let mut out: Vec<char> = Vec::new();
    let mut i: usize = 0;
    proof {
        assert(s@.skip(0) =~= s@);
    }
    while i < n
        invariant
            i <= n == s@.len(),
            title_case(s@) == out@ + title_case(s@.skip(i as int)),
        decreases n - i,
    {
        let ghost rest = s@.skip(i as int);
        let ghost before = out@;
        let c = s[i];
        assert(rest[0] == c);
        if !is_alphanumeric(c) {
            out.push(c);
            proof {
                assert(rest.drop_first() =~= s@.skip(i + 1));
                assert(out@ =~= before + seq![c]);
                assert(title_case(rest) == seq![c] + title_case(rest.drop_first()));
            }
            i = i + 1;
        } else {
            let mut j: usize = i + 1;
            while j < n && is_alphanumeric(s[j])
                invariant
                    i < j <= n == s@.len(),
                    forall|k: int| i + 1 <= k < j ==> unicode_alphanumeric(#[trigger] s@[k]),
                decreases n - j,
            {
                j = j + 1;
            }
            proof {
                lemma_word_end_skip(s@, i + 1, j as int);
                lemma_word_end_shift(s@, i as int, 1);
                lemma_word_end_bounds(rest, 1);
                assert(word_end_from(rest, 1) == j - i);
                assert(rest.take(1) =~= s@.subrange(i as int, i + 1));
                assert(rest.subrange(1, (j - i) as int) =~= s@.subrange(i + 1, j as int));
                assert(rest.skip((j - i) as int) =~= s@.skip(j as int));
            }
            let head: Vec<char> = vec![c];
            assert(head@ =~= s@.subrange(i as int, i + 1));
            let up = to_upper_chars(head.as_slice());
            let tail = slice_chars(s, i + 1, j);
            let low = to_lower_chars(tail.as_slice());
            crate::document::append_chars(&mut out, up.as_slice());
            crate::document::append_chars(&mut out, low.as_slice());
            proof {
                assert(out@ =~= before + (unicode_upper(rest.take(1)) + unicode_lower(rest.subrange(1, (j - i) as int))));
            }
            i = j;
        }
    }
    proof {
        assert(s@.skip(n as int) =~= Seq::<char>::empty());
        assert(out@ + Seq::<char>::empty() =~= out@);
    }
    out
}

/// The characters `s[a..b]`.
fn slice_chars(s: &[char], a: usize, b: usize) -> (r: Vec<char>)
    requires
        a <= b <= s@.len(),
    ensures
        r@ == s@.subrange(a as int, b as int),
{
    let mut r: Vec<char> = Vec::new();
    let mut i = a;
    while i < b
        invariant
            a <= i <= b <= s@.len(),
            r@ == s@.subrange(a as int, i as int),
        decreases b - i,
    {
        r.push(s[i]);
        i = i + 1;
        proof {
            assert(r@ =~= s@.subrange(a as int, i as int));
        }
    }
    r
}

/// A text converted to the given case.
pub open spec fn case_of(kind: CaseKind, s: Seq<char>) -> Seq<char> {
    match kind {
        CaseKind::Upper => unicode_upper(s),
        CaseKind::Lower => unicode_lower(s),
        CaseKind::Title => title_case(s),
    }
}

impl EditorCore {
    /// The offsets case conversion works on: a non-empty selection, else the
    /// whole text.
    pub open spec fn case_range(&self) -> (int, int) {
        match self.sel_offsets() {
            Some((s, e)) => if s < e { (s, e) } else { (0, self.doc.text().len() as int) },
            None => (0, self.doc.text().len() as int),
        }
    }

    /// The text case conversion works on.
    pub open spec fn case_src(&self) -> Seq<char> {
        self.doc.text().subrange(self.case_range().0, self.case_range().1)
    }

    /// The outcome of writing `out` over [`Self::case_range`]: `r` says
    /// whether it changed anything (a non-empty range, a different text, a
    /// result that fits). A selection is kept over the new text; without
    /// one the cursor keeps its line and column as far as the text allows.
    /// Bookmarks stay.
    pub open spec fn case_outcome(&self, post: &EditorCore, out: Seq<char>, r: bool) -> bool {
        let (s, e) = self.case_range();
        let n = self.doc.text().len() - (e - s) + out.len();
        &&& r == (s < e && out != self.case_src() && n < usize::MAX)
        &&& r ==> {
            &&& post.wf()
            &&& post.doc.text() == self.doc.text().take(s) + out + self.doc.text().skip(e)
            &&& post.doc.ending == self.doc.ending
            &&& edit_frame(self, post)
            &&& post.extra_cursors == self.extra_cursors
            &&& post.undo_view() == push_capped(self.undo_view(), self.snap())
            &&& post.redo_view() == Seq::<SnapV>::empty()
            &&& post.typing_run is None
            &&& post.bookmarks.items@ == self.bookmarks.items@
            &&& post.block_sel == self.block_sel
            &&& post.saved_baseline == self.saved_baseline
            &&& post.max_cols_stale
            &&& (self.anchor is Some ==> {
                &&& post.anchor matches Some(a) && (a.line as int, a.col as int) == pos_of_offset(post.ls(), s)
                &&& (post.cursor.line as int, post.cursor.col as int) == pos_of_offset(post.ls(), s + out.len())
            })
            &&& (self.anchor is None ==> {
                &&& post.anchor is None
                &&& post.cursor.line == if self.cursor.line < post.ls().len() { self.cursor.line as int } else { post.ls().len() - 1 }
                &&& post.cursor.col == if self.cursor.col <= post.ls()[post.cursor.line as int].body.len() {
                        self.cursor.col as int } else { post.ls()[post.cursor.line as int].body.len() as int }
            })
        }
        &&& !r ==> *post == *self
    }

    /// The range and text case conversion works on.
    pub fn case_source(&self) -> (r: (usize, usize, Vec<char>))
        requires
            self.wf(),
        ensures
            (r.0 as int, r.1 as int) == self.case_range(),
            r.0 <= r.1 <= self.doc.text().len(),
            r.2@ == self.case_src(),
    {
        let len = self.doc.text_len();
        let (s, e) = match self.selection_offsets() {
            Some((s, e)) => if s < e { (s, e) } else { (0, len) },
            None => (0, len),
        };
        (s, e, self.doc.slice(s, e))
    }

    /// Writes a case-converted text `out` over [`Self::case_range`] (see
    /// [`Self::case_outcome`]).
    #[verifier::rlimit(40)]
    pub fn apply_case_result(&mut self, out: &Vec<char>) -> (r: bool)
        requires
            old(self).wf(),
        ensures
            old(self).case_outcome(final(self), out@, r),
    {
        let (s, e, src) = self.case_source();
        let len = self.doc.text_len();
        if s >= e || same_chars(out.as_slice(), src.as_slice()) {
            return false;
        }
        if out.len() >= usize::MAX - (len - (e - s)) {
            return false;
        }
        let had_selection = self.anchor.is_some();
        let keep = self.cursor;
        self.snapshot();
        self.doc.replace_range(s, e, out.as_slice());
        let len2 = self.doc.text_len();
        proof {
            reveal(lines_wf);
        }
        if had_selection {
            let end_off = s + out.len();
            let (sl, sc) = self.doc.char_to_pos(s);
            let (el, ec) = self.doc.char_to_pos(end_off);
            self.anchor = Some(CursorPos { line: sl, col: sc });
            self.cursor = CursorPos { line: el, col: ec };
        } else {
            self.anchor = None;
            let n = self.doc.line_count();
            let line = if keep.line < n { keep.line } else { n - 1 };
            let bl = self.doc.body_len(line);
            self.cursor = CursorPos { line, col: if keep.col <= bl { keep.col } else { bl } };
        }
        true
    }

    /// Converts the selection (the whole document without a non-empty
    /// selection) to upper, lower or title case with the full Unicode mapping (see
    /// [`Self::case_outcome`]); no change leaves everything as it was.
    pub fn convert_case(&mut self, kind: CaseKind) -> (r: bool)
        requires
            old(self).wf(),
        ensures
            old(self).case_outcome(final(self), case_of(kind, old(self).case_src()), r),
    {
        let (_s, _e, src) = self.case_source();
        let out = match kind {
            CaseKind::Upper => to_upper_chars(src.as_slice()),
            CaseKind::Lower => to_lower_chars(src.as_slice()),
            CaseKind::Title => title_chars(src.as_slice()),
        };
        self.apply_case_result(&out)
    }
}

} // verus!
