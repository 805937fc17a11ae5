//! The text buffer: a sequence of lines, each a body (no line-break
//! characters) and the line break that ends it. `\n`, `\r\n` and a lone
//! `\r` are line breaks; the last line has none (a text that ends with a
//! break has an empty last line). Positions are (line, column) with the
//! column counted in characters; offsets count every character of the
//! text, so `\r\n` counts two.

use vstd::prelude::*;
use crate::strs::{chars_of, string_of};

verus! {

/// The line break that ends a line.
#[derive(Debug, Clone, Copy, PartialEq, Eq, Structural)]
pub enum Eol {
    NoBreak,
    Lf,
    CrLf,
    Cr,
}

/// A document's dominant line ending: the one inserted text is normalized
/// to and line operations rebuild with.
#[derive(Debug, Clone, Copy, PartialEq, Eq, Structural)]
pub enum LineEnding {
    Lf,
    CrLf,
}

/// One line: its characters and its break.
#[derive(Debug)]
pub struct Line {
    pub body: Vec<char>,
    pub eol: Eol,
}

/// The text buffer.
#[derive(Debug)]
pub struct Document {
    pub lines: Vec<Line>,
    pub ending: LineEnding,
}

/// A line as a mathematical value.
pub struct LineV {
    pub body: Seq<char>,
    pub eol: Eol,
}

/// The characters of a line break.
pub open spec fn eol_chars(e: Eol) -> Seq<char> {
    match e {
        Eol::NoBreak => seq![],
        Eol::Lf => seq!['\n'],
        Eol::CrLf => seq!['\r', '\n'],
        Eol::Cr => seq!['\r'],
    }
}

/// The characters of a dominant line ending.
pub open spec fn ending_chars(e: LineEnding) -> Seq<char> {
    match e {
        LineEnding::Lf => seq!['\n'],
        LineEnding::CrLf => seq!['\r', '\n'],
    }
}

/// `c` is a line-break character.
pub open spec fn is_break_char(c: char) -> bool {
    c == '\n' || c == '\r'
}

/// `s` holds no line-break character.
pub open spec fn no_breaks(s: Seq<char>) -> bool {
    forall|j: int| 0 <= j < s.len() ==> !is_break_char(#[trigger] s[j])
}

/// The text of a line (body then break).
pub open spec fn line_text(l: LineV) -> Seq<char> {
    l.body + eol_chars(l.eol)
}

/// The text of a sequence of lines.
pub open spec fn text_of(ls: Seq<LineV>) -> Seq<char>
    decreases ls.len(),
{
    if ls.len() == 0 {
        seq![]
    } else {
        text_of(ls.drop_last()) + line_text(ls.last())
    }
}

/// A well-formed line sequence: at least one line; every line but the last
/// ends with a break and the last does not; bodies hold no break
/// characters; a lone `\r` is never directly followed by a `\n` (that pair
/// is one `\r\n` break).
#[verifier::opaque]
pub open spec fn lines_wf(ls: Seq<LineV>) -> bool {
    &&& ls.len() >= 1
    &&& ls.last().eol == Eol::NoBreak
    &&& forall|i: int| 0 <= i < ls.len() - 1 ==> (#[trigger] ls[i]).eol != Eol::NoBreak
    &&& forall|i: int| 0 <= i < ls.len() ==> no_breaks((#[trigger] ls[i]).body)
    &&& forall|i: int| 0 <= i < ls.len() - 1 ==> #[trigger] cr_ok(ls, i)
}

/// A lone `\r` break at line `i` is not followed by an empty line ending
/// in `\n`.
pub open spec fn cr_ok(ls: Seq<LineV>, i: int) -> bool {
    ls[i].eol == Eol::Cr ==> !(ls[i + 1].body.len() == 0 && ls[i + 1].eol == Eol::Lf)
}

/// Offset of the first character of line `l`.
pub open spec fn line_start(ls: Seq<LineV>, l: int) -> int {
    text_of(ls.take(l)).len() as int
}

/// How many lines of `ls` end in the break `e`.
pub open spec fn count_eol(ls: Seq<LineV>, e: Eol) -> nat
    decreases ls.len(),
{
    if ls.len() == 0 {
        0
    } else {
        count_eol(ls.drop_last(), e) + if ls.last().eol == e { 1nat } else { 0nat }
    }
}

/// The dominant ending detected from a line sequence: CRLF when more lines
/// end in `\r\n` than in a lone `\n`, LF otherwise (a tie included).
pub open spec fn detect_ending(ls: Seq<LineV>) -> LineEnding {
    if count_eol(ls, Eol::CrLf) > count_eol(ls, Eol::Lf) { LineEnding::CrLf } else { LineEnding::Lf }
}

/// The mathematical value of an exec line.
pub open spec fn line_v(l: Line) -> LineV {
    LineV { body: l.body@, eol: l.eol }
}

impl Document {
    /// The lines as mathematical values.
    pub open spec fn lv(&self) -> Seq<LineV> {
        self.lines@.map_values(|l: Line| line_v(l))
    }

    /// The whole text.
    pub open spec fn text(&self) -> Seq<char> {
        text_of(self.lv())
    }

    /// Well-formedness (see [`lines_wf`]); the text fits in `usize`.
    pub open spec fn wf(&self) -> bool {
        &&& lines_wf(self.lv())
        &&& self.text().len() < usize::MAX
    }

    /// Number of lines.
    pub open spec fn nlines(&self) -> int {
        self.lines@.len() as int
    }

    /// Body length of line `l` (its display length).
    pub open spec fn blen(&self, l: int) -> int {
        self.lv()[l].body.len() as int
    }

    /// Offset of the first character of line `l`.
    pub open spec fn lstart(&self, l: int) -> int {
        line_start(self.lv(), l)
    }
}

// ---------- lemmas about text_of ----------

pub proof fn lemma_text_of_push(ls: Seq<LineV>, l: LineV)
    ensures
        text_of(ls.push(l)) == text_of(ls) + line_text(l),
{
    assert(ls.push(l).drop_last() =~= ls);
}

pub proof fn lemma_text_of_append(a: Seq<LineV>, b: Seq<LineV>)
    ensures
        text_of(a + b) == text_of(a) + text_of(b),
    decreases b.len(),
{
    if b.len() == 0 {
        assert(a + b =~= a);
        assert(text_of(a) + text_of(b) =~= text_of(a));
    } else {
        lemma_text_of_append(a, b.drop_last());
        assert((a + b).drop_last() =~= a + b.drop_last());
        assert(text_of(a) + text_of(b) =~= text_of(a) + text_of(b.drop_last()) + line_text(b.last()));
    }
}

pub proof fn lemma_text_of_take_succ(ls: Seq<LineV>, l: int)
    requires
        0 <= l < ls.len(),
    ensures
        text_of(ls.take(l + 1)) == text_of(ls.take(l)) + line_text(ls[l]),
{
    assert(ls.take(l + 1) =~= ls.take(l).push(ls[l]));
    lemma_text_of_push(ls.take(l), ls[l]);
}

pub proof fn lemma_line_start_mono(ls: Seq<LineV>, a: int, b: int)
    requires
        0 <= a <= b <= ls.len(),
    ensures
        line_start(ls, a) <= line_start(ls, b),
        line_start(ls, b) <= text_of(ls).len(),
    decreases b - a,
{
    if a < b {
        lemma_line_start_mono(ls, a, b - 1);
        lemma_text_of_take_succ(ls, b - 1);
    }
    assert(ls.take(ls.len() as int) =~= ls);
    if b < ls.len() {
        lemma_text_of_append(ls.take(b), ls.skip(b));
        assert(ls.take(b) + ls.skip(b) =~= ls);
    }
}

/// The text of line `l` sits at its start offset.
pub proof fn lemma_line_in_text(ls: Seq<LineV>, l: int)
    requires
        0 <= l < ls.len(),
    ensures
        text_of(ls).subrange(line_start(ls, l), line_start(ls, l) + line_text(ls[l]).len())
            == line_text(ls[l]),
        line_start(ls, l + 1) == line_start(ls, l) + line_text(ls[l]).len(),
        line_start(ls, l + 1) <= text_of(ls).len(),
{
    lemma_text_of_take_succ(ls, l);
    lemma_text_of_append(ls.take(l + 1), ls.skip(l + 1));
    assert(ls.take(l + 1) + ls.skip(l + 1) =~= ls);
    let t = text_of(ls);
    let p = text_of(ls.take(l));
    assert(t =~= p + line_text(ls[l]) + text_of(ls.skip(l + 1)));
    assert(t.subrange(p.len() as int, (p.len() + line_text(ls[l]).len()) as int) =~= line_text(ls[l]));
}

pub proof fn lemma_text_of_len_lines(ls: Seq<LineV>)
    requires
        lines_wf(ls),
    ensures
        ls.len() <= text_of(ls).len() + 1,
    decreases ls.len(),
{
    reveal(lines_wf);
    if ls.len() > 1 {
        let p = ls.drop_last();
        assert(p.last().eol != Eol::NoBreak) by {
            assert(ls[ls.len() - 2].eol != Eol::NoBreak);
        }
        lemma_text_of_len_lines_prefix(p);
    }
}

proof fn lemma_text_of_len_lines_prefix(ls: Seq<LineV>)
    requires
        forall|i: int| 0 <= i < ls.len() ==> (#[trigger] ls[i]).eol != Eol::NoBreak,
    ensures
        ls.len() <= text_of(ls).len(),
    decreases ls.len(),
{
    if ls.len() > 0 {
        let p = ls.drop_last();
        assert forall|i: int| 0 <= i < p.len() implies (#[trigger] p[i]).eol != Eol::NoBreak by {
            assert(p[i] == ls[i]);
        }
        lemma_text_of_len_lines_prefix(p);
        assert(ls[ls.len() - 1].eol != Eol::NoBreak);
    }
}

// ---------- parsing ----------

/// The state of the line splitter after reading `s[..i]`: the finished
/// lines `gl` and the current partial line `cur`.
pub open spec fn parse_inv(s: Seq<char>, i: int, gl: Seq<LineV>, cur: Seq<char>) -> bool {
    &&& 0 <= i <= s.len()
    &&& text_of(gl) + cur == s.take(i)
    &&& forall|k: int| 0 <= k < gl.len() ==> (#[trigger] gl[k]).eol != Eol::NoBreak
    &&& forall|k: int| 0 <= k < gl.len() ==> no_breaks((#[trigger] gl[k]).body)
    &&& no_breaks(cur)
    &&& forall|k: int| 0 <= k < gl.len() - 1 ==> #[trigger] cr_ok(gl, k)
    &&& (gl.len() > 0 && gl.last().eol == Eol::Cr && cur.len() == 0 ==> (i >= s.len() || s[i] != '\n'))
}

proof fn lemma_parse_char(s: Seq<char>, i: int, gl: Seq<LineV>, cur: Seq<char>)
    requires
        parse_inv(s, i, gl, cur),
        i < s.len(),
        !is_break_char(s[i]),
    ensures
        parse_inv(s, i + 1, gl, cur.push(s[i])),
{
    assert(s.take(i + 1) =~= s.take(i).push(s[i]));
    assert(text_of(gl) + cur.push(s[i]) =~= (text_of(gl) + cur).push(s[i]));
    assert forall|j: int| 0 <= j < cur.push(s[i]).len() implies !is_break_char(#[trigger] cur.push(s[i])[j]) by {
        if j < cur.len() {
            assert(cur.push(s[i])[j] == cur[j]);
        }
    }
}

proof fn lemma_parse_break(s: Seq<char>, i: int, gl: Seq<LineV>, line: LineV, step: int)
    requires
        parse_inv(s, i, gl, line.body),
        i < s.len(),
        is_break_char(s[i]),
        s[i] == '\n' ==> line.eol == Eol::Lf,
        s[i] == '\r' && i + 1 < s.len() && s[i + 1] == '\n' ==> line.eol == Eol::CrLf,
        s[i] == '\r' && !(i + 1 < s.len() && s[i + 1] == '\n') ==> line.eol == Eol::Cr,
        step == if line.eol == Eol::CrLf { 2int } else { 1int },
    ensures
        parse_inv(s, i + step, gl.push(line), seq![]),
{
    let g2 = gl.push(line);
    lemma_text_of_push(gl, line);
    assert(s.take(i + step) =~= s.take(i) + eol_chars(line.eol));
    assert(text_of(g2) + Seq::<char>::empty() =~= s.take(i + step));
    assert forall|k: int| 0 <= k < g2.len() implies (#[trigger] g2[k]).eol != Eol::NoBreak by {
        if k < gl.len() { assert(g2[k] == gl[k]); }
    }
    assert forall|k: int| 0 <= k < g2.len() implies no_breaks((#[trigger] g2[k]).body) by {
        if k < gl.len() { assert(g2[k] == gl[k]); }
    }
    assert forall|k: int| 0 <= k < g2.len() - 1 implies #[trigger] cr_ok(g2, k) by {
        assert(g2[k] == gl[k]);
        if k + 1 < gl.len() {
            assert(cr_ok(gl, k));
        }
        if k + 1 < gl.len() {
            assert(g2[k + 1] == gl[k + 1]);
        } else {
            assert(g2[k + 1] == line);
            if line.body.len() == 0 && line.eol == Eol::Lf {
                assert(s[i] == '\n');
                assert(gl.last() == gl[k]);
            }
        }
    }
    assert(no_breaks(Seq::<char>::empty()));
}

proof fn lemma_parse_finish(s: Seq<char>, gl: Seq<LineV>, last: LineV)
    requires
        parse_inv(s, s.len() as int, gl, last.body),
        last.eol == Eol::NoBreak,
    ensures
        lines_wf(gl.push(last)),
        text_of(gl.push(last)) == s,
{
    reveal(lines_wf);
    let ls = gl.push(last);
    lemma_text_of_push(gl, last);
    assert(eol_chars(Eol::NoBreak) =~= Seq::<char>::empty());
    assert(s.take(s.len() as int) =~= s);
    assert(text_of(ls) =~= s);
    assert forall|k: int| 0 <= k < ls.len() - 1 implies (#[trigger] ls[k]).eol != Eol::NoBreak by {
        assert(ls[k] == gl[k]);
    }
    assert forall|k: int| 0 <= k < ls.len() implies no_breaks((#[trigger] ls[k]).body) by {
        if k < gl.len() { assert(ls[k] == gl[k]); }
    }
    assert forall|k: int| 0 <= k < ls.len() - 1 implies #[trigger] cr_ok(ls, k) by {
        assert(ls[k] == gl[k]);
        if k + 1 < gl.len() {
            assert(ls[k + 1] == gl[k + 1]);
            assert(cr_ok(gl, k));
        }
    }
}

// ---------- exec ----------

fn clone_chars(v: &Vec<char>) -> (r: Vec<char>)
    ensures
        r@ == v@,
{
    let mut r: Vec<char> = Vec::new();
    let mut i: usize = 0;
    while i < v.len()
        invariant
            i <= v@.len(),
            r@ == v@.take(i as int),
        decreases v@.len() - i,
    {
        r.push(v[i]);
        i = i + 1;
        proof {
            assert(r@ =~= v@.take(i as int));
        }
    }
    proof {
        assert(v@.take(i as int) =~= v@);
    }
    r
}

/// Appends the characters of the break `e` to `out`.
pub fn push_eol(out: &mut Vec<char>, e: Eol)
    ensures
        final(out)@ == old(out)@ + eol_chars(e),
{
    match e {
        Eol::NoBreak => {
            assert(old(out)@ + eol_chars(e) =~= old(out)@);
        },
        Eol::Lf => {
            out.push('\n');
            assert(final(out)@ =~= old(out)@ + eol_chars(e));
        },
        Eol::CrLf => {
            out.push('\r');
            out.push('\n');
            assert(final(out)@ =~= old(out)@ + eol_chars(e));
        },
        Eol::Cr => {
            out.push('\r');
            assert(final(out)@ =~= old(out)@ + eol_chars(e));
        },
    }
}

/// Appends the characters of `v` to `out`.
pub fn append_chars(out: &mut Vec<char>, v: &[char])
    ensures
        final(out)@ == old(out)@ + v@,
{
    let mut i: usize = 0;
    let ghost start = out@;
    while i < v.len()
        invariant
            i <= v@.len(),
            out@ == start + v@.take(i as int),
        decreases v@.len() - i,
    {
        out.push(v[i]);
        i = i + 1;
        proof {
            assert(out@ =~= start + v@.take(i as int));
        }
    }
    proof {
        assert(v@.take(i as int) =~= v@);
    }
}

impl Document {
    /// An empty document (one empty line, LF).
    pub fn new() -> (d: Document)
        ensures
            d.wf(),
            d.text() == Seq::<char>::empty(),
            d.ending == LineEnding::Lf,
    {
        let mut lines: Vec<Line> = Vec::new();
        lines.push(Line { body: Vec::new(), eol: Eol::NoBreak });
        let d = Document { lines, ending: LineEnding::Lf };
        proof {
            reveal(lines_wf);
            let ls = d.lv();
            assert(ls =~= seq![LineV { body: seq![], eol: Eol::NoBreak }]);
            assert(ls.drop_last() =~= Seq::<LineV>::empty());
            assert(line_text(ls.last()) =~= Seq::<char>::empty());
            assert(text_of(Seq::<LineV>::empty()) =~= Seq::<char>::empty());
            assert(text_of(ls) =~= Seq::<char>::empty());
        }
        d
    }

    /// Splits a text into lines; the dominant ending is CRLF when more lines
    /// end in `\r\n` than in `\n`, LF otherwise.
    pub fn from_chars(s: &[char]) -> (d: Document)
        requires
            s@.len() < usize::MAX,
        ensures
            d.wf(),
            d.text() == s@,
            d.ending == detect_ending(d.lv()),
    {
        let mut lines: Vec<Line> = Vec::new();
        let mut cur: Vec<char> = Vec::new();
        let mut i: usize = 0;
        let n = s.len();
        let ghost mut gl: Seq<LineV> = seq![];
        proof {
            assert(text_of(gl) =~= Seq::<char>::empty());
            assert(s@.take(0) =~= Seq::<char>::empty());
            assert(text_of(gl) + cur@ =~= s@.take(0));
        }
        while i < n
            invariant
                n == s@.len(),
                i <= n,
                gl == lines@.map_values(|l: Line| line_v(l)),
                parse_inv(s@, i as int, gl, cur@),
            decreases n - i,
        {
            let c = s[i];
            if c == '\n' || c == '\r' {
                let e = if c == '\n' {
                    Eol::Lf
                } else if i + 1 < n && s[i + 1] == '\n' {
                    Eol::CrLf
                } else {
                    Eol::Cr
                };
                let body = cur;
                cur = Vec::new();
                let ghost line = Line { body, eol: e };
                lines.push(Line { body, eol: e });
                let step: usize = if e == Eol::CrLf { 2 } else { 1 };
                proof {
                    lemma_parse_break(s@, i as int, gl, line_v(line), step as int);
                    assert(lines@.map_values(|l: Line| line_v(l)) =~= gl.push(line_v(line)));
                    gl = gl.push(line_v(line));
                }
                i = i + step;
            } else {
                let ghost old_cur = cur@;
                cur.push(c);
                proof {
                    lemma_parse_char(s@, i as int, gl, old_cur);
                }
                i = i + 1;
            }
        }
        let ghost last = Line { body: cur, eol: Eol::NoBreak };
        lines.push(Line { body: cur, eol: Eol::NoBreak });
        let ghost lv = lines@.map_values(|l: Line| line_v(l));
        let mut crlf: usize = 0;
        let mut lf: usize = 0;
        let mut k: usize = 0;
        proof {
            assert(lv.take(0) =~= Seq::<LineV>::empty());
        }
        while k < lines.len()
            invariant
                k <= lines@.len() == lv.len(),
                lv == lines@.map_values(|l: Line| line_v(l)),
                crlf == count_eol(lv.take(k as int), Eol::CrLf),
                lf == count_eol(lv.take(k as int), Eol::Lf),
                crlf <= k && lf <= k,
            decreases lines@.len() - k,
        {
            proof {
                assert(lv.take(k + 1).drop_last() =~= lv.take(k as int));
            }
            if lines[k].eol == Eol::CrLf {
                crlf = crlf + 1;
            } else if lines[k].eol == Eol::Lf {
                lf = lf + 1;
            }
            k = k + 1;
        }
        proof {
            assert(lv.take(k as int) =~= lv);
        }
        let ending = if crlf > lf { LineEnding::CrLf } else { LineEnding::Lf };
        let d = Document { lines, ending };
        proof {
            assert(d.lv() =~= gl.push(line_v(last)));
            lemma_parse_finish(s@, gl, line_v(last));
        }
        d
    }

    /// Builds a document from a string (see [`Document::from_chars`]).
    pub fn from_str(s: &str) -> (d: Document)
        requires
            s@.len() < usize::MAX,
        ensures
            d.wf(),
            d.text() == s@,
            d.ending == detect_ending(d.lv()),
    {
        let v = chars_of(s);
        Document::from_chars(v.as_slice())
    }

    /// The whole text as characters.
    pub fn to_chars(&self) -> (r: Vec<char>)
        ensures
            r@ == self.text(),
    {
        let mut out: Vec<char> = Vec::new();
        let mut i: usize = 0;
        while i < self.lines.len()
            invariant
                i <= self.lines@.len(),
                out@ == text_of(self.lv().take(i as int)),
            decreases self.lines@.len() - i,
        {
            proof {
                lemma_text_of_take_succ(self.lv(), i as int);
            }
            append_chars(&mut out, self.lines[i].body.as_slice());
            push_eol(&mut out, self.lines[i].eol);
            i = i + 1;
        }
        proof {
            assert(self.lv().take(i as int) =~= self.lv());
        }
        out
    }

    /// The whole text.
    pub fn to_text(&self) -> (r: String)
        ensures
            r@ == self.text(),
    {
        let v = self.to_chars();
        string_of(v.as_slice())
    }

    /// A copy of the document.
    pub fn clone_doc(&self) -> (r: Document)
        ensures
            r.lv() == self.lv(),
            r.ending == self.ending,
    {
        let mut lines: Vec<Line> = Vec::new();
        let mut i: usize = 0;
        while i < self.lines.len()
            invariant
                i <= self.lines@.len(),
                lines@.map_values(|l: Line| line_v(l)) == self.lv().take(i as int),
            decreases self.lines@.len() - i,
        {
            let body = clone_chars(&self.lines[i].body);
            let ghost l = Line { body, eol: self.lines@[i as int].eol };
            lines.push(Line { body, eol: self.lines[i].eol });
            i = i + 1;
            proof {
                assert(line_v(l) == self.lv()[i - 1]);
                assert(lines@.map_values(|l: Line| line_v(l)) =~= self.lv().take(i - 1).push(line_v(l)));
                assert(self.lv().take(i as int) =~= self.lv().take(i - 1).push(self.lv()[i - 1]));
            }
        }
        proof {
            assert(self.lv().take(i as int) =~= self.lv());
        }
        Document { lines, ending: self.ending }
    }

    /// Number of lines.
    pub fn line_count(&self) -> (r: usize)
        ensures
            r == self.nlines(),
    {
        self.lines.len()
    }

    /// Display length of line `l` (its characters without the break).
    pub fn body_len(&self, l: usize) -> (r: usize)
        requires
            l < self.nlines(),
        ensures
            r == self.blen(l as int),
    {
        self.lines[l].body.len()
    }

    /// The break of line `l`.
    pub fn eol_of(&self, l: usize) -> (r: Eol)
        requires
            l < self.nlines(),
        ensures
            r == self.lv()[l as int].eol,
    {
        self.lines[l].eol
    }

    /// The characters of line `l` without its break.
    pub fn body_chars(&self, l: usize) -> (r: Vec<char>)
        requires
            l < self.nlines(),
        ensures
            r@ == self.lv()[l as int].body,
    {
        clone_chars(&self.lines[l].body)
    }

    /// Number of characters in the text.
    pub fn text_len(&self) -> (r: usize)
        requires
            self.wf(),
        ensures
            r == self.text().len(),
    {
        let mut total: usize = 0;
        let mut i: usize = 0;
        while i < self.lines.len()
            invariant
                self.wf(),
                i <= self.lines@.len(),
                total == line_start(self.lv(), i as int),
            decreases self.lines@.len() - i,
        {
            proof {
                lemma_line_in_text(self.lv(), i as int);
            }
            let e: usize = match self.lines[i].eol {
                Eol::NoBreak => 0,
                Eol::CrLf => 2,
                _ => 1,
            };
            total = total + self.lines[i].body.len() + e;
            i = i + 1;
        }
        proof {
            assert(self.lv().take(i as int) =~= self.lv());
        }
        total
    }

    /// Offset of the first character of line `l`.
    pub fn line_to_char(&self, l: usize) -> (r: usize)
        requires
            self.wf(),
            l <= self.nlines(),
        ensures
            r == self.lstart(l as int),
    {
        let mut total: usize = 0;
        let mut i: usize = 0;
        while i < l
            invariant
                self.wf(),
                i <= l <= self.lines@.len(),
                total == line_start(self.lv(), i as int),
            decreases l - i,
        {
            proof {
                lemma_line_in_text(self.lv(), i as int);
            }
            let e: usize = match self.lines[i].eol {
                Eol::NoBreak => 0,
                Eol::CrLf => 2,
                _ => 1,
            };
            total = total + self.lines[i].body.len() + e;
            i = i + 1;
        }
        total
    }
}

/// The line that holds offset `off`: the last line whose start is at or
/// before it.
pub open spec fn line_of_offset(ls: Seq<LineV>, off: int) -> int
    decreases ls.len(),
{
    if ls.len() <= 1 || line_start(ls, ls.len() - 1) <= off {
        if ls.len() == 0 { 0 } else { ls.len() - 1 }
    } else {
        line_of_offset(ls.drop_last(), off)
    }
}

/// The position of offset `off`: its line and the column within it, an
/// offset inside a line break counting as the end of that line's text.
pub open spec fn pos_of_offset(ls: Seq<LineV>, off: int) -> (int, int) {
    let l = line_of_offset(ls, off);
    let c = off - line_start(ls, l);
    (l, if c <= ls[l].body.len() { c } else { ls[l].body.len() as int })
}

/// `s` with every line break (`\r\n`, lone `\r`, lone `\n`) replaced by the
/// characters of `e`.
pub open spec fn normalize_eol(s: Seq<char>, e: LineEnding) -> Seq<char>
    decreases s.len(),
{
    if s.len() == 0 {
        seq![]
    } else if s.last() == '\n' && s.len() >= 2 && s[s.len() - 2] == '\r' {
        normalize_eol(s.drop_last(), e)
    } else if is_break_char(s.last()) {
        normalize_eol(s.drop_last(), e) + ending_chars(e)
    } else {
        normalize_eol(s.drop_last(), e).push(s.last())
    }
}

proof fn lemma_line_start_take(ls: Seq<LineV>, k: int, l: int)
    requires
        0 <= l <= k <= ls.len(),
    ensures
        line_start(ls.take(k), l) == line_start(ls, l),
{
    assert(ls.take(k).take(l) =~= ls.take(l));
}

proof fn lemma_line_of_offset(ls: Seq<LineV>, off: int)
    requires
        ls.len() >= 1,
        0 <= off,
    ensures
        0 <= line_of_offset(ls, off) < ls.len(),
        line_of_offset(ls, off) == 0 || line_start(ls, line_of_offset(ls, off)) <= off,
        forall|m: int| line_of_offset(ls, off) < m < ls.len() ==> line_start(ls, m) > off,
    decreases ls.len(),
{
    if ls.len() <= 1 || line_start(ls, ls.len() - 1) <= off {
    } else {
        let p = ls.drop_last();
        lemma_line_of_offset(p, off);
        let l = line_of_offset(p, off);
        assert(p =~= ls.take(ls.len() - 1));
        lemma_line_start_take(ls, ls.len() - 1, l);
        assert forall|m: int| l < m < ls.len() implies line_start(ls, m) > off by {
            if m < ls.len() - 1 {
                lemma_line_start_take(ls, ls.len() - 1, m);
            }
        }
    }
}

impl Document {
    /// Length of line `l` including its break.
    pub fn full_len(&self, l: usize) -> (r: usize)
        requires
            self.wf(),
            l < self.nlines(),
        ensures
            r == line_text(self.lv()[l as int]).len(),
            r == self.lstart(l + 1) - self.lstart(l as int),
    {
        proof {
            lemma_line_in_text(self.lv(), l as int);
        }
        let e: usize = match self.lines[l].eol {
            Eol::NoBreak => 0,
            Eol::CrLf => 2,
            _ => 1,
        };
        self.lines[l].body.len() + e
    }

    /// The position of offset `off` (see [`pos_of_offset`]).
    pub fn char_to_pos(&self, off: usize) -> (r: (usize, usize))
        requires
            self.wf(),
        ensures
            (r.0 as int, r.1 as int) == pos_of_offset(self.lv(), off as int),
            r.0 < self.nlines(),
            r.1 <= self.blen(r.0 as int),
    {
        proof {
            reveal(lines_wf);
            lemma_line_of_offset(self.lv(), off as int);
        }
        let n = self.lines.len();
        let mut i: usize = 0;
        let mut start: usize = 0;
        proof {
            lemma_line_in_text(self.lv(), 0);
            assert(self.lv().take(0) =~= Seq::<LineV>::empty());
        }
        while i + 1 < n && start + self.full_len(i) <= off
            invariant
                self.wf(),
                n == self.nlines(),
                n >= 1,
                i < n,
                start == self.lstart(i as int),
                start <= off,
                self.lstart(i + 1) <= self.text().len(),
                i <= line_of_offset(self.lv(), off as int),
            decreases n - i,
        {
            proof {
                lemma_line_in_text(self.lv(), i as int);
                lemma_line_of_offset(self.lv(), off as int);
                lemma_line_in_text(self.lv(), i + 1);
            }
            start = start + self.full_len(i);
            i = i + 1;
        }
        proof {
            lemma_line_in_text(self.lv(), i as int);
            lemma_line_of_offset(self.lv(), off as int);
            let lo = line_of_offset(self.lv(), off as int);
            if lo > i {
                lemma_line_start_mono(self.lv(), i + 1, lo);
            }
        }
        let l = i;
        let c = off - start;
        let b = self.lines[l].body.len();
        (l, if c <= b { c } else { b })
    }
}

/// A position inside a line's text maps back to itself.
pub proof fn lemma_pos_round_trip(ls: Seq<LineV>, l: int, c: int)
    requires
        lines_wf(ls),
        0 <= l < ls.len(),
        0 <= c <= ls[l].body.len(),
    ensures
        pos_of_offset(ls, line_start(ls, l) + c) == (l, c),
        line_start(ls, l) + c <= text_of(ls).len(),
{
    reveal(lines_wf);
    let off = line_start(ls, l) + c;
    lemma_line_in_text(ls, l);
    lemma_line_of_offset(ls, off);
    let lo = line_of_offset(ls, off);
    if lo < l {
        // line l starts at or before off, so the last such line is not before it
        lemma_line_of_offset(ls, off);
    }
    if lo > l {
        lemma_line_start_mono(ls, l + 1, lo);
        assert(ls[l].eol != Eol::NoBreak);
        assert(eol_chars(ls[l].eol).len() >= 1);
    }
    if lo < l {
        assert(false);
    }
}

/// The last line (which has no break) runs to the end of the text.
pub proof fn lemma_last_line_start(ls: Seq<LineV>)
    requires
        lines_wf(ls),
    ensures
        line_start(ls, ls.len() - 1) + ls.last().body.len() == text_of(ls).len(),
{
    reveal(lines_wf);
    lemma_line_in_text(ls, ls.len() - 1);
    assert(ls.take(ls.len() as int) =~= ls);
    assert(eol_chars(Eol::NoBreak).len() == 0);
}

impl Document {
    /// The characters of offsets `[start, end)`.
    pub fn slice(&self, start: usize, end: usize) -> (r: Vec<char>)
        requires
            self.wf(),
            start <= end <= self.text().len(),
        ensures
            r@ == self.text().subrange(start as int, end as int),
    {
        let all = self.to_chars();
        let mut r: Vec<char> = Vec::new();
        let mut i = start;
        while i < end
            invariant
                start <= i <= end <= all@.len(),
                r@ == all@.subrange(start as int, i as int),
            decreases end - i,
        {
            r.push(all[i]);
            i = i + 1;
            proof {
                assert(r@ =~= all@.subrange(start as int, i as int));
            }
        }
        r
    }

    /// Replaces offsets `[start, end)` with `ins` (the text is re-split
    /// into lines; the dominant ending stays).
    pub fn replace_range(&mut self, start: usize, end: usize, ins: &[char])
        requires
            old(self).wf(),
            start <= end <= old(self).text().len(),
            old(self).text().len() - (end - start) + ins@.len() < usize::MAX,
        ensures
            final(self).wf(),
            final(self).text() == old(self).text().take(start as int) + ins@ + old(self).text().skip(end as int),
            final(self).ending == old(self).ending,
    {
        let all = self.to_chars();
        let mut out: Vec<char> = Vec::new();
        let mut i: usize = 0;
        while i < start
            invariant
                i <= start <= end <= all@.len(),
                out@ == all@.take(i as int),
            decreases start - i,
        {
            out.push(all[i]);
            i = i + 1;
            proof {
                assert(out@ =~= all@.take(i as int));
            }
        }
        append_chars(&mut out, ins);
        let mut j = end;
        let ghost mid = out@;
        while j < all.len()
            invariant
                end <= j <= all@.len(),
                out@ == mid + all@.subrange(end as int, j as int),
            decreases all@.len() - j,
        {
            out.push(all[j]);
            j = j + 1;
            proof {
                assert(out@ =~= mid + all@.subrange(end as int, j as int));
            }
        }
        proof {
            assert(all@.subrange(end as int, j as int) =~= all@.skip(end as int));
        }
        let ending = self.ending;
        let mut d = Document::from_chars(out.as_slice());
        d.ending = ending;
        *self = d;
    }

    /// Whether two documents hold the same text.
    pub fn content_eq(&self, other: &Document) -> (r: bool)
        ensures
            r == (self.text() == other.text()),
    {
        let a = self.to_chars();
        let b = other.to_chars();
        if a.len() != b.len() {
            return false;
        }
        let mut i: usize = 0;
        while i < a.len()
            invariant
                i <= a@.len() == b@.len(),
                a@ == self.text(),
                b@ == other.text(),
                forall|j: int| 0 <= j < i ==> a@[j] == b@[j],
            decreases a@.len() - i,
        {
            if a[i] != b[i] {
                proof {
                    assert(a@[i as int] != b@[i as int]);
                    assert(self.text() != other.text());
                }
                return false;
            }
            i = i + 1;
        }
        proof {
            assert(a@ =~= b@);
        }
        true
    }

    /// The dominant line ending.
    pub fn line_ending(&self) -> (r: LineEnding)
        ensures
            r == self.ending,
    {
        self.ending
    }
}

/// The characters of a dominant ending.
pub fn newline_chars(e: LineEnding) -> (r: Vec<char>)
    ensures
        r@ == ending_chars(e),
{
    let mut v: Vec<char> = Vec::new();
    match e {
        LineEnding::Lf => { v.push('\n'); },
        LineEnding::CrLf => { v.push('\r'); v.push('\n'); },
    }
    proof {
        assert(v@ =~= ending_chars(e));
    }
    v
}

pub proof fn lemma_normalize_len(s: Seq<char>, e: LineEnding)
    ensures
        normalize_eol(s, e).len() <= 2 * s.len(),
    decreases s.len(),
{
    if s.len() > 0 {
        lemma_normalize_len(s.drop_last(), e);
    }
}

/// Every line break of `s` replaced by the ending `e`.
pub fn normalize_chars(s: &[char], e: LineEnding) -> (r: Vec<char>)
    requires
        2 * s@.len() <= usize::MAX,
    ensures
        r@ == normalize_eol(s@, e),
{
    let nl = newline_chars(e);
    let mut out: Vec<char> = Vec::new();
    let mut i: usize = 0;
    while i < s.len()
        invariant
            i <= s@.len(),
            nl@ == ending_chars(e),
            out@ == normalize_eol(s@.take(i as int), e),
        decreases s@.len() - i,
    {
        let c = s[i];
        proof {
            let t = s@.take(i + 1);
            assert(t.drop_last() =~= s@.take(i as int));
            if i >= 1 {
                assert(t[t.len() - 2] == s@[i - 1]);
            }
        }
        if c == '\n' && i >= 1 && s[i - 1] == '\r' {
        } else if c == '\n' || c == '\r' {
            append_chars(&mut out, nl.as_slice());
        } else {
            out.push(c);
        }
        i = i + 1;
    }
    proof {
        assert(s@.take(i as int) =~= s@);
    }
    out
}

} // verus!
