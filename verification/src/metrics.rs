//! Display-column arithmetic: CJK/full-width characters take two columns,
//! a tab advances to the next tab stop. Columns are whole numbers; the
//! pixel width of a column is the view layer's business.

use vstd::prelude::*;

verus! {

/// Tab stop spacing, in display columns.
pub const TAB_STOP_COLS: usize = 4;

/// The code-point ranges drawn two columns wide (East Asian Width W/F plus
/// the symbol blocks that a CJK monospace font renders full-width).
pub open spec fn spec_is_wide(c: char) -> bool {
    let u = c as u32;
    ||| 0x00A1 <= u <= 0x00BF
    ||| u == 0x00D7
    ||| u == 0x00F7
    ||| 0x1100 <= u <= 0x115F
    ||| 0x2014 <= u <= 0x2027
    ||| 0x2030 <= u <= 0x203B
    ||| 0x2100 <= u <= 0x213A
    ||| 0x2190 <= u <= 0x21FF
    ||| 0x2200 <= u <= 0x22FF
    ||| 0x2500 <= u <= 0x25FF
    ||| 0x2E80 <= u <= 0x303E
    ||| 0x3041 <= u <= 0x33FF
    ||| 0x3400 <= u <= 0x4DBF
    ||| 0x4E00 <= u <= 0x9FFF
    ||| 0xA000 <= u <= 0xA4CF
    ||| 0xAC00 <= u <= 0xD7A3
    ||| 0xF900 <= u <= 0xFAFF
    ||| 0xFE30 <= u <= 0xFE4F
    ||| 0xFF00 <= u <= 0xFF60
    ||| 0xFFE0 <= u <= 0xFFE6
    ||| 0x20000 <= u <= 0x2FFFD
    ||| 0x30000 <= u <= 0x3FFFD
}

/// Whether `c` counts as full width (two display columns).
pub fn is_wide(c: char) -> (r: bool)
    ensures
        r == spec_is_wide(c),
{
    let u = c as u32;
    (0x00A1 <= u && u <= 0x00BF) || u == 0x00D7 || u == 0x00F7
        || (0x1100 <= u && u <= 0x115F) || (0x2014 <= u && u <= 0x2027)
        || (0x2030 <= u && u <= 0x203B) || (0x2100 <= u && u <= 0x213A)
        || (0x2190 <= u && u <= 0x21FF) || (0x2200 <= u && u <= 0x22FF)
        || (0x2500 <= u && u <= 0x25FF) || (0x2E80 <= u && u <= 0x303E)
        || (0x3041 <= u && u <= 0x33FF) || (0x3400 <= u && u <= 0x4DBF)
        || (0x4E00 <= u && u <= 0x9FFF) || (0xA000 <= u && u <= 0xA4CF)
        || (0xAC00 <= u && u <= 0xD7A3) || (0xF900 <= u && u <= 0xFAFF)
        || (0xFE30 <= u && u <= 0xFE4F) || (0xFF00 <= u && u <= 0xFF60)
        || (0xFFE0 <= u && u <= 0xFFE6) || (0x20000 <= u && u <= 0x2FFFD)
        || (0x30000 <= u && u <= 0x3FFFD)
}

/// Columns taken by `c` when it starts at display column `col`: a tab runs
/// to the next tab stop (1 to 4 columns), a wide character takes 2, any
/// other character 1.
pub open spec fn spec_char_cols(c: char, col: nat) -> nat {
    if c == '\t' {
        (TAB_STOP_COLS - col % (TAB_STOP_COLS as nat)) as nat
    } else if spec_is_wide(c) {
        2
    } else {
        1
    }
}

/// Display width of `s` laid out from column 0.
pub open spec fn spec_display_cols(s: Seq<char>) -> nat
    decreases s.len(),
{
    if s.len() == 0 {
        0
    } else {
        let w = spec_display_cols(s.drop_last());
        w + spec_char_cols(s.last(), w)
    }
}

/// Every character advances the column by 1 to 4.
pub proof fn lemma_char_cols_bounds(c: char, col: nat)
    ensures
        1 <= spec_char_cols(c, col) <= TAB_STOP_COLS,
{
}

/// A line is never wider than four columns per character.
pub proof fn lemma_display_cols_bound(s: Seq<char>)
    ensures
        spec_display_cols(s) <= 4 * s.len(),
    decreases s.len(),
{
    if s.len() > 0 {
        lemma_display_cols_bound(s.drop_last());
        lemma_char_cols_bounds(s.last(), spec_display_cols(s.drop_last()));
    }
}

/// Columns that `c` takes when it starts at column `col`.
pub fn char_cols(c: char, col: usize) -> (r: usize)
    ensures
        r == spec_char_cols(c, col as nat),
{
    if c == '\t' {
        TAB_STOP_COLS - col % TAB_STOP_COLS
    } else if is_wide(c) {
        2
    } else {
        1
    }
}

/// Display width of a character sequence (from column 0).
pub fn display_cols_of(s: &[char]) -> (r: usize)
    requires
        4 * s@.len() <= usize::MAX,
    ensures
        r == spec_display_cols(s@),
{
    let mut col: usize = 0;
    let mut i: usize = 0;
    while i < s.len()
        invariant
            i <= s@.len(),
            4 * s@.len() <= usize::MAX,
            col == spec_display_cols(s@.take(i as int)),
        decreases s@.len() - i,
    {
        proof {
            assert(s@.take(i + 1).drop_last() =~= s@.take(i as int));
            lemma_display_cols_bound(s@.take(i as int));
        }
        col = col + char_cols(s[i], col);
        i = i + 1;
    }
    proof {
        assert(s@.take(i as int) =~= s@);
    }
    col
}

/// Display width of `text` (from column 0).
pub fn display_cols(text: &str) -> (r: usize)
    requires
        4 * text@.len() <= usize::MAX,
    ensures
        r == spec_display_cols(text@),
{
    let v = crate::strs::chars_of(text);
    display_cols_of(v.as_slice())
}

/// Display width of the first `col` characters of `text` (all of it when
/// `col` runs past the end).
pub fn prefix_width(text: &str, col: usize) -> (r: usize)
    requires
        4 * text@.len() <= usize::MAX,
    ensures
        r == spec_display_cols(text@.take(if col < text@.len() { col as int } else { text@.len() as int })),
{
    let v = crate::strs::chars_of(text);
    let n = if col < v.len() { col } else { v.len() };
    let mut w: usize = 0;
    let mut i: usize = 0;
    while i < n
        invariant
            i <= n <= v@.len(),
            4 * v@.len() <= usize::MAX,
            w == spec_display_cols(v@.take(i as int)),
        decreases n - i,
    {
        proof {
            assert(v@.take(i + 1).drop_last() =~= v@.take(i as int));
            lemma_display_cols_bound(v@.take(i as int));
        }
        w = w + char_cols(v[i], w);
        i = i + 1;
    }
    w
}

/// Whether position `i` of `s` ends a line-break unit: every `\r` does
/// (alone or as the first half of `\r\n`), and a `\n` not preceded by `\r`.
pub open spec fn spec_break_at(s: Seq<char>, i: int) -> bool {
    s[i] == '\r' || (s[i] == '\n' && (i == 0 || s[i - 1] != '\r'))
}

/// Number of line-break units in `s`: `\r\n`, a lone `\r` and a lone `\n`
/// each count once.
pub open spec fn spec_break_count(s: Seq<char>) -> nat
    decreases s.len(),
{
    if s.len() == 0 {
        0
    } else {
        spec_break_count(s.drop_last()) + if spec_break_at(s, s.len() - 1) { 1nat } else { 0nat }
    }
}

/// Number of characters after the last `\r` or `\n` of `s` (all of them
/// when there is none).
pub open spec fn spec_tail_cols(s: Seq<char>) -> nat
    decreases s.len(),
{
    if s.len() == 0 {
        0
    } else if s.last() == '\r' || s.last() == '\n' {
        0
    } else {
        spec_tail_cols(s.drop_last()) + 1
    }
}

pub proof fn lemma_break_count_bound(s: Seq<char>)
    ensures
        spec_break_count(s) <= s.len(),
        spec_tail_cols(s) <= s.len(),
    decreases s.len(),
{
    if s.len() > 0 {
        lemma_break_count_bound(s.drop_last());
    }
}

/// Line-break units in text about to be inserted and the column count of
/// its last line: how far an insertion moves the cursor.
pub fn measure_insertion(text: &str) -> (r: (usize, usize))
    ensures
        r.0 == spec_break_count(text@),
        r.1 == spec_tail_cols(text@),
{
    let v = crate::strs::chars_of(text);
    measure_chars(v.as_slice())
}

/// [`measure_insertion`] on a character sequence.
pub fn measure_chars(v: &[char]) -> (r: (usize, usize))
    ensures
        r.0 == spec_break_count(v@),
        r.0 <= v@.len(),
        r.1 == spec_tail_cols(v@),
{
    let mut lines: usize = 0;
    let mut tail: usize = 0;
    let mut i: usize = 0;
    while i < v.len()
        invariant
            i <= v@.len(),
            lines == spec_break_count(v@.take(i as int)),
            tail == spec_tail_cols(v@.take(i as int)),
        decreases v@.len() - i,
    {
        proof {
            let t = v@.take(i + 1);
            assert(t.drop_last() =~= v@.take(i as int));
            lemma_break_count_bound(v@.take(i as int));
        }
        let c = v[i];
        if c == '\r' {
            lines = lines + 1;
            tail = 0;
        } else if c == '\n' {
            if i == 0 || v[i - 1] != '\r' {
                lines = lines + 1;
            }
            tail = 0;
        } else {
            tail = tail + 1;
        }
        i = i + 1;
    }
    proof {
        assert(v@.take(i as int) =~= v@);
        lemma_break_count_bound(v@);
    }
    (lines, tail)
}

} // verus!
