//! Matching brackets next to the cursor, and the jump between the two sides
//! of a pair.

use vstd::prelude::*;
use crate::document::pos_of_offset;
use crate::editor::{CursorPos, EditorCore};

verus! {

/// A scan for a partner bracket gives up after this many characters.
pub const MAX_BRACKET_SCAN_CHARS: usize = 4_000_000;

/// The pair a bracket character belongs to: its opening and closing
/// characters and whether it is the opening one.
pub open spec fn bracket_pair(c: char) -> Option<(char, char, bool)> {
    if c == '(' {
        Some(('(', ')', true))
    } else if c == ')' {
        Some(('(', ')', false))
    } else if c == '[' {
        Some(('[', ']', true))
    } else if c == ']' {
        Some(('[', ']', false))
    } else if c == '{' {
        Some(('{', '}', true))
    } else if c == '}' {
        Some(('{', '}', false))
    } else {
        None
    }
}

/// What one character adds to the nesting depth: 1 for `open`, -1 for
/// `close`, 0 otherwise.
pub open spec fn depth_step(c: char, open: char, close: char) -> int {
    if c == open {
        1
    } else if c == close {
        -1
    } else {
        0
    }
}

/// Openings minus closings of one pair in `t[a..b)`.
pub open spec fn balance(t: Seq<char>, a: int, b: int, open: char, close: char) -> int
    decreases b - a,
{
    if b <= a {
        0
    } else {
        balance(t, a, b - 1, open, close) + depth_step(t[b - 1], open, close)
    }
}

/// `j` holds the closing bracket that matches the opening one at `b`: the
/// first place after `b` where the closings outnumber the openings, within
/// the scan limit.
pub open spec fn closes_at(t: Seq<char>, b: int, j: int, open: char, close: char) -> bool {
    &&& b < j < t.len()
    &&& j - b <= MAX_BRACKET_SCAN_CHARS
    &&& balance(t, b + 1, j + 1, open, close) == -1
    &&& forall|k: int| b < k < j ==> #[trigger] balance(t, b + 1, k + 1, open, close) >= 0
}

/// No closing bracket within the scan limit matches the opening one at `b`.
pub open spec fn no_close(t: Seq<char>, b: int, open: char, close: char) -> bool {
    forall|j: int|
        b < j < t.len() && j - b <= MAX_BRACKET_SCAN_CHARS ==> #[trigger] balance(t, b + 1, j + 1, open, close) >= 0
}

/// `a` holds the opening bracket that matches the closing one at `b`: the
/// last place before `b` where the openings outnumber the closings, within
/// the scan limit.
pub open spec fn opens_at(t: Seq<char>, b: int, a: int, open: char, close: char) -> bool {
    &&& 0 <= a < b
    &&& b - a <= MAX_BRACKET_SCAN_CHARS
    &&& balance(t, a, b, open, close) == 1
    &&& forall|k: int| a < k < b ==> #[trigger] balance(t, k, b, open, close) <= 0
}

/// No opening bracket within the scan limit matches the closing one at `b`.
pub open spec fn no_open(t: Seq<char>, b: int, open: char, close: char) -> bool {
    forall|a: int| 0 <= a < b && b - a <= MAX_BRACKET_SCAN_CHARS ==> #[trigger] balance(t, a, b, open, close) <= 0
}

/// The bracket next to offset `off`: the character after it if that is a
/// bracket, else the one before it.
pub open spec fn adjacent_bracket(t: Seq<char>, off: int) -> Option<(int, char, char, bool)> {
    if 0 <= off < t.len() && bracket_pair(t[off]) is Some {
        let p = bracket_pair(t[off]).unwrap();
        Some((off, p.0, p.1, p.2))
    } else if 0 < off <= t.len() && bracket_pair(t[off - 1]) is Some {
        let p = bracket_pair(t[off - 1]).unwrap();
        Some((off - 1, p.0, p.1, p.2))
    } else {
        None
    }
}

/// `r` answers a bracket query at offset `off` of `t`: `None` when no
/// bracket is adjacent or its partner is not found, else the bracket's
/// offset and its partner's.
pub open spec fn bracket_answer(t: Seq<char>, off: int, r: Option<(usize, usize)>) -> bool {
    match adjacent_bracket(t, off) {
        None => r is None,
        Some((b, open, close, is_open)) => match r {
            Some((x, y)) => x == b && if is_open {
                closes_at(t, b, y as int, open, close)
            } else {
                opens_at(t, b, y as int, open, close)
            },
            None => if is_open {
                no_close(t, b, open, close)
            } else {
                no_open(t, b, open, close)
            },
        },
    }
}

/// Splitting off the first character of a range.
proof fn lemma_balance_front(t: Seq<char>, a: int, b: int, open: char, close: char)
    requires
        0 <= a < b <= t.len(),
    ensures
        balance(t, a, b, open, close) == depth_step(t[a], open, close) + balance(t, a + 1, b, open, close),
    decreases b - a,
{
    reveal_with_fuel(balance, 2);
    if a + 1 < b {
        lemma_balance_front(t, a, b - 1, open, close);
    }
}

/// The character classes of a pair do not overlap.
proof fn lemma_pair_distinct(c: char)
    requires
        bracket_pair(c) is Some,
    ensures
        bracket_pair(c).unwrap().0 != bracket_pair(c).unwrap().1,
        bracket_pair(c).unwrap().2 ==> c == bracket_pair(c).unwrap().0,
        !bracket_pair(c).unwrap().2 ==> c == bracket_pair(c).unwrap().1,
{
}

/// Depth over adjacent ranges adds up.
proof fn lemma_balance_split(t: Seq<char>, a: int, m: int, b: int, open: char, close: char)
    requires
        a <= m <= b,
    ensures
        balance(t, a, b, open, close) == balance(t, a, m, open, close) + balance(t, m, b, open, close),
    decreases b - m,
{
    if m < b {
        lemma_balance_split(t, a, m, b - 1, open, close);
    }
}

/// Matching is symmetric: when the opening bracket at `b` closes at `j`,
/// `j` holds the closing bracket, and scanning back from it finds `b`.
pub proof fn law_close_then_open(t: Seq<char>, b: int, j: int, open: char, close: char)
    requires
        open != close,
        0 <= b < t.len(),
        t[b] == open,
        closes_at(t, b, j, open, close),
    ensures
        t[j] == close,
        opens_at(t, j, b, open, close),
{
    if j > b + 1 {
        assert(balance(t, b + 1, (j - 1) + 1, open, close) >= 0);
    }
    assert(balance(t, b + 1, j, open, close) == 0);
    lemma_balance_front(t, b, j, open, close);
    assert forall|k: int| b < k < j implies #[trigger] balance(t, k, j, open, close) <= 0 by {
        lemma_balance_split(t, b + 1, k, j, open, close);
        if k > b + 1 {
            assert(balance(t, b + 1, (k - 1) + 1, open, close) >= 0);
        }
    }
}

/// Matching is symmetric the other way: when the closing bracket at `b`
/// opens at `a`, `a` holds the opening bracket, and scanning forward from
/// it finds `b`.
pub proof fn law_open_then_close(t: Seq<char>, b: int, a: int, open: char, close: char)
    requires
        open != close,
        0 <= b < t.len(),
        t[b] == close,
        opens_at(t, b, a, open, close),
    ensures
        t[a] == open,
        closes_at(t, a, b, open, close),
{
    lemma_balance_front(t, a, b, open, close);
    if a + 1 < b {
        assert(balance(t, a + 1, b, open, close) <= 0);
    }
    assert(balance(t, a + 1, b, open, close) == 0);
    assert(balance(t, a + 1, b + 1, open, close) == -1);
    assert forall|k: int| a < k < b implies #[trigger] balance(t, a + 1, k + 1, open, close) >= 0 by {
        lemma_balance_split(t, a + 1, k + 1, b, open, close);
        if k + 1 < b {
            assert(balance(t, k + 1, b, open, close) <= 0);
        }
    }
}

/// A bracket has at most one partner.
pub proof fn law_partner_unique(t: Seq<char>, b: int, x: int, y: int, open: char, close: char)
    requires
        (closes_at(t, b, x, open, close) && closes_at(t, b, y, open, close))
            || (opens_at(t, b, x, open, close) && opens_at(t, b, y, open, close)),
    ensures
        x == y,
{
    if closes_at(t, b, x, open, close) && closes_at(t, b, y, open, close) {
        if x < y {
            assert(balance(t, b + 1, x + 1, open, close) >= 0);
        }
        if y < x {
            assert(balance(t, b + 1, y + 1, open, close) >= 0);
        }
    } else {
        if x < y {
            assert(balance(t, y, b, open, close) <= 0);
        }
        if y < x {
            assert(balance(t, x, b, open, close) <= 0);
        }
    }
}

/// Whether `c` is a bracket, with its pair.
fn bracket_pair_of(c: char) -> (r: Option<(char, char, bool)>)
    ensures
        r == bracket_pair(c),
{
    if c == '(' {
        Some(('(', ')', true))
    } else if c == ')' {
        Some(('(', ')', false))
    } else if c == '[' {
        Some(('[', ']', true))
    } else if c == ']' {
        Some(('[', ']', false))
    } else if c == '{' {
        Some(('{', '}', true))
    } else if c == '}' {
        Some(('{', '}', false))
    } else {
        None
    }
}

/// The closing bracket matching the opening one at `b`.
fn scan_forward(t: &Vec<char>, b: usize, open: char, close: char) -> (r: Option<usize>)
    requires
        b < t@.len(),
        open != close,
    ensures
        match r {
            Some(j) => closes_at(t@, b as int, j as int, open, close),
            None => no_close(t@, b as int, open, close),
        },
{
    let n = t.len();
    let mut depth: usize = 1;
    let mut i: usize = b + 1;
    while i < n
        invariant
            n == t@.len(),
            b < i <= n,
            open != close,
            1 <= depth <= i - b,
            depth as int == 1 + balance(t@, b as int + 1, i as int, open, close),
            i - b - 1 <= MAX_BRACKET_SCAN_CHARS,
            forall|k: int| b < k < i ==> #[trigger] balance(t@, b + 1, k + 1, open, close) >= 0,
        decreases n - i,
    {
        if i - b > MAX_BRACKET_SCAN_CHARS {
            return None;
        }
        let c = t[i];
        if c == close {
            depth = depth - 1;
            if depth == 0 {
                return Some(i);
            }
        } else if c == open {
            depth = depth + 1;
        }
        i = i + 1;
    }
    None
}

/// The opening bracket matching the closing one at `b`.
fn scan_backward(t: &Vec<char>, b: usize, open: char, close: char) -> (r: Option<usize>)
    requires
        b < t@.len(),
        open != close,
    ensures
        match r {
            Some(a) => opens_at(t@, b as int, a as int, open, close),
            None => no_open(t@, b as int, open, close),
        },
{
    let mut depth: usize = 1;
    let mut k: usize = b;
    while k > 0
        invariant
            k <= b < t@.len(),
            open != close,
            1 <= depth <= b - k + 1,
            depth as int == 1 - balance(t@, k as int, b as int, open, close),
            b - k <= MAX_BRACKET_SCAN_CHARS,
            forall|j: int| k <= j < b ==> #[trigger] balance(t@, j, b as int, open, close) <= 0,
        decreases k,
    {
        if b - k + 1 > MAX_BRACKET_SCAN_CHARS {
            return None;
        }
        k = k - 1;
        proof {
            lemma_balance_front(t@, k as int, b as int, open, close);
        }
        let c = t[k];
        if c == close {
            depth = depth + 1;
        } else if c == open {
            depth = depth - 1;
            if depth == 0 {
                return Some(k);
            }
        }
    }
    None
}

impl EditorCore {
    /// The bracket next to the cursor and its partner, as text offsets (a
    /// `\r` counts as one character). The character after the cursor is
    /// looked at first, then the one before it. `None` when neither is a
    /// bracket, or when no partner is found within
    /// [`MAX_BRACKET_SCAN_CHARS`] characters. Brackets of the other kinds
    /// do not count.
    pub fn bracket_match(&self) -> (r: Option<(usize, usize)>)
        requires
            self.wf(),
        ensures
            bracket_answer(self.doc.text(), self.off_of(self.cursor), r),
    {
        let off = self.cursor_offset();
        let t = self.doc.to_chars();
        let n = t.len();
        let probe = if off < n {
            match bracket_pair_of(t[off]) {
                Some(p) => Some((off, p)),
                None => if off > 0 {
                    match bracket_pair_of(t[off - 1]) {
                        Some(q) => Some((off - 1, q)),
                        None => None,
                    }
                } else {
                    None
                },
            }
        } else if off > 0 && off - 1 < n {
            match bracket_pair_of(t[off - 1]) {
                Some(q) => Some((off - 1, q)),
                None => None,
            }
        } else {
            None
        };
        match probe {
            None => None,
            Some((b, (open, close, is_open))) => {
                proof {
                    lemma_pair_distinct(t@[b as int]);
                }
                if is_open {
                    match scan_forward(&t, b, open, close) {
                        Some(j) => Some((b, j)),
                        None => None,
                    }
                } else {
                    match scan_backward(&t, b, open, close) {
                        Some(a) => Some((b, a)),
                        None => None,
                    }
                }
            },
        }
    }

    /// Jumps to the other side of the bracket pair next to the cursor: from
    /// before a bracket to after its partner, from after a bracket to
    /// before its partner. Drops the selection and ends the typing run.
    /// `false`, with nothing changed, when there is no bracket or partner.
    pub fn jump_to_matching_bracket(&mut self) -> (moved: bool)
        requires
            old(self).wf(),
        ensures
            final(self).wf(),
            !moved ==> bracket_answer(old(self).doc.text(), old(self).off_of(old(self).cursor), None),
            !moved ==> *final(self) == *old(self),
            moved ==> exists|b: usize, o: usize|
                {
                    &&& bracket_answer(old(self).doc.text(), old(self).off_of(old(self).cursor), Some((b, o)))
                    &&& final(self).cursor == jump_pos(old(self).ls(), old(self).off_of(old(self).cursor), b as int, o as int)
                },
            moved ==> final(self).anchor is None && final(self).typing_run is None && final(self).extra_cursors@.len() == 0,
            moved ==> final(self).doc == old(self).doc && final(self).bookmarks == old(self).bookmarks,
            moved ==> final(self).undo_stack == old(self).undo_stack && final(self).redo_stack == old(self).redo_stack,
            moved ==> final(self).block_sel == old(self).block_sel && final(self).saved_baseline == old(self).saved_baseline,
    {
        let m = self.bracket_match();
        match m {
            None => false,
            Some((b, o)) => {
                let off = self.cursor_offset();
                proof {
                    assert(o < self.doc.text().len());
                }
                let target = if off <= b { o + 1 } else { o };
                let (line, col) = self.doc.char_to_pos(target);
                self.extra_cursors = Vec::new();
                self.typing_run = None;
                self.anchor = None;
                self.cursor = CursorPos { line, col };
                proof {
                    assert(self.cursor == jump_pos(old(self).ls(), off as int, b as int, o as int));
                    assert(bracket_answer(old(self).doc.text(), old(self).off_of(old(self).cursor), Some((b, o))));
                }
                true
            },
        }
    }
}

/// Where a jump from offset `off` lands, given the bracket at `b` and its
/// partner at `o`: after the partner when the cursor stood before the
/// bracket, before it otherwise.
pub open spec fn jump_pos(ls: Seq<crate::document::LineV>, off: int, b: int, o: int) -> CursorPos {
    let target = if off <= b { o + 1 } else { o };
    let p = pos_of_offset(ls, target);
    CursorPos { line: p.0 as usize, col: p.1 as usize }
}

} // verus!
