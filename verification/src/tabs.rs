//! Tab/space conversion of single lines, aligned to the same tab stops the
//! renderer uses (a wide character advances two columns).

use vstd::prelude::*;
use crate::metrics::{char_cols, lemma_display_cols_bound, spec_char_cols, spec_display_cols, TAB_STOP_COLS};
use crate::strs::{chars_of, string_of};

verus! {

/// Unicode `White_Space` (what `char::is_whitespace` tests).
pub open spec fn spec_is_whitespace(c: char) -> bool {
    let u = c as u32;
    ||| 0x09 <= u <= 0x0D
    ||| u == 0x20
    ||| u == 0x85
    ||| u == 0xA0
    ||| u == 0x1680
    ||| 0x2000 <= u <= 0x200A
    ||| u == 0x2028
    ||| u == 0x2029
    ||| u == 0x202F
    ||| u == 0x205F
    ||| u == 0x3000
}

/// Whether `c` has the Unicode `White_Space` property.
pub fn is_whitespace(c: char) -> (r: bool)
    ensures
        r == spec_is_whitespace(c),
{
    let u = c as u32;
    (0x09 <= u && u <= 0x0D) || u == 0x20 || u == 0x85 || u == 0xA0 || u == 0x1680
        || (0x2000 <= u && u <= 0x200A) || u == 0x2028 || u == 0x2029 || u == 0x202F
        || u == 0x205F || u == 0x3000
}

/// All characters of `s` are white space.
pub open spec fn all_ws(s: Seq<char>) -> bool {
    forall|j: int| 0 <= j < s.len() ==> spec_is_whitespace(#[trigger] s[j])
}

/// `n` spaces.
pub open spec fn spaces(n: nat) -> Seq<char> {
    Seq::new(n, |_j: int| ' ')
}

/// What the character at `i` turns into: a tab that is expanded (any tab,
/// or in leading-only mode a tab with only white space before it) becomes
/// the spaces up to the next tab stop; every other character stays.
pub open spec fn expand_piece(s: Seq<char>, i: int, leading_only: bool) -> Seq<char> {
    if s[i] == '\t' && (!leading_only || all_ws(s.take(i))) {
        spaces(spec_char_cols('\t', spec_display_cols(s.take(i))))
    } else {
        seq![s[i]]
    }
}

/// The tab-expanded form of `s`.
pub open spec fn spec_expand_tabs(s: Seq<char>, leading_only: bool) -> Seq<char>
    decreases s.len(),
{
    if s.len() == 0 {
        seq![]
    } else {
        spec_expand_tabs(s.drop_last(), leading_only) + expand_piece(s, s.len() - 1, leading_only)
    }
}

/// Spaces after a text widen it by one column each.
proof fn lemma_cols_spaces(x: Seq<char>, k: nat)
    ensures
        spec_display_cols(x + spaces(k)) == spec_display_cols(x) + k,
    decreases k,
{
    if k > 0 {
        lemma_cols_spaces(x, (k - 1) as nat);
        let y = x + spaces((k - 1) as nat);
        assert((x + spaces(k)).drop_last() =~= y);
        assert((x + spaces(k)).last() == ' ');
    } else {
        assert(x + spaces(0) =~= x);
    }
}

/// Expanding tabs keeps the line's display width (tabs become the spaces up
/// to the same tab stops), and expanding all tabs leaves none.
pub proof fn law_expand_keeps_width(s: Seq<char>, leading_only: bool)
    ensures
        spec_display_cols(spec_expand_tabs(s, leading_only)) == spec_display_cols(s),
        !leading_only ==> forall|j: int| 0 <= j < spec_expand_tabs(s, leading_only).len()
            ==> #[trigger] spec_expand_tabs(s, leading_only)[j] != '\t',
    decreases s.len(),
{
    if s.len() > 0 {
        let t = s.drop_last();
        let n = s.len() - 1;
        law_expand_keeps_width(t, leading_only);
        assert(s.take(n) =~= t);
        let e = spec_expand_tabs(t, leading_only);
        let piece = expand_piece(s, n, leading_only);
        if s[n] == '\t' && (!leading_only || all_ws(s.take(n))) {
            lemma_cols_spaces(e, spec_char_cols('\t', spec_display_cols(t)));
        } else {
            assert((e + piece).drop_last() =~= e);
        }
        if !leading_only {
            assert forall|j: int| 0 <= j < (e + piece).len() implies #[trigger] (e + piece)[j] != '\t' by {
                if j >= e.len() {
                    assert((e + piece)[j] == piece[j - e.len()]);
                }
            }
        }
    }
}

/// Expanding tabs adds nothing but spaces and leaves a tab-free line as it
/// is (so expanding all tabs twice is expanding once); in leading-only mode
/// everything from the first non-white-space character on is kept.
pub proof fn law_expand_keeps_text(s: Seq<char>, leading_only: bool)
    ensures
        !s.contains('\t') ==> spec_expand_tabs(s, leading_only) == s,
        forall|j: int| 0 <= j < spec_expand_tabs(s, leading_only).len()
            ==> #[trigger] spec_expand_tabs(s, leading_only)[j] == ' ' || s.contains(spec_expand_tabs(s, leading_only)[j]),
        leading_only ==> spec_expand_tabs(s, true) == spec_expand_tabs(s.take(lead_ws(s) as int), true)
            + s.skip(lead_ws(s) as int),
        spec_expand_tabs(spec_expand_tabs(s, false), false) == spec_expand_tabs(s, false),
{
    lemma_expand_chars(s, leading_only);
    law_expand_keeps_width(s, false);
    let all = spec_expand_tabs(s, false);
    assert(!all.contains('\t'));
    lemma_expand_chars(all, false);
    lemma_lead_ws(s);
    let p = lead_ws(s) as int;
    if leading_only {
        lemma_expand_tail(s, p, s.len() as int);
        assert(s.take(s.len() as int) =~= s);
        assert(s.subrange(p, s.len() as int) =~= s.skip(p));
    }
}

/// What expanding adds and keeps, by induction on the line.
proof fn lemma_expand_chars(s: Seq<char>, leading_only: bool)
    ensures
        !s.contains('\t') ==> spec_expand_tabs(s, leading_only) == s,
        forall|j: int| 0 <= j < spec_expand_tabs(s, leading_only).len()
            ==> #[trigger] spec_expand_tabs(s, leading_only)[j] == ' ' || s.contains(spec_expand_tabs(s, leading_only)[j]),
    decreases s.len(),
{
    if s.len() > 0 {
        let t = s.drop_last();
        let n = s.len() - 1;
        lemma_expand_chars(t, leading_only);
        let e = spec_expand_tabs(t, leading_only);
        let piece = expand_piece(s, n, leading_only);
        if !s.contains('\t') {
            assert(!t.contains('\t')) by {
                if t.contains('\t') {
                    let w = choose|w: int| 0 <= w < t.len() && t[w] == '\t';
                    assert(s[w] == '\t');
                }
            }
            assert(s[n] != '\t');
            assert(e + piece =~= s);
        }
        assert forall|j: int| 0 <= j < (e + piece).len() implies #[trigger] (e + piece)[j] == ' '
            || s.contains((e + piece)[j]) by {
            if j < e.len() {
                assert((e + piece)[j] == e[j]);
                if e[j] != ' ' {
                    let w = choose|w: int| 0 <= w < t.len() && t[w] == e[j];
                    assert(s[w] == t[w]);
                }
            } else {
                assert((e + piece)[j] == piece[j - e.len()]);
                if !(s[n] == '\t' && (!leading_only || all_ws(s.take(n)))) {
                    assert(s[n] == (e + piece)[j]);
                }
            }
        }
    }
}

/// In leading-only mode, from the first non-white-space character on the
/// characters are copied.
proof fn lemma_expand_tail(s: Seq<char>, p: int, i: int)
    requires
        p == lead_ws(s),
        p <= s.len(),
        p < s.len() ==> !spec_is_whitespace(s[p]),
        p <= i <= s.len(),
    ensures
        spec_expand_tabs(s.take(i), true) == spec_expand_tabs(s.take(p), true) + s.subrange(p, i),
    decreases i - p,
{
    if i == p {
        assert(spec_expand_tabs(s.take(p), true) + s.subrange(p, p) =~= spec_expand_tabs(s.take(p), true));
    } else {
        lemma_expand_tail(s, p, i - 1);
        let t = s.take(i);
        assert(t.drop_last() =~= s.take(i - 1));
        assert(t.take(i - 1) =~= s.take(i - 1));
        assert(t[i - 1] == s[i - 1]);
        if t[i - 1] == '\t' {
            assert(i - 1 > p);
            assert(s.take(i - 1)[p] == s[p]);
            assert(!all_ws(s.take(i - 1)));
        }
        assert(expand_piece(t, i - 1, true) == seq![s[i - 1]]);
        assert(spec_expand_tabs(s.take(p), true) + s.subrange(p, i) =~= spec_expand_tabs(s.take(p), true)
            + s.subrange(p, i - 1) + seq![s[i - 1]]);
    }
}

proof fn lemma_all_ws_push(s: Seq<char>, i: int)
    requires
        0 <= i < s.len(),
    ensures
        all_ws(s.take(i + 1)) == (all_ws(s.take(i)) && spec_is_whitespace(s[i])),
{
    let t = s.take(i + 1);
    if all_ws(t) {
        assert(spec_is_whitespace(t[i]));
        assert forall|j: int| 0 <= j < i implies spec_is_whitespace(#[trigger] s.take(i)[j]) by {
            assert(t[j] == s.take(i)[j]);
        }
    }
    if all_ws(s.take(i)) && spec_is_whitespace(s[i]) {
        assert forall|j: int| 0 <= j < i + 1 implies spec_is_whitespace(#[trigger] t[j]) by {
            if j < i {
                assert(t[j] == s.take(i)[j]);
            }
        }
    }
}

proof fn lemma_expand_len(s: Seq<char>, leading_only: bool)
    ensures
        spec_expand_tabs(s, leading_only).len() <= 4 * s.len(),
    decreases s.len(),
{
    if s.len() > 0 {
        lemma_expand_len(s.drop_last(), leading_only);
    }
}

/// Tab expansion on a character sequence.
pub fn expand_tabs_chars(s: &[char], leading_only: bool) -> (out: Vec<char>)
    requires
        4 * s@.len() <= usize::MAX,
    ensures
        out@ == spec_expand_tabs(s@, leading_only),
{
    let mut out: Vec<char> = Vec::new();
    let mut col: usize = 0;
    let mut in_leading = true;
    let mut i: usize = 0;
    while i < s.len()
        invariant
            i <= s@.len(),
            4 * s@.len() <= usize::MAX,
            col == spec_display_cols(s@.take(i as int)),
            in_leading == all_ws(s@.take(i as int)),
            out@ == spec_expand_tabs(s@.take(i as int), leading_only),
        decreases s@.len() - i,
    {
        let c = s[i];
        proof {
            let t = s@.take(i + 1);
            assert(t.drop_last() =~= s@.take(i as int));
            assert(t.take(i as int) =~= s@.take(i as int));
            lemma_display_cols_bound(s@.take(i as int));
        }
        let adv = char_cols(c, col);
        if c == '\t' && (in_leading || !leading_only) {
            let mut k: usize = 0;
            let ghost before = out@;
            while k < adv
                invariant
                    k <= adv,
                    out@ == before + spaces(k as nat),
                decreases adv - k,
            {
                out.push(' ');
                k = k + 1;
                proof {
                    assert(out@ =~= before + spaces(k as nat));
                }
            }
        } else {
            out.push(c);
        }
        if !is_whitespace(c) {
            in_leading = false;
        }
        proof {
            lemma_all_ws_push(s@, i as int);
        }
        col = col + adv;
        i = i + 1;
    }
    proof {
        assert(s@.take(i as int) =~= s@);
    }
    out
}

/// Tab → spaces. With `leading_only` only the tabs before the first non
/// white-space character are expanded; every character advances the tab
/// stop column by its real display width.
pub fn expand_tabs_in(s: &str, leading_only: bool) -> (out: String)
    requires
        4 * s@.len() <= usize::MAX,
    ensures
        out@ == spec_expand_tabs(s@, leading_only),
{
    let v = chars_of(s);
    let out = expand_tabs_chars(v.as_slice(), leading_only);
    string_of(out.as_slice())
}

/// State of the leading-space folding after a prefix of the line:
/// (output so far, display column, spaces held back, still in the leading
/// white space).
pub open spec fn entab_state(s: Seq<char>) -> (Seq<char>, nat, nat, bool)
    decreases s.len(),
{
    if s.len() == 0 {
        (seq![], 0, 0, true)
    } else {
        let (out, col, run, lead) = entab_state(s.drop_last());
        let c = s.last();
        if !lead {
            (out.push(c), col, run, false)
        } else if c == ' ' {
            if (col + 1) % (TAB_STOP_COLS as nat) != 0 {
                (out, col + 1, run + 1, true)
            } else if run + 1 >= 2 {
                (out.push('\t'), col + 1, 0, true)
            } else {
                (out.push(' '), col + 1, 0, true)
            }
        } else if c == '\t' {
            (out + spaces(run) + seq!['\t'], col + spec_char_cols('\t', col), 0, true)
        } else if spec_is_whitespace(c) {
            (out + spaces(run) + seq![c], col + spec_char_cols(c, col), 0, true)
        } else {
            (out + spaces(run) + seq![c], col + spec_char_cols(c, col), 0, false)
        }
    }
}

/// Leading spaces folded into tabs: the spaces held back since the last
/// output are settled at every tab stop they reach, as one tab when there
/// are at least two of them and as the single space otherwise, so no space
/// is ever carried past a tab stop; existing tabs stay, the spaces before
/// them stay, nothing after the first non-white-space character changes.
/// The drawn alignment is kept column by column (see
/// [`law_entab_keeps_alignment`]).
pub open spec fn spec_entab(s: Seq<char>) -> Seq<char> {
    let (out, _col, run, _lead) = entab_state(s);
    out + spaces(run)
}

proof fn lemma_entab_bounds(s: Seq<char>)
    ensures
        entab_state(s).0.len() + entab_state(s).2 <= s.len(),
        entab_state(s).1 <= 4 * s.len(),
    decreases s.len(),
{
    if s.len() > 0 {
        lemma_entab_bounds(s.drop_last());
    }
}

/// Column `j` is a tab stop.
pub open spec fn is_stop(j: int) -> bool {
    j % 4 == 0
}

/// The next tab stop after column `a` is `k + 1` when `k + 1` is a stop and
/// no stop lies in `(a, k]`.
proof fn lemma_next_stop(a: nat, k: nat)
    requires
        a <= k,
        (k + 1) % 4 == 0,
        forall|j: int| a < j <= k ==> !#[trigger] is_stop(j),
    ensures
        a + (4 - a % 4) == k + 1,
{
    let q = a / 4;
    let m = (k + 1) / 4;
    assert(a == 4 * q + a % 4 && a % 4 < 4) by (nonlinear_arith)
        requires
            q == a / 4,
    ;
    assert(k + 1 == 4 * m) by (nonlinear_arith)
        requires
            (k + 1) % 4 == 0,
            m == (k + 1) / 4,
    ;
    let nx = 4 * q + 4;
    assert(nx % 4 == 0) by (nonlinear_arith)
        requires
            nx == 4 * q + 4,
    ;
    assert(a + (4 - a % 4) == nx);
    if nx <= k {
        assert(a < nx);
        assert(is_stop(nx as int));
    }
    assert(nx >= k + 1);
    assert(m > q) by (nonlinear_arith)
        requires
            4 * m == k + 1,
            k + 1 > a,
            a == 4 * q + a % 4,
            a % 4 < 4,
    ;
    assert(4 * m >= 4 * q + 4) by (nonlinear_arith)
        requires
            m > q,
    ;
}

/// Spaces that reach no tab stop are only held back.
proof fn lemma_entab_spaces(x: Seq<char>, c0: nat, j: nat)
    requires
        entab_state(x) == (x, c0, 0nat, true),
        forall|i: int| c0 < i <= c0 + j ==> !#[trigger] is_stop(i),
    ensures
        entab_state(x + spaces(j)) == (x, c0 + j, j, true),
    decreases j,
{
    if j == 0 {
        assert(x + spaces(0) =~= x);
    } else {
        lemma_entab_spaces(x, c0, (j - 1) as nat);
        assert((x + spaces(j)).drop_last() =~= x + spaces((j - 1) as nat));
        assert((x + spaces(j)).last() == ' ');
        assert(!is_stop((c0 + j) as int));
    }
}

/// What the folding has produced so far: while in the leading white space,
/// the output and the held-back spaces are as wide as the input, the held
/// spaces reach no tab stop, and folding the output again holds nothing
/// back; after it, the output is as wide as the input and refolds to
/// itself.
proof fn lemma_entab_inv(s: Seq<char>)
    ensures
        ({
            let (o, k, r, lead) = entab_state(s);
            &&& lead ==> {
                &&& k == spec_display_cols(s)
                &&& spec_display_cols(o) + r == k
                &&& forall|j: int| k - r < j <= k ==> !#[trigger] is_stop(j)
                &&& entab_state(o) == (o, (k - r) as nat, 0nat, true)
            }
            &&& !lead ==> {
                &&& r == 0
                &&& spec_display_cols(o) == spec_display_cols(s)
                &&& entab_state(o) == (o, k, 0nat, false)
            }
        }),
    decreases s.len(),
{
    if s.len() == 0 {
        assert(entab_state(Seq::<char>::empty()) == (Seq::<char>::empty(), 0nat, 0nat, true));
    } else {
        let t = s.drop_last();
        let c = s.last();
        lemma_entab_inv(t);
        let (o, k, r, lead) = entab_state(t);
        assert(spec_display_cols(s) == spec_display_cols(t) + spec_char_cols(c, spec_display_cols(t)));
        if !lead {
            let o2 = o.push(c);
            assert(o2.drop_last() =~= o);
        } else if c == ' ' {
            assert(spec_char_cols(' ', k) == 1);
            if (k + 1) % 4 != 0 {
            } else if r + 1 >= 2 {
                let o2 = o.push('\t');
                assert(o2.drop_last() =~= o);
                lemma_next_stop((k - r) as nat, k);
                assert(o + spaces(0) + seq!['\t'] =~= o2);
            } else {
                let o2 = o.push(' ');
                assert(o2.drop_last() =~= o);
            }
        } else {
            let o1 = o + spaces(r);
            let o2 = o1 + seq![c];
            assert(o2.drop_last() =~= o1);
            lemma_cols_spaces(o, r);
            lemma_entab_spaces(o, (k - r) as nat, r);
            assert((k - r) as nat + r == k);
        }
    }
}

/// Folding leading spaces into tabs keeps the drawn alignment: the line is
/// as wide as before, everything from the first non-white-space character
/// on is kept and starts at the same column, and folding again changes
/// nothing.
pub proof fn law_entab_keeps_alignment(s: Seq<char>)
    ensures
        spec_display_cols(spec_entab(s)) == spec_display_cols(s),
        spec_entab(s) == spec_entab(s.take(lead_ws(s) as int)) + s.skip(lead_ws(s) as int),
        spec_display_cols(spec_entab(s.take(lead_ws(s) as int))) == spec_display_cols(s.take(lead_ws(s) as int)),
        spec_entab(spec_entab(s)) == spec_entab(s),
{
    lemma_entab_width_and_fixed(s);
    lemma_lead_ws(s);
    let p = lead_ws(s) as int;
    lemma_entab_width_and_fixed(s.take(p));
    lemma_entab_lead(s, p);
    lemma_entab_tail(s, p, s.len() as int);
    assert(s.take(s.len() as int) =~= s);
    if p == s.len() {
        assert(s.skip(p) =~= Seq::<char>::empty());
        assert(s.take(p) =~= s);
        assert(spec_entab(s) + Seq::<char>::empty() =~= spec_entab(s));
    }
}

/// Width is kept and a folded line folds to itself.
proof fn lemma_entab_width_and_fixed(s: Seq<char>)
    ensures
        spec_display_cols(spec_entab(s)) == spec_display_cols(s),
        spec_entab(spec_entab(s)) == spec_entab(s),
{
    lemma_entab_inv(s);
    let (o, k, r, lead) = entab_state(s);
    if lead {
        lemma_cols_spaces(o, r);
        lemma_entab_spaces(o, (k - r) as nat, r);
        assert((k - r) as nat + r == k);
    } else {
        assert(o + spaces(0) =~= o);
    }
}

/// The folding stays in the leading white space up to its end.
proof fn lemma_entab_lead(s: Seq<char>, i: int)
    requires
        0 <= i <= lead_ws(s),
        lead_ws(s) <= s.len(),
        forall|j: int| 0 <= j < lead_ws(s) ==> spec_is_whitespace(#[trigger] s[j]),
    ensures
        entab_state(s.take(i)).3,
    decreases i,
{
    if i > 0 {
        lemma_entab_lead(s, i - 1);
        assert(s.take(i).drop_last() =~= s.take(i - 1));
        assert(s.take(i).last() == s[i - 1]);
        assert(spec_is_whitespace(s[i - 1]));
    }
}

/// From the first non-white-space character on, characters are copied.
proof fn lemma_entab_tail(s: Seq<char>, p: int, i: int)
    requires
        p == lead_ws(s),
        p <= s.len(),
        p < s.len() ==> !spec_is_whitespace(s[p]),
        forall|j: int| 0 <= j < p ==> spec_is_whitespace(#[trigger] s[j]),
        p <= i <= s.len(),
    ensures
        spec_entab(s.take(i)) == spec_entab(s.take(p)) + s.subrange(p, i),
        i > p ==> entab_state(s.take(i)).2 == 0 && !entab_state(s.take(i)).3,
    decreases i - p,
{
    if i == p {
        assert(s.subrange(p, p) =~= Seq::<char>::empty());
        assert(spec_entab(s.take(p)) + Seq::<char>::empty() =~= spec_entab(s.take(p)));
    } else {
        lemma_entab_tail(s, p, i - 1);
        let t = s.take(i);
        assert(t.drop_last() =~= s.take(i - 1));
        assert(t.last() == s[i - 1]);
        if i - 1 == p {
            lemma_entab_lead(s, p);
            assert(s[p] != ' ' && s[p] != '\t');
            let (o, k, r, lead) = entab_state(s.take(p));
            assert(o + spaces(r) + seq![s[p]] =~= spec_entab(s.take(p)) + s.subrange(p, i));
            assert(spaces(0) =~= Seq::<char>::empty());
            assert(o + spaces(r) + seq![s[p]] + spaces(0) =~= o + spaces(r) + seq![s[p]]);
        } else {
            let (o, k, r, lead) = entab_state(s.take(i - 1));
            assert(spaces(0) =~= Seq::<char>::empty());
            assert(o + spaces(0) =~= o);
            assert(o.push(s[i - 1]) + spaces(0) =~= o.push(s[i - 1]));
            assert(spec_entab(s.take(p)) + s.subrange(p, i) =~= (spec_entab(s.take(p)) + s.subrange(p, i - 1)).push(s[i - 1]));
        }
    }
}

/// Leading-space folding on a character sequence.
pub fn entab_chars(s: &[char]) -> (out: Vec<char>)
    requires
        4 * s@.len() <= usize::MAX,
    ensures
        out@ == spec_entab(s@),
{
    let mut out: Vec<char> = Vec::new();
    let mut col: usize = 0;
    let mut run: usize = 0;
    let mut in_leading = true;
    let mut i: usize = 0;
    while i < s.len()
        invariant
            i <= s@.len(),
            4 * s@.len() <= usize::MAX,
            entab_state(s@.take(i as int)) == (out@, col as nat, run as nat, in_leading),
        decreases s@.len() - i,
    {
        let c = s[i];
        proof {
            let t = s@.take(i + 1);
            assert(t.drop_last() =~= s@.take(i as int));
            lemma_entab_bounds(s@.take(i as int));
        }
        if !in_leading {
            out.push(c);
        } else if c == ' ' {
            run = run + 1;
            col = col + 1;
            if col % TAB_STOP_COLS == 0 {
                if run >= 2 {
                    out.push('\t');
                } else {
                    out.push(' ');
                }
                run = 0;
            }
        } else {
            let ghost before = out@;
            let mut k: usize = 0;
            while k < run
                invariant
                    k <= run,
                    out@ == before + spaces(k as nat),
                decreases run - k,
            {
                out.push(' ');
                k = k + 1;
                proof {
                    assert(out@ =~= before + spaces(k as nat));
                }
            }
            run = 0;
            out.push(c);
            proof {
                assert(out@ =~= before + spaces(k as nat) + seq![c]);
            }
            col = col + char_cols(c, col);
            if c != '\t' && !is_whitespace(c) {
                in_leading = false;
            }
        }
        i = i + 1;
    }
    proof {
        assert(s@.take(i as int) =~= s@);
    }
    let ghost before = out@;
    let mut k: usize = 0;
    while k < run
        invariant
            k <= run,
            out@ == before + spaces(k as nat),
        decreases run - k,
    {
        out.push(' ');
        k = k + 1;
        proof {
            assert(out@ =~= before + spaces(k as nat));
        }
    }
    out
}

/// Leading spaces → tabs (see [`spec_entab`]).
pub fn entab_leading_ws(s: &str) -> (out: String)
    requires
        4 * s@.len() <= usize::MAX,
    ensures
        out@ == spec_entab(s@),
{
    let v = chars_of(s);
    let out = entab_chars(v.as_slice());
    string_of(out.as_slice())
}

/// The number of white-space characters `s` starts with.
pub open spec fn lead_ws(s: Seq<char>) -> nat
    decreases s.len(),
{
    if s.len() > 0 && spec_is_whitespace(s[0]) { 1 + lead_ws(s.drop_first()) } else { 0 }
}

/// The number of white-space characters `s` ends with.
pub open spec fn trail_ws(s: Seq<char>) -> nat
    decreases s.len(),
{
    if s.len() > 0 && spec_is_whitespace(s.last()) { 1 + trail_ws(s.drop_last()) } else { 0 }
}

/// `s` without its leading white space.
pub open spec fn trim_start(s: Seq<char>) -> Seq<char> {
    s.skip(lead_ws(s) as int)
}

/// `s` without its trailing white space.
pub open spec fn trim_end(s: Seq<char>) -> Seq<char> {
    s.take(s.len() - trail_ws(s))
}

/// `s` without leading and trailing white space.
pub open spec fn trim(s: Seq<char>) -> Seq<char> {
    trim_end(trim_start(s))
}

/// The leading white space counts characters of `s` that are all white
/// space, followed by a non-white-space one (or the end).
pub proof fn lemma_lead_ws(s: Seq<char>)
    ensures
        lead_ws(s) <= s.len(),
        forall|j: int| 0 <= j < lead_ws(s) ==> spec_is_whitespace(#[trigger] s[j]),
        lead_ws(s) < s.len() ==> !spec_is_whitespace(s[lead_ws(s) as int]),
    decreases s.len(),
{
    if s.len() > 0 && spec_is_whitespace(s[0]) {
        lemma_lead_ws(s.drop_first());
        assert forall|j: int| 0 <= j < lead_ws(s) implies spec_is_whitespace(#[trigger] s[j]) by {
            if j > 0 {
                assert(s[j] == s.drop_first()[j - 1]);
            }
        }
        if lead_ws(s) < s.len() {
            assert(s[lead_ws(s) as int] == s.drop_first()[lead_ws(s) - 1]);
        }
    }
}

/// The trailing white space counts characters of `s` that are all white
/// space, preceded by a non-white-space one (or the start).
pub proof fn lemma_trail_ws(s: Seq<char>)
    ensures
        trail_ws(s) <= s.len(),
        forall|j: int| s.len() - trail_ws(s) <= j < s.len() ==> spec_is_whitespace(#[trigger] s[j]),
        trail_ws(s) < s.len() ==> !spec_is_whitespace(s[s.len() - trail_ws(s) - 1]),
    decreases s.len(),
{
    if s.len() > 0 && spec_is_whitespace(s.last()) {
        lemma_trail_ws(s.drop_last());
        assert forall|j: int| s.len() - trail_ws(s) <= j < s.len() implies spec_is_whitespace(#[trigger] s[j]) by {
            if j < s.len() - 1 {
                assert(s[j] == s.drop_last()[j]);
            }
        }
        if trail_ws(s) < s.len() {
            assert(s[s.len() - trail_ws(s) - 1] == s.drop_last()[s.len() - trail_ws(s) - 1]);
        }
    }
}

/// Counts the leading white space of `s`.
pub fn lead_ws_len(s: &[char]) -> (r: usize)
    ensures
        r == lead_ws(s@),
{
    proof {
        lemma_lead_ws(s@);
    }
    let mut i: usize = 0;
    while i < s.len() && is_whitespace(s[i])
        invariant
            i <= s@.len(),
            lead_ws(s@) <= s@.len(),
            forall|j: int| 0 <= j < lead_ws(s@) ==> spec_is_whitespace(#[trigger] s@[j]),
            lead_ws(s@) < s@.len() ==> !spec_is_whitespace(s@[lead_ws(s@) as int]),
            i <= lead_ws(s@),
        decreases s@.len() - i,
    {
        i = i + 1;
    }
    i
}

/// Counts the trailing white space of `s`.
pub fn trail_ws_len(s: &[char]) -> (r: usize)
    ensures
        r == trail_ws(s@),
{
    proof {
        lemma_trail_ws(s@);
    }
    let mut i: usize = 0;
    while i < s.len() && is_whitespace(s[s.len() - 1 - i])
        invariant
            i <= s@.len(),
            trail_ws(s@) <= s@.len(),
            forall|j: int| s@.len() - trail_ws(s@) <= j < s@.len() ==> spec_is_whitespace(#[trigger] s@[j]),
            trail_ws(s@) < s@.len() ==> !spec_is_whitespace(s@[s@.len() - trail_ws(s@) - 1]),
            i <= trail_ws(s@),
        decreases s@.len() - i,
    {
        i = i + 1;
    }
    i
}

/// The characters of `s` in `[from, to)`.
pub fn sub_chars(s: &[char], from: usize, to: usize) -> (r: Vec<char>)
    requires
        from <= to <= s@.len(),
    ensures
        r@ == s@.subrange(from as int, to as int),
{
    let mut r: Vec<char> = Vec::new();
    let mut i = from;
    while i < to
        invariant
            from <= i <= to <= s@.len(),
            r@ == s@.subrange(from as int, i as int),
        decreases to - i,
    {
        r.push(s[i]);
        i = i + 1;
        proof {
            assert(r@ =~= s@.subrange(from as int, i as int));
        }
    }
    r
}

/// `s` trimmed at the start, the end, or both.
pub fn trim_chars(s: &[char], start: bool, end: bool) -> (r: Vec<char>)
    ensures
        r@ == if start && end { trim(s@) } else if start { trim_start(s@) } else if end { trim_end(s@) } else { s@ },
{
    proof {
        lemma_lead_ws(s@);
    }
    let from = if start { lead_ws_len(s) } else { 0 };
    let t = sub_chars(s, from, s.len());
    proof {
        assert(s@.subrange(from as int, s@.len() as int) =~= s@.skip(from as int));
        assert(s@.skip(0) =~= s@);
        lemma_trail_ws(t@);
    }
    let to = if end { t.len() - trail_ws_len(t.as_slice()) } else { t.len() };
    let r = sub_chars(t.as_slice(), 0, to);
    proof {
        assert(t@.subrange(0, to as int) =~= t@.take(to as int));
        assert(t@.take(t@.len() as int) =~= t@);
    }
    r
}

} // verus!
