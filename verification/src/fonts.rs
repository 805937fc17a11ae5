//! Choosing a monospace CJK font family among the installed ones: family
//! names are matched loosely (case and runs of white space do not count),
//! candidates are tried in priority order.

use vstd::prelude::*;
use crate::casing::{unicode_lower, to_lower_chars};
use crate::strs::{chars_of, string_of, same_chars};
use crate::tabs::{is_whitespace, spec_is_whitespace};

verus! {

/// Monospace CJK families, best first. SimSun is left out on purpose: its
/// ASCII half is not strictly fixed-width, which breaks the column model.
pub const CJK_MONO_CANDIDATES: [&'static str; 3] = ["Sarasa Mono SC", "Noto Sans Mono CJK SC", "NSimSun"];

/// The words of `s` (maximal runs of non-white-space characters) joined by
/// single spaces, read left to right; the flag tells whether white space
/// followed the last word (a space is owed before the next one).
pub open spec fn squeeze(s: Seq<char>) -> (Seq<char>, bool)
    decreases s.len(),
{
    if s.len() == 0 {
        (Seq::empty(), false)
    } else {
        let (o, pend) = squeeze(s.drop_last());
        let c = s.last();
        if spec_is_whitespace(c) {
            (o, o.len() > 0)
        } else if pend {
            (o.push(' ').push(c), false)
        } else {
            (o.push(c), false)
        }
    }
}

/// The key by which family names are compared: words joined by single
/// spaces, lower-cased.
pub open spec fn family_key(s: Seq<char>) -> Seq<char> {
    unicode_lower(squeeze(s).0)
}

/// The words of `s` joined by single spaces (see [`squeeze`]).
fn squeeze_chars(s: &[char]) -> (r: Vec<char>)
    ensures
        r@ == squeeze(s@).0,
{
    let mut out: Vec<char> = Vec::new();
    let mut pend = false;
    let mut i: usize = 0;
    while i < s.len()
        invariant
            i <= s@.len(),
            (out@, pend) == squeeze(s@.take(i as int)),
        decreases s@.len() - i,
    {
        let c = s[i];
        proof {
            assert(s@.take(i + 1).drop_last() =~= s@.take(i as int));
        }
        if is_whitespace(c) {
            pend = out.len() > 0;
        } else {
            if pend {
                out.push(' ');
            }
            out.push(c);
            pend = false;
        }
        i = i + 1;
    }
    proof {
        assert(s@.take(s@.len() as int) =~= s@);
    }
    out
}

/// The comparison key of a family name, as characters.
fn key_chars(name: &str) -> (r: Vec<char>)
    ensures
        r@ == family_key(name@),
{
    let v = chars_of(name);
    let sq = squeeze_chars(v.as_slice());
    to_lower_chars(sq.as_slice())
}

/// A family name normalized for loose matching: case folded and runs of
/// white space collapsed to one space, with none at either end.
pub fn normalize_family(name: &str) -> (r: String)
    ensures
        r@ == family_key(name@),
{
    let k = key_chars(name);
    string_of(k.as_slice())
}

/// Some installed family has the key of `cand`.
pub open spec fn installed_has(installed: Seq<String>, cand: Seq<char>) -> bool {
    exists|i: int| 0 <= i < installed.len() && family_key(#[trigger] installed[i]@) == family_key(cand)
}

/// The first candidate, in priority order, that an installed family
/// matches loosely; `None` when none does.
pub fn pick_cjk_mono_family(installed: &[String]) -> (r: Option<&'static str>)
    ensures
        match r {
            Some(c) => exists|k: int|
                0 <= k < 3 && c@ == CJK_MONO_CANDIDATES[k]@ && installed_has(installed@, CJK_MONO_CANDIDATES[k]@)
                    && forall|j: int| 0 <= j < k ==> !installed_has(installed@, #[trigger] CJK_MONO_CANDIDATES[j]@),
            None => forall|j: int| 0 <= j < 3 ==> !installed_has(installed@, #[trigger] CJK_MONO_CANDIDATES[j]@),
        },
{
    let mut keys: Vec<Vec<char>> = Vec::new();
    let mut i: usize = 0;
    while i < installed.len()
        invariant
            i <= installed@.len(),
            keys@.len() == i,
            forall|j: int| 0 <= j < i ==> (#[trigger] keys@[j])@ == family_key(installed@[j]@),
        decreases installed@.len() - i,
    {
        keys.push(key_chars(installed[i].as_str()));
        i = i + 1;
    }
    let mut k: usize = 0;
    while k < 3
        invariant
            k <= 3,
            keys@.len() == installed@.len(),
            forall|j: int| 0 <= j < installed@.len() ==> (#[trigger] keys@[j])@ == family_key(installed@[j]@),
            forall|j: int| 0 <= j < k ==> !installed_has(installed@, #[trigger] CJK_MONO_CANDIDATES[j]@),
        decreases 3 - k,
    {
        let cand: &'static str = CJK_MONO_CANDIDATES[k];
        let ck = key_chars(cand);
        let mut i: usize = 0;
        while i < keys.len()
            invariant
                i <= keys@.len() == installed@.len(),
                ck@ == family_key(cand@),
                k < 3,
                cand == CJK_MONO_CANDIDATES[k as int],
                forall|j: int| 0 <= j < k ==> !installed_has(installed@, #[trigger] CJK_MONO_CANDIDATES[j]@),
                forall|j: int| 0 <= j < installed@.len() ==> (#[trigger] keys@[j])@ == family_key(installed@[j]@),
                forall|j: int| 0 <= j < i ==> family_key(#[trigger] installed@[j]@) != family_key(cand@),
            decreases keys@.len() - i,
        {
            if same_chars(keys[i].as_slice(), ck.as_slice()) {
                proof {
                    assert(installed_has(installed@, cand@));
                    let kk = k as int;
                    assert(0 <= kk < 3 && cand@ == CJK_MONO_CANDIDATES[kk]@
                        && installed_has(installed@, CJK_MONO_CANDIDATES[kk]@));
                }
                return Some(cand);
            }
            i = i + 1;
        }
        proof {
            assert(!installed_has(installed@, CJK_MONO_CANDIDATES[k as int]@));
        }
        k = k + 1;
    }
    None
}

} // verus!
