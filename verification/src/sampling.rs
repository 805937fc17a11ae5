//! A small deterministic pseudo-random generator and text helpers used by
//! randomized editing runs.

use vstd::prelude::*;
use crate::colblock::split_breaks;
use crate::lineblock::texts;
use crate::strs::{chars_of, string_of};

verus! {

/// Xorshift64 generator state.
#[derive(Debug, Clone, Copy, PartialEq, Eq, Structural)]
pub struct XorShift64(pub u64);

/// One xorshift step (shifts 13, 7, 17).
pub open spec fn xorshift_step(x: u64) -> u64 {
    let a = x ^ (x << 13u64);
    let b = a ^ (a >> 7u64);
    b ^ (b << 17u64)
}

impl XorShift64 {
    /// A number below `n` (0 for `n == 0`, without stepping): the state
    /// steps once and the result is the new state modulo `n`.
    pub fn below(&mut self, n: usize) -> (r: usize)
        ensures
            n == 0 ==> r == 0 && *final(self) == *old(self),
            n > 0 ==> final(self).0 == xorshift_step(old(self).0) && r == final(self).0 % (n as u64) && r < n,
    {
        if n == 0 {
            return 0;
        }
        let mut x = self.0;
        x = x ^ (x << 13u64);
        x = x ^ (x >> 7u64);
        x = x ^ (x << 17u64);
        self.0 = x;
        (x % (n as u64)) as usize
    }
}

/// The text without its line-break characters.
pub open spec fn without_breaks(s: Seq<char>) -> Seq<char> {
    s.filter(|c: char| c != '\r' && c != '\n')
}

/// The text without its line-break characters.
pub fn strip_newlines(s: &str) -> (r: String)
    ensures
        r@ == without_breaks(s@),
{
    let v = chars_of(s);
    let mut out: Vec<char> = Vec::new();
    let mut i: usize = 0;
    proof {
        reveal(Seq::filter);
        assert(v@.take(0) =~= Seq::<char>::empty());
        assert(without_breaks(v@.take(0)) =~= Seq::<char>::empty());
    }
    while i < v.len()
        invariant
            i <= v@.len(),
            out@ == without_breaks(v@.take(i as int)),
        decreases v@.len() - i,
    {
        let c = v[i];
        proof {
            assert(v@.take(i + 1) =~= v@.take(i as int).push(c));
            reveal(Seq::filter);
            assert(v@.take(i + 1).drop_last() =~= v@.take(i as int));
        }
        if c != '\r' && c != '\n' {
            out.push(c);
        }
        i = i + 1;
    }
    proof {
        assert(v@.take(i as int) =~= v@);
    }
    string_of(out.as_slice())
}

/// The texts of a vector of strings.
pub open spec fn string_texts(v: Seq<String>) -> Seq<Seq<char>> {
    v.map_values(|x: String| x@)
}

/// The line bodies of a text (cut at `\\r\\n`, a lone `\\r` and a lone `\\n`).
pub fn rope_line_bodies(s: &str) -> (r: Vec<String>)
    ensures
        string_texts(r@) == split_breaks(s@),
{
    let v = chars_of(s);
    let parts = crate::colblock::split_at_breaks(v.as_slice());
    let mut out: Vec<String> = Vec::new();
    let mut i: usize = 0;
    while i < parts.len()
        invariant
            i <= parts@.len(),
            string_texts(out@) == texts(parts@).take(i as int),
        decreases parts@.len() - i,
    {
        let t = string_of(parts[i].as_slice());
        let ghost po = string_texts(out@);
        let ghost tv = t@;
        out.push(t);
        proof {
            assert(string_texts(out@) =~= po.push(tv));
            assert(texts(parts@).take(i + 1) =~= texts(parts@).take(i as int).push(parts@[i as int]@));
        }
        i = i + 1;
    }
    proof {
        assert(texts(parts@).take(i as int) =~= texts(parts@));
    }
    out
}

} // verus!
