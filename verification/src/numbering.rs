//! Numbers for column blocks: runs of formatted numbers to fill a block with,
//! and the integer that leads a line.

use vstd::prelude::*;
use crate::strs::{chars_of, string_of};

verus! {

/// The base in which a number sequence is written.
#[derive(Debug, Clone, Copy, PartialEq, Eq, Structural)]
pub enum NumBase {
    Bin,
    Oct,
    Dec,
    Hex,
}

/// Zero padding is never wider than this many digits.
pub const MAX_PAD: usize = 32;

/// The radix of a base.
pub open spec fn radix(b: NumBase) -> nat {
    match b {
        NumBase::Bin => 2,
        NumBase::Oct => 8,
        NumBase::Dec => 10,
        NumBase::Hex => 16,
    }
}

/// The character of digit `d` (below 16); letters in the chosen case.
pub open spec fn digit_in(d: nat, upper: bool) -> char {
    if d < 10 {
        (48 + d) as char
    } else if upper {
        (55 + d) as char
    } else {
        (87 + d) as char
    }
}

/// The digits of `n` in radix `r`, most significant first, without leading
/// zeros (a single zero for 0).
pub open spec fn digits_in(n: nat, r: nat, upper: bool) -> Seq<char>
    decreases n,
{
    if n < r || r < 2 {
        seq![digit_in(n, upper)]
    } else {
        proof {
            vstd::arithmetic::div_mod::lemma_div_decreases(n as int, r as int);
        }
        digits_in(n / r, r, upper).push(digit_in(n % r, upper))
    }
}

/// `ds` with zeros in front up to `w` characters.
pub open spec fn zero_padded(ds: Seq<char>, w: nat) -> Seq<char> {
    if ds.len() < w {
        Seq::new((w - ds.len()) as nat, |_i: int| '0') + ds
    } else {
        ds
    }
}

/// `v` pinned to the range of `i64`.
pub open spec fn clamp_i64(v: int) -> int {
    if v > i64::MAX {
        i64::MAX as int
    } else if v < i64::MIN {
        i64::MIN as int
    } else {
        v
    }
}

/// `v` written in `base`: a minus sign for a negative value, then the digits
/// of its magnitude zero-padded to `w` (the sign stays outside the padding).
pub open spec fn number_text(v: int, base: NumBase, w: nat, upper: bool) -> Seq<char> {
    let mag: nat = if v < 0 { (-v) as nat } else { v as nat };
    let body = zero_padded(digits_in(mag, radix(base), upper), w);
    if v < 0 { seq!['-'] + body } else { body }
}

/// The width that a requested padding gets.
pub open spec fn pad_width(pad: nat) -> nat {
    if pad > MAX_PAD { MAX_PAD as nat } else { pad }
}

/// The `i`-th number of a sequence: `start + i * step`, saturated at the
/// bounds of `i64`.
pub open spec fn nth_value(start: int, step: int, i: int) -> int {
    clamp_i64(start + i * step)
}

/// Appends the digits of `n` in radix `r`.
pub(crate) fn push_digits(out: &mut Vec<char>, n: u64, r: u64, upper: bool)
    requires
        2 <= r <= 16,
    ensures
        final(out)@ == old(out)@ + digits_in(n as nat, r as nat, upper),
    decreases n,
{
    if n >= r {
        proof {
            vstd::arithmetic::div_mod::lemma_div_decreases(n as int, r as int);
        }
        push_digits(out, n / r, r, upper);
    } else {
        proof {
            vstd::arithmetic::div_mod::lemma_small_mod(n as nat, r as nat);
        }
    }
    let d = n % r;
    let c = if d < 10 {
        ((d as u8) + 48u8) as char
    } else if upper {
        ((d as u8) + 55u8) as char
    } else {
        ((d as u8) + 87u8) as char
    };
    out.push(c);
    proof {
        assert(out@ =~= old(out)@ + digits_in(n as nat, r as nat, upper));
    }
}

/// `v` written in `base`, zero-padded to `w` digits.
fn format_number(v: i64, base: NumBase, w: usize, upper: bool) -> (s: String)
    ensures
        s@ == number_text(v as int, base, w as nat, upper),
{
    let r: u64 = match base {
        NumBase::Bin => 2,
        NumBase::Oct => 8,
        NumBase::Dec => 10,
        NumBase::Hex => 16,
    };
    let mag: u64 = if v < 0 { ((-(v + 1)) as u64) + 1 } else { v as u64 };
    let mut ds: Vec<char> = Vec::new();
    push_digits(&mut ds, mag, r, upper);
    assert(ds@ =~= digits_in(mag as nat, r as nat, upper));
    let mut out: Vec<char> = Vec::new();
    if v < 0 {
        out.push('-');
    }
    let ghost head = out@;
    if ds.len() < w {
        let fill = w - ds.len();
        let mut k: usize = 0;
        while k < fill
            invariant
                k <= fill,
                out@ == head + Seq::new(k as nat, |_i: int| '0'),
            decreases fill - k,
        {
            out.push('0');
            k = k + 1;
            proof {
                assert(out@ =~= head + Seq::new(k as nat, |_i: int| '0'));
            }
        }
    }
    crate::document::append_chars(&mut out, ds.as_slice());
    proof {
        let body = zero_padded(digits_in(mag as nat, radix(base), upper), w as nat);
        assert(out@ =~= head + body);
        assert(out@ =~= number_text(v as int, base, w as nat, upper));
    }
    string_of(out.as_slice())
}

/// One saturating step keeps the sequence on its clamped values.
proof fn lemma_step(start: int, step: int, i: nat)
    requires
        i64::MIN <= start <= i64::MAX,
        i64::MIN <= step <= i64::MAX,
    ensures
        ({
            let v = nth_value(start, step, i as int);
            let next = if v + step > i64::MAX {
                i64::MAX as int
            } else if v + step < i64::MIN {
                i64::MIN as int
            } else {
                v + step
            };
            next == nth_value(start, step, i + 1int)
        }),
{
    assert((i + 1) * step == i * step + step) by (nonlinear_arith);
    if step >= 0 {
        assert(i * step >= 0) by (nonlinear_arith)
            requires
                step >= 0,
        ;
    } else {
        assert(i * step <= 0) by (nonlinear_arith)
            requires
                step < 0,
        ;
    }
}

/// `count` numbers from `start` by `step` (saturating at the bounds of
/// `i64`), each written in `base` with letters upper-case when `upper`, the
/// digits zero-padded to `pad` (at most [`MAX_PAD`]).
pub fn sequence_lines(count: usize, start: i64, step: i64, base: NumBase, pad: usize, upper: bool) -> (r: Vec<String>)
    ensures
        r.len() == count,
        forall|i: int|
            0 <= i < count ==> #[trigger] r[i]@ == number_text(
                nth_value(start as int, step as int, i),
                base,
                pad_width(pad as nat),
                upper,
            ),
{
    let w: usize = if pad > MAX_PAD { MAX_PAD } else { pad };
    let mut r: Vec<String> = Vec::new();
    let mut v: i64 = start;
    let mut i: usize = 0;
    proof {
        assert(0 * (step as int) == 0);
    }
    while i < count
        invariant
            i <= count,
            r.len() == i,
            w == pad_width(pad as nat),
            v == nth_value(start as int, step as int, i as int),
            forall|j: int|
                0 <= j < i ==> #[trigger] r[j]@ == number_text(
                    nth_value(start as int, step as int, j),
                    base,
                    w as nat,
                    upper,
                ),
        decreases count - i,
    {
        r.push(format_number(v, base, w, upper));
        proof {
            lemma_step(start as int, step as int, i as nat);
        }
        if step >= 0 {
            if v > i64::MAX - step {
                v = i64::MAX;
            } else {
                v = v + step;
            }
        } else {
            if v < i64::MIN - step {
                v = i64::MIN;
            } else {
                v = v + step;
            }
        }
        i = i + 1;
    }
    r
}

/// Whether `c` is an ASCII digit.
pub open spec fn is_digit(c: char) -> bool {
    '0' <= c <= '9'
}

/// The first index at or after `i` that holds a digit (`s.len()` if none).
pub open spec fn first_digit_from(s: Seq<char>, i: int) -> int
    decreases s.len() - i,
{
    if i >= s.len() || i < 0 {
        s.len() as int
    } else if is_digit(s[i]) {
        i
    } else {
        first_digit_from(s, i + 1)
    }
}

/// The end of the run of digits that starts at `i`.
pub open spec fn digit_run_end(s: Seq<char>, i: int) -> int
    decreases s.len() - i,
{
    if i >= s.len() || i < 0 || !is_digit(s[i]) {
        i
    } else {
        digit_run_end(s, i + 1)
    }
}

/// The value of a string of decimal digits.
pub open spec fn dec_value(ds: Seq<char>) -> nat
    decreases ds.len(),
{
    if ds.len() == 0 {
        0
    } else {
        dec_value(ds.drop_last()) * 10 + ((ds.last() as int) - 48) as nat
    }
}

/// `v` pinned to the range of `i128`.
pub open spec fn clamp_i128(v: int) -> int {
    if v > i128::MAX {
        i128::MAX as int
    } else if v < i128::MIN {
        i128::MIN as int
    } else {
        v
    }
}

/// The integer that the first run of digits in `s` spells, negative when a
/// `-` stands right before the run, saturated at the bounds of `i128`; `None`
/// when `s` holds no digit.
pub open spec fn leading_int(s: Seq<char>) -> Option<int> {
    let k = first_digit_from(s, 0);
    if k >= s.len() {
        None
    } else {
        let mag = dec_value(s.subrange(k, digit_run_end(s, k)));
        let neg = k > 0 && s[k - 1] == '-';
        Some(clamp_i128(if neg { -mag } else { mag as int }))
    }
}

/// The magnitude bound past which every value saturates.
spec fn mag_cap() -> nat {
    0x8000_0000_0000_0000_0000_0000_0000_0000
}

/// Capping before or after a decimal step gives the same result.
proof fn lemma_cap_step(m: nat, d: nat, cap: nat)
    requires
        d < 10,
    ensures
        ({
            let c = if m > cap { cap } else { m };
            let a = c * 10 + d;
            let b = m * 10 + d;
            (if a > cap { cap } else { a }) == (if b > cap { cap } else { b })
        }),
{
    if m > cap {
        assert(m * 10 + d > cap) by (nonlinear_arith)
            requires
                m > cap,
        ;
        assert(cap * 10 + d >= cap) by (nonlinear_arith);
    }
}

/// The first run of digits, read by [`leading_int`]'s rule.
proof fn lemma_first_digit(s: Seq<char>, i: int)
    requires
        0 <= i <= s.len(),
        forall|j: int| 0 <= j < i ==> !is_digit(#[trigger] s[j]),
    ensures
        first_digit_from(s, 0) == first_digit_from(s, i),
    decreases i,
{
    if i > 0 {
        lemma_first_digit(s, i - 1);
    }
}

/// The run end seen from any point inside the run.
proof fn lemma_run_end(s: Seq<char>, k: int, i: int)
    requires
        0 <= k <= i <= s.len(),
        forall|j: int| k <= j < i ==> is_digit(#[trigger] s[j]),
    ensures
        digit_run_end(s, k) == digit_run_end(s, i),
    decreases i - k,
{
    if k < i {
        lemma_run_end(s, k + 1, i);
    }
}

/// The integer that leads `s`: the first run of ASCII digits, negative when
/// a `-` stands right before it, saturated at the bounds of `i128`; `None`
/// when `s` holds no digit.
pub fn extract_leading_int(s: &str) -> (r: Option<i128>)
    ensures
        match leading_int(s@) {
            None => r is None,
            Some(v) => r == Some(v as i128),
        },
{
    let cs = chars_of(s);
    leading_int_chars(cs.as_slice())
}

/// [`extract_leading_int`] on characters.
pub fn leading_int_chars(cs: &[char]) -> (r: Option<i128>)
    ensures
        match leading_int(cs@) {
            None => r is None,
            Some(v) => r == Some(v as i128),
        },
{
    let n = cs.len();
    let mut k: usize = 0;
    while k < n && !(cs[k] >= '0' && cs[k] <= '9')
        invariant
            k <= n == cs@.len(),
            forall|j: int| 0 <= j < k ==> !is_digit(#[trigger] cs@[j]),
        decreases n - k,
    {
        k = k + 1;
    }
    proof {
        lemma_first_digit(cs@, k as int);
    }
    if k >= n {
        return None;
    }
    let cap: u128 = 0x8000_0000_0000_0000_0000_0000_0000_0000u128;
    let mut c: u128 = 0;
    let mut i: usize = k;
    proof {
        assert(cs@.subrange(k as int, k as int) =~= Seq::<char>::empty());
    }
    while i < n && cs[i] >= '0' && cs[i] <= '9'
        invariant
            k <= i <= n == cs@.len(),
            cap == mag_cap(),
            forall|j: int| k <= j < i ==> is_digit(#[trigger] cs@[j]),
            c == (if dec_value(cs@.subrange(k as int, i as int)) > mag_cap() {
                mag_cap()
            } else {
                dec_value(cs@.subrange(k as int, i as int))
            }),
        decreases n - i,
    {
        let d: u128 = ((cs[i] as u32) - 48u32) as u128;
        let ghost m = dec_value(cs@.subrange(k as int, i as int));
        proof {
            assert(cs@.subrange(k as int, i + 1).drop_last() =~= cs@.subrange(k as int, i as int));
            lemma_cap_step(m, d as nat, mag_cap());
        }
        let next: u128 = match c.checked_mul(10) {
            Some(t) => match t.checked_add(d) {
                Some(u) => u,
                None => cap,
            },
            None => cap,
        };
        c = if next > cap { cap } else { next };
        i = i + 1;
    }
    proof {
        lemma_run_end(cs@, k as int, i as int);
    }
    let neg = k > 0 && cs[k - 1] == '-';
    if neg {
        if c == cap {
            Some(i128::MIN)
        } else {
            Some(-(c as i128))
        }
    } else {
        if c >= cap {
            Some(i128::MAX)
        } else {
            Some(c as i128)
        }
    }
}

/// Decimal digits spell their number, with digits only.
proof fn lemma_digits_value(n: nat, upper: bool)
    ensures
        dec_value(digits_in(n, 10, upper)) == n,
        digits_in(n, 10, upper).len() >= 1,
        forall|i: int| 0 <= i < digits_in(n, 10, upper).len() ==> is_digit(#[trigger] digits_in(n, 10, upper)[i]),
    decreases n,
{
    let ds = digits_in(n, 10, upper);
    assert(((48 + (n % 10)) as char) as int == 48 + (n % 10));
    if n < 10 {
        assert(ds.drop_last() =~= Seq::<char>::empty());
        assert(ds.last() == digit_in(n, upper));
        assert(n % 10 == n);
        assert(dec_value(ds.drop_last()) == 0);
        assert(dec_value(ds) == dec_value(ds.drop_last()) * 10 + ((ds.last() as int) - 48) as nat);
    } else {
        vstd::arithmetic::div_mod::lemma_div_decreases(n as int, 10);
        lemma_digits_value(n / 10, upper);
        let pre = digits_in(n / 10, 10, upper);
        assert(ds == pre.push(digit_in(n % 10, upper)));
        assert(ds.drop_last() =~= pre);
        assert(n == (n / 10) * 10 + n % 10) by {
            vstd::arithmetic::div_mod::lemma_fundamental_div_mod(n as int, 10);
        }
        assert(ds.last() == digit_in(n % 10, upper));
        assert(dec_value(ds) == dec_value(ds.drop_last()) * 10 + ((ds.last() as int) - 48) as nat);
        assert forall|i: int| 0 <= i < ds.len() implies is_digit(#[trigger] ds[i]) by {
            if i < pre.len() {
                assert(ds[i] == pre[i]);
            }
        }
    }
}

/// Zeros in front do not change the value.
proof fn lemma_zeros_value(k: nat, ds: Seq<char>)
    ensures
        dec_value(Seq::new(k, |_i: int| '0') + ds) == dec_value(ds),
    decreases ds.len(), k,
{
    let z = Seq::new(k, |_i: int| '0');
    if ds.len() == 0 {
        assert(z + ds =~= z);
        if k > 0 {
            lemma_zeros_value((k - 1) as nat, ds);
            assert(z.drop_last() =~= Seq::new((k - 1) as nat, |_i: int| '0'));
            assert(Seq::new((k - 1) as nat, |_i: int| '0') + ds =~= Seq::new((k - 1) as nat, |_i: int| '0'));
        }
    } else {
        lemma_zeros_value(k, ds.drop_last());
        assert((z + ds).drop_last() =~= z + ds.drop_last());
        assert((z + ds).last() == ds.last());
    }
}

/// A run of digits up to the end of the text ends there.
proof fn lemma_run_to_end(t: Seq<char>, k: int)
    requires
        0 <= k <= t.len(),
        forall|i: int| k <= i < t.len() ==> is_digit(#[trigger] t[i]),
    ensures
        digit_run_end(t, k) == t.len(),
    decreases t.len() - k,
{
    if k < t.len() {
        lemma_run_to_end(t, k + 1);
    }
}

/// Reading back a number written in decimal gives the number: the leading
/// integer of [`number_text`] in base 10, whatever the padding, is the
/// value that was written.
pub proof fn law_decimal_round_trip(v: i64, w: nat, upper: bool)
    ensures
        leading_int(number_text(v as int, NumBase::Dec, w, upper)) == Some(v as int),
{
    let mag: nat = if v < 0 { (-(v as int)) as nat } else { v as nat };
    let ds = digits_in(mag, 10, upper);
    lemma_digits_value(mag, upper);
    let body = zero_padded(ds, w);
    let z = if ds.len() < w { (w - ds.len()) as nat } else { 0 };
    assert(body =~= Seq::new(z, |_i: int| '0') + ds);
    lemma_zeros_value(z, ds);
    assert forall|i: int| 0 <= i < body.len() implies is_digit(#[trigger] body[i]) by {
        if i >= z {
            assert(body[i] == ds[i - z]);
        }
    }
    let t = number_text(v as int, NumBase::Dec, w, upper);
    if v < 0 {
        assert(t =~= seq!['-'] + body);
        assert(!is_digit(t[0]));
        assert(t[1] == body[0]);
        assert(first_digit_from(t, 1) == 1);
        assert(first_digit_from(t, 0) == 1);
        assert forall|i: int| 1 <= i < t.len() implies is_digit(#[trigger] t[i]) by {
            assert(t[i] == body[i - 1]);
        }
        lemma_run_to_end(t, 1);
        assert(t.subrange(1, t.len() as int) =~= body);
    } else {
        assert(t == body);
        assert(first_digit_from(t, 0) == 0);
        lemma_run_to_end(t, 0);
        assert(t.subrange(0, t.len() as int) =~= body);
    }
}

} // verus!
