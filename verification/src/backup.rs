//! Copies of the version on disk taken before it is overwritten: their
//! names, and which timestamped copies to drop so that only the newest
//! ones stay.

use vstd::prelude::*;
use crate::comments::starts_with;
use crate::lineblock::texts;
use crate::numbering::{digits_in, push_digits};
use crate::sorting::{stable_sort_perm, sort_perm, ints, is_perm, SortKey, lex_le, line_before, sorted_lines, law_sorted_lines_in_order};
use crate::strs::{chars_of, string_of};

verus! {

/// Timestamped copies kept per file.
pub const MAX_TIMESTAMPED_BACKUPS: usize = 20;

/// Files larger than this many bytes are not copied.
pub const MAX_BACKUP_SOURCE_BYTES: u64 = 67108864;

/// `t` ends with `s`.
pub open spec fn ends_with(t: Seq<char>, s: Seq<char>) -> bool {
    s.len() <= t.len() && t.subrange(t.len() - s.len(), t.len() as int) == s
}

/// `.bak`.
pub open spec fn bak_suffix() -> Seq<char> {
    seq!['.', 'b', 'a', 'k']
}

/// A timestamped copy of file `name`: `name.` followed by anything and
/// `.bak`.
pub open spec fn is_archive(f: Seq<char>, name: Seq<char>) -> bool {
    starts_with(f, name.push('.')) && ends_with(f, bak_suffix())
}

/// The timestamped copies of `name` among `fs`, in their order.
pub open spec fn archives(fs: Seq<Seq<char>>, name: Seq<char>) -> Seq<Seq<char>>
    decreases fs.len(),
{
    if fs.len() == 0 {
        seq![]
    } else {
        let r = archives(fs.drop_last(), name);
        if is_archive(fs.last(), name) { r.push(fs.last()) } else { r }
    }
}

/// A copy's name without its `.bak` ending.
pub open spec fn stem(f: Seq<char>) -> Seq<char> {
    f.take(f.len() - 4)
}

/// The copies to drop: with more than [`MAX_TIMESTAMPED_BACKUPS`] copies,
/// all but the newest that many. Copies are ordered by their names without
/// the `.bak` ending, character by character: the names hold the time as
/// `YYYYMMDD-HHMMSS`, and a copy `-N` taken within the same second comes
/// after the plain one of that second.
pub open spec fn stale_archives(fs: Seq<Seq<char>>, name: Seq<char>) -> Seq<Seq<char>> {
    let a = archives(fs, name);
    if a.len() <= MAX_TIMESTAMPED_BACKUPS {
        seq![]
    } else {
        sort_perm(a.map_values(|f: Seq<char>| stem(f)), a.len(), false, SortKey::Text).take(a.len() - MAX_TIMESTAMPED_BACKUPS).map_values(
            |i: int| a[i],
        )
    }
}

/// The copies that stay after pruning: the newest ones, in order.
pub open spec fn kept_archives(fs: Seq<Seq<char>>, name: Seq<char>) -> Seq<Seq<char>> {
    let a = archives(fs, name);
    if a.len() <= MAX_TIMESTAMPED_BACKUPS {
        a
    } else {
        sort_perm(a.map_values(|f: Seq<char>| stem(f)), a.len(), false, SortKey::Text).skip(
            a.len() - MAX_TIMESTAMPED_BACKUPS,
        ).map_values(|i: int| a[i])
    }
}

/// Pruning keeps the newest copies: exactly [`MAX_TIMESTAMPED_BACKUPS`] stay
/// when there were more, none is dropped otherwise, and every dropped copy
/// sorts at or before every kept one.
pub proof fn law_prune_keeps_newest(fs: Seq<Seq<char>>, name: Seq<char>)
    ensures
        ({
            let a = archives(fs, name);
            let d = stale_archives(fs, name);
            let k = kept_archives(fs, name);
            &&& a.len() <= MAX_TIMESTAMPED_BACKUPS ==> d.len() == 0 && k == a
            &&& a.len() > MAX_TIMESTAMPED_BACKUPS ==> d.len() == a.len() - MAX_TIMESTAMPED_BACKUPS
                && k.len() == MAX_TIMESTAMPED_BACKUPS
            &&& forall|i: int, j: int| 0 <= i < d.len() && 0 <= j < k.len() ==> lex_le(stem(#[trigger] d[i]), stem(#[trigger] k[j]))
        }),
{
    let a = archives(fs, name);
    if a.len() > MAX_TIMESTAMPED_BACKUPS {
        let st = a.map_values(|f: Seq<char>| stem(f));
        let n = a.len();
        let cut = n - MAX_TIMESTAMPED_BACKUPS;
        law_sorted_lines_in_order(st, false, SortKey::Text);
        let p = sort_perm(st, n, false, SortKey::Text);
        let d = stale_archives(fs, name);
        let k = kept_archives(fs, name);
        assert forall|i: int, j: int| 0 <= i < d.len() && 0 <= j < k.len() implies lex_le(stem(#[trigger] d[i]), stem(#[trigger] k[j])) by {
            assert(0 <= p[i] < n);
            assert(0 <= p[cut + j] < n);
            assert(d[i] == a[p[i]]);
            assert(k[j] == a[p[cut + j]]);
            assert(sorted_lines(st, false, SortKey::Text)[i] == st[p[i]]);
            assert(sorted_lines(st, false, SortKey::Text)[cut + j] == st[p[cut + j]]);
            assert(line_before(SortKey::Text, sorted_lines(st, false, SortKey::Text)[i],
                sorted_lines(st, false, SortKey::Text)[cut + j], false));
        }
    }
}

/// `name.bak`: the single copy kept in simple mode.
pub open spec fn simple_backup(name: Seq<char>) -> Seq<char> {
    name + bak_suffix()
}

/// `name.bak.d`: the folder of the timestamped copies.
pub open spec fn backup_dir(name: Seq<char>) -> Seq<char> {
    name + bak_suffix() + seq!['.', 'd']
}

/// `name.STAMP.bak`, or `name.STAMP-SEQ.bak` for the `seq`-th copy taken
/// within the same second.
pub open spec fn timestamped_backup(name: Seq<char>, stamp: Seq<char>, seq: nat) -> Seq<char> {
    name.push('.') + stamp + (if seq == 0 { seq![] } else { seq!['-'] + digits_in(seq, 10, false) }) + bak_suffix()
}

/// Appends `.bak`.
fn push_bak(v: &mut Vec<char>)
    ensures
        final(v)@ == old(v)@ + bak_suffix(),
{
    v.push('.');
    v.push('b');
    v.push('a');
    v.push('k');
    proof {
        assert(v@ =~= old(v)@ + bak_suffix());
    }
}

/// The name of the single copy kept in simple mode (see
/// [`simple_backup`]).
pub fn simple_backup_name(name: &str) -> (r: String)
    ensures
        r@ == simple_backup(name@),
{
    let mut v = chars_of(name);
    push_bak(&mut v);
    string_of(v.as_slice())
}

/// The folder of the timestamped copies (see [`backup_dir`]).
pub fn backup_dir_name(name: &str) -> (r: String)
    ensures
        r@ == backup_dir(name@),
{
    let mut v = chars_of(name);
    push_bak(&mut v);
    v.push('.');
    v.push('d');
    proof {
        assert(v@ =~= backup_dir(name@));
    }
    string_of(v.as_slice())
}

/// The name of a timestamped copy (see [`timestamped_backup`]).
pub fn timestamped_backup_name(name: &str, stamp: &str, seq: u32) -> (r: String)
    ensures
        r@ == timestamped_backup(name@, stamp@, seq as nat),
{
    let mut v = chars_of(name);
    v.push('.');
    let st = chars_of(stamp);
    crate::document::append_chars(&mut v, st.as_slice());
    let ghost head = v@;
    if seq > 0 {
        v.push('-');
        push_digits(&mut v, seq as u64, 10, false);
    }
    push_bak(&mut v);
    proof {
        assert(v@ =~= timestamped_backup(name@, stamp@, seq as nat));
    }
    string_of(v.as_slice())
}

/// Whether `f` is a timestamped copy of `name` (see [`is_archive`]).
fn archive_of(f: &Vec<char>, name: &Vec<char>) -> (r: bool)
    ensures
        r == is_archive(f@, name@),
{
    let n = name.len();
    if f.len() <= n || f.len() < 4 {
        proof {
            if f@.len() >= n + 1 && f@.len() < 4 {
                assert(!ends_with(f@, bak_suffix()));
            }
        }
        return false;
    }
    let mut i: usize = 0;
    while i < n
        invariant
            n == name@.len(),
            n + 1 <= f@.len(),
            i <= n,
            forall|j: int| 0 <= j < i ==> f@[j] == name@[j],
        decreases n - i,
    {
        if f[i] != name[i] {
            proof {
                assert(f@.take(n + 1)[i as int] != name@.push('.')[i as int]);
            }
            return false;
        }
        i = i + 1;
    }
    if f[n] != '.' {
        proof {
            assert(f@.take(n + 1)[n as int] != name@.push('.')[n as int]);
        }
        return false;
    }
    proof {
        assert(f@.take(n + 1) =~= name@.push('.'));
    }
    let m = f.len();
    let tail_ok = f[m - 4] == '.' && f[m - 3] == 'b' && f[m - 2] == 'a' && f[m - 1] == 'k';
    proof {
        let t = f@.subrange(m - 4, m as int);
        if tail_ok {
            assert(t =~= bak_suffix());
        } else {
            assert(t != bak_suffix()) by {
                if t == bak_suffix() {
                    assert(t[0] == '.' && t[1] == 'b' && t[2] == 'a' && t[3] == 'k');
                }
            }
        }
    }
    tail_ok
}

/// The timestamped copies of `name` to delete among the files `files` of
/// its folder (see [`stale_archives`]), oldest first.
pub fn backups_to_prune(files: &Vec<String>, name: &str) -> (r: Vec<String>)
    ensures
        r@.map_values(|s: String| s@) == stale_archives(files@.map_values(|s: String| s@), name@),
{
    let ghost fs = files@.map_values(|s: String| s@);
    let nm = chars_of(name);
    let mut keep: Vec<Vec<char>> = Vec::new();
    let mut i: usize = 0;
    proof {
        assert(fs.take(0) =~= Seq::<Seq<char>>::empty());
    }
    while i < files.len()
        invariant
            i <= files@.len(),
            fs == files@.map_values(|s: String| s@),
            nm@ == name@,
            texts(keep@) == archives(fs.take(i as int), name@),
            forall|w: int| 0 <= w < keep@.len() ==> (#[trigger] keep@[w])@.len() >= 4,
        decreases files@.len() - i,
    {
        let f = chars_of(files[i].as_str());
        proof {
            assert(fs.take(i + 1).drop_last() =~= fs.take(i as int));
            assert(fs.take(i + 1).last() == f@);
        }
        let ghost before = keep@;
        if archive_of(&f, &nm) {
            keep.push(f);
            proof {
                assert(texts(keep@) =~= texts(before).push(fs[i as int]));
            }
        }
        i = i + 1;
    }
    proof {
        assert(fs.take(i as int) =~= fs);
    }
    let mut out: Vec<String> = Vec::new();
    let k = keep.len();
    if k <= MAX_TIMESTAMPED_BACKUPS {
        proof {
            assert(out@.map_values(|s: String| s@) =~= Seq::<Seq<char>>::empty());
        }
        return out;
    }
    let mut stems: Vec<Vec<char>> = Vec::new();
    let mut q: usize = 0;
    while q < k
        invariant
            k == keep@.len(),
            q <= k,
            stems@.len() == q,
            forall|w: int| 0 <= w < q ==> (#[trigger] stems@[w])@ == stem(keep@[w]@),
            forall|w: int| 0 <= w < k ==> (#[trigger] keep@[w])@.len() >= 4,
        decreases k - q,
    {
        let f = &keep[q];
        let mut st: Vec<char> = Vec::new();
        let mut c: usize = 0;
        let fl = f.len() - 4;
        while c < fl
            invariant
                fl == f@.len() - 4,
                c <= fl,
                st@ == f@.take(c as int),
            decreases fl - c,
        {
            st.push(f[c]);
            c = c + 1;
            proof {
                assert(st@ =~= f@.take(c as int));
            }
        }
        stems.push(st);
        q = q + 1;
    }
    let ghost a = texts(keep@);
    proof {
        assert(texts(stems@) =~= a.map_values(|f: Seq<char>| stem(f)));
    }
    let perm = stable_sort_perm(&stems, false, SortKey::Text);
    let drop_n = k - MAX_TIMESTAMPED_BACKUPS;
    let ghost order = sort_perm(texts(stems@), k as nat, false, SortKey::Text);
    let mut j: usize = 0;
    while j < drop_n
        invariant
            k == keep@.len(),
            k == stems@.len(),
            a == texts(keep@),
            drop_n <= k,
            j <= drop_n,
            ints(perm@) == order,
            is_perm(ints(perm@), k as int),
            out@.len() == j,
            out@.map_values(|s: String| s@) == order.take(j as int).map_values(|i: int| a[i]),
        decreases drop_n - j,
    {
        let idx = perm[j];
        proof {
            assert(ints(perm@)[j as int] == idx as int);
            assert(0 <= ints(perm@)[j as int] < k);
        }
        let s = string_of(keep[idx].as_slice());
        let ghost before = out@;
        out.push(s);
        proof {
            let om = out@.map_values(|s: String| s@);
            let bm = before.map_values(|s: String| s@);
            let want = order.take(j + 1).map_values(|i: int| a[i]);
            assert forall|w: int| 0 <= w < j + 1 implies #[trigger] om[w] == want[w] by {
                if w < j {
                    assert(out@[w] == before[w]);
                    assert(bm[w] == order.take(j as int).map_values(|i: int| a[i])[w]);
                }
            }
            assert(om =~= want);
        }
        j = j + 1;
    }
    out
}

} // verus!
