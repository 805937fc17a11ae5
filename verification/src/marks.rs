//! How bookmarks follow the lines they mark when edits add, remove, merge
//! or reorder lines.

use vstd::prelude::*;
use crate::lineset::{LineSet, image, remap};

verus! {

/// A line number moved by `delta` when it is below `from_excl` (greater),
/// dropped when the result leaves `usize`.
pub open spec fn shift_map(from_excl: int, delta: int) -> spec_fn(usize) -> Option<usize> {
    |l: usize| {
        let m = if l > from_excl { l + delta } else { l as int };
        if 0 <= m <= usize::MAX { Some(m as usize) } else { None }
    }
}

/// Lines `[first, first + count)` removed: those marks vanish, later ones
/// move up by `count`.
pub open spec fn removed_rows_map(first: int, count: int) -> spec_fn(usize) -> Option<usize> {
    |l: usize| {
        if l >= first + count { Some((l - count) as usize) } else if l >= first { None } else { Some(l) }
    }
}

/// Line `gone` merged into line `survivor` (`survivor < gone`): a mark on
/// `gone` lands on `survivor`, later marks move up by one.
pub open spec fn merge_pair_map(survivor: int, gone: int) -> spec_fn(usize) -> Option<usize> {
    |l: usize| {
        if l == gone { Some(survivor as usize) } else if l > gone { Some((l - 1) as usize) } else { Some(l) }
    }
}

/// A multi-line region `start_line..=end_line` replaced by text that ends
/// on one line: marks strictly inside the region vanish, later marks move
/// up by `vanished`.
pub open spec fn span_map(start_line: int, end_line: int, vanished: int) -> spec_fn(usize) -> Option<usize> {
    |l: usize| {
        if l < start_line { Some(l) } else if l > end_line { Some((l - vanished) as usize) } else { None }
    }
}

/// Bookmarks after a multi-line region is replaced: see [`span_map`]; the
/// start line keeps a mark when it had one and its prefix survives
/// (`start_keeps`), or when the end line had one (its tail always
/// survives, joined to the start line).
pub open spec fn replaced_span_set(s: Set<usize>, start_line: int, start_keeps: bool, end_line: int, vanished: int) -> Set<usize> {
    let base = image(s, span_map(start_line, end_line, vanished));
    if (s.contains(start_line as usize) && start_keeps) || s.contains(end_line as usize) {
        base.insert(start_line as usize)
    } else {
        base
    }
}

/// Line `l` of a block starting at `start` goes to `start + map[l - start]`
/// (`None` drops it); lines outside the map stay.
pub open spec fn block_map(start: int, map: Seq<Option<usize>>) -> spec_fn(usize) -> Option<usize> {
    |l: usize| {
        if l >= start && l - start < map.len() {
            match map[l - start] {
                Some(r) => if start + r <= usize::MAX { Some((start + r) as usize) } else { None },
                None => None,
            }
        } else {
            Some(l)
        }
    }
}

/// Lines `a..=b` swapped with the neighbour above (`up`) or below: the
/// neighbour goes to the block's other end, the block's lines move by one.
pub open spec fn move_map(a: int, b: int, up: bool) -> spec_fn(usize) -> Option<usize> {
    |l: usize| {
        if up {
            if l == a - 1 { Some(b as usize) } else if a <= l <= b { Some((l - 1) as usize) } else { Some(l) }
        } else {
            if l == b + 1 { Some(a as usize) } else if a <= l <= b { Some((l + 1) as usize) } else { Some(l) }
        }
    }
}

/// Lines below `boundary` (greater) move by `delta`, not below 0.
pub open spec fn shift_clamp_map(boundary: int, delta: int) -> spec_fn(usize) -> Option<usize> {
    |l: usize| {
        if l > boundary {
            let m = l + delta;
            if m < 0 { Some(0) } else if m <= usize::MAX { Some(m as usize) } else { None }
        } else {
            Some(l)
        }
    }
}

/// Shifts the marks below `from_excl` by `delta`.
pub fn remap_shift_below(s: &LineSet, from_excl: usize, delta: isize) -> (r: LineSet)
    requires
        s.wf(),
    ensures
        r.wf(),
        r.set() == image(s.set(), shift_map(from_excl as int, delta as int)),
{
    let f = |l: usize| -> (o: Option<usize>)
        ensures
            o == (shift_map(from_excl as int, delta as int))(l),
        {
            if l > from_excl {
                if delta >= 0 {
                    let d = delta as usize;
                    if l <= usize::MAX - d { Some(l + d) } else { None }
                } else {
                    let d = (0 - (delta as i128)) as u128;
                    if (l as u128) >= d { Some((l as u128 - d) as usize) } else { None }
                }
            } else {
                Some(l)
            }
        };
    remap(s, f, Ghost(shift_map(from_excl as int, delta as int)))
}

/// Drops the marks on `[first, first + count)` and moves later ones up.
pub fn remap_removed_rows(s: &LineSet, first: usize, count: usize) -> (r: LineSet)
    requires
        s.wf(),
        first + count <= usize::MAX,
    ensures
        r.wf(),
        r.set() == image(s.set(), removed_rows_map(first as int, count as int)),
{
    let end = first + count;
    let f = |l: usize| -> (o: Option<usize>)
        ensures
            o == (removed_rows_map(first as int, count as int))(l),
        {
            if l >= end { Some(l - count) } else if l >= first { None } else { Some(l) }
        };
    remap(s, f, Ghost(removed_rows_map(first as int, count as int)))
}

/// Merges line `gone` into `survivor` (see [`merge_pair_map`]).
pub fn remap_merge_pair(s: &LineSet, survivor: usize, gone: usize) -> (r: LineSet)
    requires
        s.wf(),
        survivor < gone,
    ensures
        r.wf(),
        r.set() == image(s.set(), merge_pair_map(survivor as int, gone as int)),
{
    let f = |l: usize| -> (o: Option<usize>)
        ensures
            o == (merge_pair_map(survivor as int, gone as int))(l),
        {
            if l == gone { Some(survivor) } else if l > gone { Some(l - 1) } else { Some(l) }
        };
    remap(s, f, Ghost(merge_pair_map(survivor as int, gone as int)))
}

/// Bookmarks after the region `start_line..=end_line` is replaced (see
/// [`replaced_span_set`]).
pub fn remap_replaced_span(s: &LineSet, start_line: usize, start_keeps: bool, end_line: usize, vanished: usize) -> (r: LineSet)
    requires
        s.wf(),
        start_line <= end_line,
        vanished <= end_line,
    ensures
        r.wf(),
        r.set() == replaced_span_set(s.set(), start_line as int, start_keeps, end_line as int, vanished as int),
{
    let had_start = s.contains(start_line) && start_keeps;
    let had_end = s.contains(end_line);
    let f = |l: usize| -> (o: Option<usize>)
        ensures
            o == (span_map(start_line as int, end_line as int, vanished as int))(l),
        {
            if l < start_line { Some(l) } else if l > end_line { Some(l - vanished) } else { None }
        };
    let mut r = remap(s, f, Ghost(span_map(start_line as int, end_line as int, vanished as int)));
    if had_start || had_end {
        r.insert(start_line);
    }
    r
}

/// Bookmarks carried through a block reordering (see [`block_map`]).
pub fn remap_block_mapping(s: &LineSet, start: usize, map: &Vec<Option<usize>>) -> (r: LineSet)
    requires
        s.wf(),
    ensures
        r.wf(),
        r.set() == image(s.set(), block_map(start as int, map@)),
{
    let f = |l: usize| -> (o: Option<usize>)
        ensures
            o == (block_map(start as int, map@))(l),
        {
            if l >= start && l - start < map.len() {
                match map[l - start] {
                    Some(rel) => if rel <= usize::MAX - start { Some(start + rel) } else { None },
                    None => None,
                }
            } else {
                Some(l)
            }
        };
    remap(s, f, Ghost(block_map(start as int, map@)))
}

/// Moves the marks below `boundary` by `delta`, clamped at line 0.
pub fn shift_bookmarks_below(s: &LineSet, boundary: usize, delta: isize) -> (r: LineSet)
    requires
        s.wf(),
    ensures
        r.wf(),
        r.set() == image(s.set(), shift_clamp_map(boundary as int, delta as int)),
{
    let f = |l: usize| -> (o: Option<usize>)
        ensures
            o == (shift_clamp_map(boundary as int, delta as int))(l),
        {
            if l > boundary {
                if delta >= 0 {
                    let d = delta as usize;
                    if l <= usize::MAX - d { Some(l + d) } else { None }
                } else {
                    let d = (0 - (delta as i128)) as u128;
                    if (l as u128) >= d { Some((l as u128 - d) as usize) } else { Some(0) }
                }
            } else {
                Some(l)
            }
        };
    remap(s, f, Ghost(shift_clamp_map(boundary as int, delta as int)))
}

/// Bookmarks after lines `a..=b` swap with a neighbour (see [`move_map`]).
pub fn remap_move_block(s: &LineSet, a: usize, b: usize, up: bool) -> (r: LineSet)
    requires
        s.wf(),
        a <= b < usize::MAX,
        up ==> a >= 1,
    ensures
        r.wf(),
        r.set() == image(s.set(), move_map(a as int, b as int, up)),
{
    let f = |l: usize| -> (o: Option<usize>)
        ensures
            o == (move_map(a as int, b as int, up))(l),
        {
            if up {
                if l == a - 1 { Some(b) } else if a <= l && l <= b { Some(l - 1) } else { Some(l) }
            } else {
                if l == b + 1 { Some(a) } else if a <= l && l <= b { Some(l + 1) } else { Some(l) }
            }
        };
    remap(s, f, Ghost(move_map(a as int, b as int, up)))
}

} // verus!
