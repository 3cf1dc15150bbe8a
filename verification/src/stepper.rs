//! The executable generation stepper, proved against the model.

use crate::model::extent_wf;
use crate::model::feeds;
use crate::model::in_extent;
use crate::model::is_wrapped_neighbor;
use crate::model::lemma_feeds_iff_source;
use crate::model::lemma_next_live_is_candidate;
use crate::model::lemma_wrapped_is_mod;
use crate::model::lemma_wrapped_near;
use crate::model::neighbor_count;
use crate::model::next_gen;
use crate::model::next_live;
use crate::model::small_offset;
use crate::model::valid_live;
use crate::model::wrapped;
use crate::model::Coord;
use crate::model::Extent;
use vstd::prelude::*;

verus! {

/// Width of the fixed screen grid that the driver renders.
pub const SCREEN_WIDTH: i32 = 80;

/// Height of the fixed screen grid that the driver renders.
pub const SCREEN_HEIGHT: i32 = 50;

/// The extent of the fixed 80x50 screen grid.
pub fn screen_extent() -> (e: Extent)
    ensures
        e.width == SCREEN_WIDTH,
        e.height == SCREEN_HEIGHT,
        extent_wf(e),
{
    Extent { width: SCREEN_WIDTH, height: SCREEN_HEIGHT }
}

/// The initial pattern: a glider sitting against the bottom edge of the
/// screen grid, pointing down-right.
///
/// ```text
///  *            (1, ymax-2)
///   *                      (2, ymax-1)
/// ***    (0, ymax) (1, ymax) (2, ymax)
/// ```
pub fn glider() -> (v: Vec<Coord>)
    ensures
        v@.len() == 5,
        v@[0].x == 0 && v@[0].y == SCREEN_HEIGHT - 1,
        v@[1].x == 1 && v@[1].y == SCREEN_HEIGHT - 1,
        v@[2].x == 2 && v@[2].y == SCREEN_HEIGHT - 1,
        v@[3].x == 2 && v@[3].y == SCREEN_HEIGHT - 2,
        v@[4].x == 1 && v@[4].y == SCREEN_HEIGHT - 3,
        valid_live(v@, Extent { width: SCREEN_WIDTH, height: SCREEN_HEIGHT }),
{
    let ymax: i32 = SCREEN_HEIGHT - 1;
    let points = vec![
        Coord { x: 0, y: ymax },
        Coord { x: 1, y: ymax },
        Coord { x: 2, y: ymax },
        Coord { x: 2, y: ymax - 1 },
        Coord { x: 1, y: ymax - 2 },
    ];
    points
}

/// Maps a raw neighbor coordinate, at most one step outside the grid, to
/// its canonical wrapped cell.
pub fn compute_neighbor(x: i32, y: i32, e: Extent) -> (r: Coord)
    requires
        extent_wf(e),
        -1 <= x <= e.width,
        -1 <= y <= e.height,
    ensures
        r.x == wrapped(x as int, e.width as int),
        r.y == wrapped(y as int, e.height as int),
        in_extent(r, e),
{
    proof {
        lemma_wrapped_near(x as int, e.width as int);
        lemma_wrapped_near(y as int, e.height as int);
        lemma_wrapped_is_mod(x as int, e.width as int);
        lemma_wrapped_is_mod(y as int, e.height as int);
    }
    let adjusted_x = if x < 0 {
        e.width - 1
    } else if x > e.width - 1 {
        0
    } else {
        x
    };
    let adjusted_y = if y < 0 {
        e.height - 1
    } else if y > e.height - 1 {
        0
    } else {
        y
    };
    Coord { x: adjusted_x, y: adjusted_y }
}

/// Linear membership test over a coordinate vector.
fn contains_coord(v: &Vec<Coord>, c: Coord) -> (r: bool)
    ensures
        r == v@.contains(c),
{
    let mut i: usize = 0;
    while i < v.len()
        invariant
            i <= v@.len(),
            forall|k: int| 0 <= k < i ==> v@[k] != c,
        decreases v@.len() - i,
    {
        if v[i] == c {
            assert(v@.contains(c));
            return true;
        }
        i += 1;
    }
    assert(!v@.contains(c));
    false
}

/// Tests whether some live cell other than `d` reaches `d` through the
/// offset `(dx, dy)`, by stepping backwards from `d` to the unique
/// canonical source of that offset and looking it up in the live set.
fn offset_feeds(current: &Vec<Coord>, dx: i32, dy: i32, d: Coord, e: Extent) -> (r: bool)
    requires
        extent_wf(e),
        in_extent(d, e),
        valid_live(current@, e),
        -1 <= dx <= 1,
        -1 <= dy <= 1,
    ensures
        r == feeds(current@.to_set(), dx as int, dy as int, d, e),
{
    let s = compute_neighbor(d.x - dx, d.y - dy, e);
    let r = contains_coord(current, s) && !(s == d);
    proof {
        lemma_feeds_iff_source(current@, s, dx as int, dy as int, d, e);
    }
    r
}

/// Counts the live-neighbor contributions that the nine neighborhood
/// offsets make to cell `d`.
pub fn count_neighbors(current: &Vec<Coord>, d: Coord, e: Extent) -> (n: u32)
    requires
        extent_wf(e),
        in_extent(d, e),
        valid_live(current@, e),
    ensures
        n == neighbor_count(current@.to_set(), d, e),
{
    let mut n: u32 = 0;
    if offset_feeds(current, -1, -1, d, e) {
        n = n + 1;
    }
    if offset_feeds(current, 0, -1, d, e) {
        n = n + 1;
    }
    if offset_feeds(current, 1, -1, d, e) {
        n = n + 1;
    }
    if offset_feeds(current, -1, 0, d, e) {
        n = n + 1;
    }
    if offset_feeds(current, 0, 0, d, e) {
        n = n + 1;
    }
    if offset_feeds(current, 1, 0, d, e) {
        n = n + 1;
    }
    if offset_feeds(current, -1, 1, d, e) {
        n = n + 1;
    }
    if offset_feeds(current, 0, 1, d, e) {
        n = n + 1;
    }
    if offset_feeds(current, 1, 1, d, e) {
        n = n + 1;
    }
    n
}

/// Appends the canonical cell `c` to the candidate list unless it is
/// already there, keeping the list duplicate-free.
fn push_candidate(cands: &mut Vec<Coord>, c: Coord, e: Extent)
    requires
        in_extent(c, e),
        old(cands)@.no_duplicates(),
        forall|k: int| 0 <= k < old(cands)@.len() ==> in_extent(#[trigger] old(cands)@[k], e),
    ensures
        final(cands)@.no_duplicates(),
        forall|k: int| 0 <= k < final(cands)@.len() ==> in_extent(#[trigger] final(cands)@[k], e),
        final(cands)@.contains(c),
        forall|d: Coord| old(cands)@.contains(d) ==> final(cands)@.contains(d),
{
    if !contains_coord(cands, c) {
        let ghost before = cands@;
        cands.push(c);
        proof {
            assert(cands@ == before.push(c));
            assert(cands@[before.len() as int] == c);
            assert(forall|k: int| 0 <= k < before.len() ==> cands@[k] == before[k]);
            assert(forall|k: int| 0 <= k < before.len() ==> cands@[k] != c);
            assert(cands@.contains(c));
            assert forall|d: Coord| before.contains(d) implies cands@.contains(d) by {
                let i = choose|i: int| 0 <= i < before.len() && before[i] == d;
                assert(cands@[i] == d);
            }
        }
    }
}

/// Appends the nine wrapped neighborhood cells of the live cell `c` to the
/// candidate list: every cell that `c` reaches under a small offset is a
/// candidate afterwards, and the list stays duplicate-free and canonical.
fn add_neighborhood(cands: &mut Vec<Coord>, c: Coord, e: Extent)
    requires
        extent_wf(e),
        in_extent(c, e),
        old(cands)@.no_duplicates(),
        forall|k: int| 0 <= k < old(cands)@.len() ==> in_extent(#[trigger] old(cands)@[k], e),
    ensures
        final(cands)@.no_duplicates(),
        forall|k: int| 0 <= k < final(cands)@.len() ==> in_extent(#[trigger] final(cands)@[k], e),
        forall|d: Coord| old(cands)@.contains(d) ==> final(cands)@.contains(d),
        forall|d: Coord, dx: int, dy: int|
            small_offset(dx, dy) && #[trigger] is_wrapped_neighbor(c, dx, dy, d, e)
                ==> final(cands)@.contains(d),
{
    let s1 = compute_neighbor(c.x - 1, c.y - 1, e);
    push_candidate(cands, s1, e);
    let s2 = compute_neighbor(c.x, c.y - 1, e);
    push_candidate(cands, s2, e);
    let s3 = compute_neighbor(c.x + 1, c.y - 1, e);
    push_candidate(cands, s3, e);
    let s4 = compute_neighbor(c.x - 1, c.y, e);
    push_candidate(cands, s4, e);
    let s5 = compute_neighbor(c.x, c.y, e);
    push_candidate(cands, s5, e);
    let s6 = compute_neighbor(c.x + 1, c.y, e);
    push_candidate(cands, s6, e);
    let s7 = compute_neighbor(c.x - 1, c.y + 1, e);
    push_candidate(cands, s7, e);
    let s8 = compute_neighbor(c.x, c.y + 1, e);
    push_candidate(cands, s8, e);
    let s9 = compute_neighbor(c.x + 1, c.y + 1, e);
    push_candidate(cands, s9, e);
    proof {
        assert forall|d: Coord, dx: int, dy: int|
            small_offset(dx, dy) && is_wrapped_neighbor(c, dx, dy, d, e)
                implies cands@.contains(d) by {
            if dx == -1 && dy == -1 {
                assert(d == s1);
            } else if dx == 0 && dy == -1 {
                assert(d == s2);
            } else if dx == 1 && dy == -1 {
                assert(d == s3);
            } else if dx == -1 && dy == 0 {
                assert(d == s4);
            } else if dx == 0 && dy == 0 {
                assert(d == s5);
            } else if dx == 1 && dy == 0 {
                assert(d == s6);
            } else if dx == -1 && dy == 1 {
                assert(d == s7);
            } else if dx == 0 && dy == 1 {
                assert(d == s8);
            } else {
                assert(d == s9);
            }
        }
    }
}

/// One generation step on a toroidal grid: from the current live set to the
/// next one under the B3/S23 rule. The result is a duplicate-free vector
/// holding exactly the canonical cells that the rule keeps or brings alive.
pub fn step(current: &Vec<Coord>, extent: Extent) -> (next: Vec<Coord>)
    requires
        extent_wf(extent),
        valid_live(current@, extent),
    ensures
        next@.no_duplicates(),
        forall|d: Coord| #[trigger] next@.contains(d) <==> next_live(current@.to_set(), extent, d),
        next@.to_set() == next_gen(current@.to_set(), extent),
{
    let ghost ls = current@.to_set();

    // Every cell of the next generation lies in the wrapped neighborhood of
    // a currently live cell, so those neighborhoods are the only candidates.
    let mut cands: Vec<Coord> = Vec::new();
    let mut i: usize = 0;
    while i < current.len()
        invariant
            extent_wf(extent),
            valid_live(current@, extent),
            i <= current@.len(),
            cands@.no_duplicates(),
            forall|k: int| 0 <= k < cands@.len() ==> in_extent(#[trigger] cands@[k], extent),
            forall|j: int, dx: int, dy: int, d: Coord|
                0 <= j < i && small_offset(dx, dy) && #[trigger] is_wrapped_neighbor(
                    current@[j],
                    dx,
                    dy,
                    d,
                    extent,
                ) ==> cands@.contains(d),
        decreases current@.len() - i,
    {
        let ghost before = cands@;
        add_neighborhood(&mut cands, current[i], extent);
        proof {
            assert forall|j: int, dx: int, dy: int, d: Coord|
                0 <= j < i + 1 && small_offset(dx, dy) && is_wrapped_neighbor(
                    current@[j],
                    dx,
                    dy,
                    d,
                    extent,
                ) implies cands@.contains(d) by {
                if j < i {
                    assert(before.contains(d));
                }
            }
        }
        i = i + 1;
    }

    // Keep exactly the candidates that the rule makes live.
    let mut next: Vec<Coord> = Vec::new();
    let mut j: usize = 0;
    while j < cands.len()
        invariant
            extent_wf(extent),
            valid_live(current@, extent),
            ls == current@.to_set(),
            cands@.no_duplicates(),
            forall|k: int| 0 <= k < cands@.len() ==> in_extent(#[trigger] cands@[k], extent),
            j <= cands@.len(),
            next@.no_duplicates(),
            forall|d: Coord| #[trigger] next@.contains(d) ==> next_live(ls, extent, d),
            forall|d: Coord| #[trigger] next@.contains(d)
                ==> exists|k: int| 0 <= k < j && cands@[k] == d,
            forall|k: int|
                0 <= k < j && next_live(ls, extent, #[trigger] cands@[k]) ==> next@.contains(
                    cands@[k],
                ),
        decreases cands@.len() - j,
    {
        let d = cands[j];
        let n = count_neighbors(current, d, extent);
        let is_live = contains_coord(current, d);
        if (is_live && n == 2) || n == 3 {
            proof {
                assert(next_live(ls, extent, d));
                if next@.contains(d) {
                    let k = choose|k: int| 0 <= k < j && cands@[k] == d;
                    assert(cands@[k] == cands@[j as int]);
                    assert(false);
                }
            }
            let ghost before = next@;
            next.push(d);
            proof {
                assert(next@[before.len() as int] == d);
                assert(next@.contains(d));
                assert(forall|k: int| 0 <= k < before.len() ==> next@[k] == before[k]);
                assert(forall|k: int| 0 <= k < before.len() ==> next@[k] != d);
                assert forall|c: Coord| next@.contains(c) implies (before.contains(c) || c == d) by {
                    let k = choose|k: int| 0 <= k < next@.len() && next@[k] == c;
                    if k < before.len() {
                        assert(before[k] == c);
                    }
                }
                assert forall|c: Coord| before.contains(c) implies next@.contains(c) by {
                    let k = choose|k: int| 0 <= k < before.len() && before[k] == c;
                    assert(next@[k] == c);
                }
                assert(next@.no_duplicates());
                assert forall|c: Coord| next@.contains(c) implies next_live(ls, extent, c) by {
                    if before.contains(c) {
                    } else {
                        assert(c == d);
                    }
                }
                assert(cands@[j as int] == d);
                assert forall|c: Coord| next@.contains(c) implies exists|k: int|
                    0 <= k < j + 1 && cands@[k] == c by {
                    if before.contains(c) {
                        let k = choose|k: int| 0 <= k < j && cands@[k] == c;
                        assert(0 <= k < j + 1 && cands@[k] == c);
                    } else {
                        assert(c == d);
                        assert(0 <= j < j + 1 && cands@[j as int] == c);
                    }
                }
                assert forall|k: int|
                    0 <= k < j + 1 && next_live(ls, extent, cands@[k]) implies next@.contains(
                    cands@[k],
                ) by {
                    if k < j {
                        assert(before.contains(cands@[k]));
                    } else {
                        assert(cands@[k] == d);
                    }
                }
            }
        }
        j = j + 1;
    }

    proof {
        assert forall|d: Coord| next@.contains(d) <==> next_live(ls, extent, d) by {
            if next_live(ls, extent, d) {
                lemma_next_live_is_candidate(current@, extent, d);
                let (i2, dx, dy) = choose|i2: int, dx: int, dy: int|
                    0 <= i2 < current@.len() && small_offset(dx, dy) && #[trigger] is_wrapped_neighbor(
                        current@[i2],
                        dx,
                        dy,
                        d,
                        extent,
                    );
                assert(cands@.contains(d));
                let k = choose|k: int| 0 <= k < cands@.len() && cands@[k] == d;
                assert(next@.contains(cands@[k]));
            }
        }
        assert(next@.to_set() =~= next_gen(ls, extent)) by {
            assert(forall|d: Coord|
                next@.to_set().contains(d) == #[trigger] next_gen(ls, extent).contains(d));
        }
    }
    next
}

} // verus!
