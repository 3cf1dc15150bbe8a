//! The mathematical model of the grid: coordinates, extents, toroidal
//! wraparound, and the neighbor-count rule that defines one generation step.

use vstd::arithmetic::div_mod::lemma_fundamental_div_mod;
use vstd::arithmetic::div_mod::lemma_mod_bound;
use vstd::arithmetic::div_mod::lemma_mod_multiples_vanish;
use vstd::arithmetic::div_mod::lemma_mod_self_0;
use vstd::arithmetic::div_mod::lemma_small_mod;
use vstd::prelude::*;

verus! {

/// A grid cell, identified by its column `x` and row `y`.
#[derive(Clone, Copy, Debug, Eq, Hash, Ord, PartialEq, PartialOrd, Structural)]
pub struct Coord {
    pub x: i32,
    pub y: i32,
}

/// The fixed size of the toroidal grid: `width` columns and `height` rows.
#[derive(Clone, Copy, Debug, Eq, PartialEq, Structural)]
pub struct Extent {
    pub width: i32,
    pub height: i32,
}

/// A grid extent is valid when both dimensions are at least 1.
pub open spec fn extent_wf(e: Extent) -> bool {
    1 <= e.width && 1 <= e.height
}

/// `c` lies in the canonical cell range `[0, width) x [0, height)`.
pub open spec fn in_extent(c: Coord, e: Extent) -> bool {
    0 <= c.x < e.width && 0 <= c.y < e.height
}

/// A sequence is a valid live set when every coordinate is canonical and
/// none repeats.
pub open spec fn valid_live(s: Seq<Coord>, e: Extent) -> bool {
    s.no_duplicates() && forall|i: int| 0 <= i < s.len() ==> in_extent(#[trigger] s[i], e)
}

/// Toroidal wraparound of one scalar coordinate: the non-negative remainder
/// of `v` modulo `n`. The double-modulo form keeps the result non-negative
/// even under a sign-following remainder operator; in ghost code `%` is
/// already Euclidean, so `lemma_wrapped_is_mod` collapses the two.
pub open spec fn wrapped(v: int, n: int) -> int {
    ((v % n) + n) % n
}

/// Wraparound is plain Euclidean remainder, and its result is canonical.
pub proof fn lemma_wrapped_is_mod(v: int, n: int)
    requires
        1 <= n,
    ensures
        wrapped(v, n) == v % n,
        0 <= wrapped(v, n) < n,
{
    lemma_mod_bound(v, n);
    lemma_mod_multiples_vanish(1, v % n, n);
    assert(n * 1 + v % n == (v % n) + n);
    lemma_small_mod((v % n) as nat, n as nat);
}

/// On a canonical value wraparound is the identity.
pub proof fn lemma_wrapped_identity(v: int, n: int)
    requires
        1 <= n,
        0 <= v < n,
    ensures
        wrapped(v, n) == v,
{
    lemma_wrapped_is_mod(v, n);
    lemma_small_mod(v as nat, n as nat);
}

/// For a value at most one step outside the canonical range, wraparound
/// agrees with the one-step adjustment that the executable code performs.
pub proof fn lemma_wrapped_near(v: int, n: int)
    requires
        1 <= n,
        -1 <= v <= n,
    ensures
        wrapped(v, n) == if v < 0 {
            n - 1
        } else if v > n - 1 {
            0
        } else {
            v
        },
{
    lemma_wrapped_is_mod(v, n);
    if v == -1 {
        lemma_mod_multiples_vanish(1, -1, n);
        assert(n * 1 + -1 == n - 1);
        lemma_small_mod((n - 1) as nat, n as nat);
    } else if v == n {
        lemma_mod_self_0(n);
    } else {
        lemma_small_mod(v as nat, n as nat);
    }
}

/// Wrapping a value, offsetting it, and wrapping again is the same as
/// offsetting the value once and wrapping the sum.
pub proof fn lemma_wrapped_add(v: int, d: int, n: int)
    requires
        1 <= n,
    ensures
        wrapped(wrapped(v, n) + d, n) == wrapped(v + d, n),
{
    lemma_wrapped_is_mod(v, n);
    lemma_wrapped_is_mod(wrapped(v, n) + d, n);
    lemma_wrapped_is_mod(v + d, n);
    lemma_fundamental_div_mod(v, n);
    lemma_mod_multiples_vanish(v / n, v % n + d, n);
    assert(n * (v / n) + (v % n + d) == v + d);
}

/// `d` is the wrapped neighbor of `c` under offset `(dx, dy)`.
pub open spec fn is_wrapped_neighbor(c: Coord, dx: int, dy: int, d: Coord, e: Extent) -> bool {
    d.x == wrapped(c.x + dx, e.width as int) && d.y == wrapped(c.y + dy, e.height as int)
}

/// An offset pair that stays within the 3x3 neighborhood block.
pub open spec fn small_offset(dx: int, dy: int) -> bool {
    -1 <= dx <= 1 && -1 <= dy <= 1
}

/// Some live cell other than `d` itself reaches `d` under offset `(dx, dy)`.
/// Among canonical cells at most one can (`lemma_source_unique`), so this
/// also says that the unique backward source of `d` under `(dx, dy)` is live.
pub open spec fn feeds(live: Set<Coord>, dx: int, dy: int, d: Coord, e: Extent) -> bool {
    exists|c: Coord| live.contains(c) && c != d && is_wrapped_neighbor(c, dx, dy, d, e)
}

/// One tally contribution: 1 when a live cell feeds `d` through `(dx, dy)`.
pub open spec fn offset_count(live: Set<Coord>, dx: int, dy: int, d: Coord, e: Extent) -> int {
    if feeds(live, dx, dy, d, e) {
        1
    } else {
        0
    }
}

/// The live-neighbor count of `d`: one contribution for each of the nine
/// neighborhood offsets through which some live cell other than `d` reaches
/// `d`. For live sets of canonical coordinates this is exactly the tally
/// accumulated by enumerating the 3x3 block of every live cell: for a fixed
/// offset exactly one canonical source wraps onto `d`, and an offset whose
/// wrapped target is the source itself marks liveness instead of counting.
/// On a grid with width or height at most 2, several offsets wrap one live
/// cell onto the same target; each offset still counts on its own.
pub open spec fn neighbor_count(live: Set<Coord>, d: Coord, e: Extent) -> int {
    offset_count(live, -1, -1, d, e) + offset_count(live, 0, -1, d, e) + offset_count(
        live,
        1,
        -1,
        d,
        e,
    ) + offset_count(live, -1, 0, d, e) + offset_count(live, 0, 0, d, e) + offset_count(
        live,
        1,
        0,
        d,
        e,
    ) + offset_count(live, -1, 1, d, e) + offset_count(live, 0, 1, d, e) + offset_count(
        live,
        1,
        1,
        d,
        e,
    )
}

/// The survival/birth rule (B3/S23): `d` is live in the next generation
/// exactly when it is a canonical cell and either it is currently live with
/// exactly two live neighbors, or it has exactly three live neighbors.
pub open spec fn next_live(live: Set<Coord>, e: Extent, d: Coord) -> bool {
    in_extent(d, e) && ((live.contains(d) && neighbor_count(live, d, e) == 2) || neighbor_count(
        live,
        d,
        e,
    ) == 3)
}

/// The whole next generation: the set of cells that the rule keeps or
/// brings alive.
pub open spec fn next_gen(live: Set<Coord>, e: Extent) -> Set<Coord> {
    Set::new(|d: Coord| next_live(live, e, d))
}

/// For a fixed offset, a canonical cell that wraps onto `d` is determined:
/// it is the cell reached by stepping backwards from `d` and wrapping.
pub proof fn lemma_source_unique(c: Coord, dx: int, dy: int, d: Coord, e: Extent)
    requires
        extent_wf(e),
        in_extent(c, e),
        is_wrapped_neighbor(c, dx, dy, d, e),
    ensures
        c.x == wrapped(d.x - dx, e.width as int),
        c.y == wrapped(d.y - dy, e.height as int),
{
    lemma_wrapped_add(c.x + dx, -dx, e.width as int);
    lemma_wrapped_identity(c.x as int, e.width as int);
    lemma_wrapped_add(c.y + dy, -dy, e.height as int);
    lemma_wrapped_identity(c.y as int, e.height as int);
}

/// Stepping backwards from a canonical `d` by an offset and wrapping yields
/// a cell that wraps onto `d` under that offset.
pub proof fn lemma_source_roundtrip(s: Coord, dx: int, dy: int, d: Coord, e: Extent)
    requires
        extent_wf(e),
        in_extent(d, e),
        s.x == wrapped(d.x - dx, e.width as int),
        s.y == wrapped(d.y - dy, e.height as int),
    ensures
        is_wrapped_neighbor(s, dx, dy, d, e),
{
    lemma_wrapped_add(d.x - dx, dx, e.width as int);
    lemma_wrapped_identity(d.x as int, e.width as int);
    lemma_wrapped_add(d.y - dy, dy, e.height as int);
    lemma_wrapped_identity(d.y as int, e.height as int);
}

/// Over a valid live sequence, `d` is fed through `(dx, dy)` exactly when
/// the unique backward source `s` of `d` under that offset is live and
/// differs from `d`.
pub proof fn lemma_feeds_iff_source(
    live: Seq<Coord>,
    s: Coord,
    dx: int,
    dy: int,
    d: Coord,
    e: Extent,
)
    requires
        extent_wf(e),
        in_extent(d, e),
        valid_live(live, e),
        s.x == wrapped(d.x - dx, e.width as int),
        s.y == wrapped(d.y - dy, e.height as int),
    ensures
        feeds(live.to_set(), dx, dy, d, e) <==> (live.contains(s) && s != d),
{
    if live.contains(s) && s != d {
        lemma_source_roundtrip(s, dx, dy, d, e);
        assert(live.to_set().contains(s));
        assert(feeds(live.to_set(), dx, dy, d, e));
    }
    if feeds(live.to_set(), dx, dy, d, e) {
        let c = choose|c: Coord|
            live.to_set().contains(c) && c != d && is_wrapped_neighbor(c, dx, dy, d, e);
        assert(live.contains(c));
        let i = choose|i: int| 0 <= i < live.len() && live[i] == c;
        assert(in_extent(live[i], e));
        lemma_source_unique(c, dx, dy, d, e);
        assert(c == s);
    }
}

/// The cell `c` moved by `(tx, ty)` on the torus: both coordinates are
/// offset and wrapped back into the canonical range.
pub open spec fn translate_cell(c: Coord, tx: int, ty: int, e: Extent) -> Coord {
    Coord {
        x: wrapped(c.x + tx, e.width as int) as i32,
        y: wrapped(c.y + ty, e.height as int) as i32,
    }
}

/// The whole live set moved by `(tx, ty)` on the torus.
pub open spec fn translate_set(s: Set<Coord>, tx: int, ty: int, e: Extent) -> Set<Coord> {
    Set::new(|d: Coord| exists|c: Coord| s.contains(c) && d == translate_cell(c, tx, ty, e))
}

/// The unique canonical cell that wraps onto `d` under offset `(dx, dy)`:
/// the cell reached by stepping backwards from `d` and wrapping.
pub open spec fn backward_source(d: Coord, dx: int, dy: int, e: Extent) -> Coord {
    Coord {
        x: wrapped(d.x - dx, e.width as int) as i32,
        y: wrapped(d.y - dy, e.height as int) as i32,
    }
}

/// Over a live set of canonical cells, `d` is fed through `(dx, dy)`
/// exactly when the backward source of `d` under that offset is live and
/// differs from `d`.
pub proof fn lemma_feeds_iff_backward_source(
    live: Set<Coord>,
    dx: int,
    dy: int,
    d: Coord,
    e: Extent,
)
    requires
        extent_wf(e),
        in_extent(d, e),
        forall|c: Coord| live.contains(c) ==> in_extent(c, e),
    ensures
        backward_source(d, dx, dy, e).x == wrapped(d.x - dx, e.width as int),
        backward_source(d, dx, dy, e).y == wrapped(d.y - dy, e.height as int),
        in_extent(backward_source(d, dx, dy, e), e),
        feeds(live, dx, dy, d, e) <==> (live.contains(backward_source(d, dx, dy, e))
            && backward_source(d, dx, dy, e) != d),
{
    let w = e.width as int;
    let h = e.height as int;
    lemma_wrapped_is_mod(d.x - dx, w);
    lemma_wrapped_is_mod(d.y - dy, h);
    let s = backward_source(d, dx, dy, e);
    assert(s.x == wrapped(d.x - dx, w));
    assert(s.y == wrapped(d.y - dy, h));
    if live.contains(s) && s != d {
        lemma_source_roundtrip(s, dx, dy, d, e);
        assert(feeds(live, dx, dy, d, e));
    }
    if feeds(live, dx, dy, d, e) {
        let c = choose|c: Coord| live.contains(c) && c != d && is_wrapped_neighbor(c, dx, dy, d, e);
        lemma_source_unique(c, dx, dy, d, e);
        assert(c == s);
    }
}

/// A cell fed through one offset lies in the wrapped neighborhood of some
/// cell of the live sequence.
proof fn lemma_feed_gives_candidate(live: Seq<Coord>, dx: int, dy: int, d: Coord, e: Extent)
    requires
        small_offset(dx, dy),
        feeds(live.to_set(), dx, dy, d, e),
    ensures
        exists|i: int, dx2: int, dy2: int|
            0 <= i < live.len() && small_offset(dx2, dy2) && #[trigger] is_wrapped_neighbor(
                live[i],
                dx2,
                dy2,
                d,
                e,
            ),
{
    let c = choose|c: Coord|
        live.to_set().contains(c) && c != d && is_wrapped_neighbor(c, dx, dy, d, e);
    let i = choose|i: int| 0 <= i < live.len() && live[i] == c;
    assert(is_wrapped_neighbor(live[i], dx, dy, d, e));
}

/// Every cell that is live in the next generation lies in the wrapped 3x3
/// neighborhood of some currently live cell: a live survivor is in its own
/// neighborhood through the centre offset, and a cell with a positive
/// neighbor count is reached by a live cell through some offset.
pub proof fn lemma_next_live_is_candidate(live: Seq<Coord>, e: Extent, d: Coord)
    requires
        extent_wf(e),
        valid_live(live, e),
        next_live(live.to_set(), e, d),
    ensures
        exists|i: int, dx: int, dy: int|
            0 <= i < live.len() && small_offset(dx, dy) && #[trigger] is_wrapped_neighbor(
                live[i],
                dx,
                dy,
                d,
                e,
            ),
{
    let ls = live.to_set();
    if ls.contains(d) {
        let i = choose|i: int| 0 <= i < live.len() && live[i] == d;
        lemma_wrapped_identity(d.x as int, e.width as int);
        lemma_wrapped_identity(d.y as int, e.height as int);
        assert(is_wrapped_neighbor(live[i], 0, 0, d, e));
    } else {
        if feeds(ls, -1, -1, d, e) {
            lemma_feed_gives_candidate(live, -1, -1, d, e);
        } else if feeds(ls, 0, -1, d, e) {
            lemma_feed_gives_candidate(live, 0, -1, d, e);
        } else if feeds(ls, 1, -1, d, e) {
            lemma_feed_gives_candidate(live, 1, -1, d, e);
        } else if feeds(ls, -1, 0, d, e) {
            lemma_feed_gives_candidate(live, -1, 0, d, e);
        } else if feeds(ls, 0, 0, d, e) {
            lemma_feed_gives_candidate(live, 0, 0, d, e);
        } else if feeds(ls, -1, 1, d, e) {
            lemma_feed_gives_candidate(live, -1, 1, d, e);
        } else if feeds(ls, 0, 1, d, e) {
            lemma_feed_gives_candidate(live, 0, 1, d, e);
        } else if feeds(ls, 1, 1, d, e) {
            lemma_feed_gives_candidate(live, 1, 1, d, e);
        } else {
            assert(feeds(ls, 1, 0, d, e));
            lemma_feed_gives_candidate(live, 1, 0, d, e);
        }
    }
}

} // verus!
