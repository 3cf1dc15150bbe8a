//! Properties of the generation rule itself: what holds of `next_gen` for
//! every input it speaks of, proved once and for all.

use crate::model::extent_wf;
use crate::model::feeds;
use crate::model::in_extent;
use crate::model::is_wrapped_neighbor;
use crate::model::lemma_feeds_iff_backward_source;
use crate::model::lemma_wrapped_add;
use crate::model::lemma_wrapped_identity;
use crate::model::lemma_wrapped_is_mod;
use crate::model::lemma_wrapped_near;
use crate::model::neighbor_count;
use crate::model::next_gen;
use crate::model::next_live;
use crate::model::translate_cell;
use crate::model::translate_set;
use crate::model::wrapped;
use crate::model::Coord;
use crate::model::Extent;
use vstd::prelude::*;

verus! {

/// No cell is live in the next generation of the empty live set.
proof fn lemma_empty_cell_dead(e: Extent, d: Coord)
    requires
        extent_wf(e),
    ensures
        !next_live(Set::<Coord>::empty(), e, d),
{
    assert forall|dx: int, dy: int| !#[trigger] feeds(Set::<Coord>::empty(), dx, dy, d, e) by {
        if feeds(Set::<Coord>::empty(), dx, dy, d, e) {
            let c = choose|c: Coord|
                Set::<Coord>::empty().contains(c) && c != d && is_wrapped_neighbor(c, dx, dy, d, e);
            assert(false);
        }
    }
    assert(neighbor_count(Set::<Coord>::empty(), d, e) == 0);
}

/// Law: no spontaneous generation. With no live cells, the next generation
/// is empty, whatever the (valid) extent.
pub proof fn lemma_empty_input(e: Extent)
    requires
        extent_wf(e),
    ensures
        next_gen(Set::<Coord>::empty(), e) == Set::<Coord>::empty(),
{
    assert forall|d: Coord| !#[trigger] next_gen(Set::<Coord>::empty(), e).contains(d) by {
        lemma_empty_cell_dead(e, d);
    }
    assert(next_gen(Set::<Coord>::empty(), e) =~= Set::<Coord>::empty());
}

/// Over the one-cell live set `{c}`, `d` is fed through `(dx, dy)` exactly
/// when `c` is not `d` and wraps onto `d` under that offset.
proof fn lemma_feeds_singleton(c: Coord, dx: int, dy: int, d: Coord, e: Extent)
    ensures
        feeds(set![c], dx, dy, d, e) <==> (c != d && d.x == wrapped(
            c.x + dx,
            e.width as int,
        ) && d.y == wrapped(c.y + dy, e.height as int)),
{
    let s: Set<Coord> = set![c];
    if c != d && is_wrapped_neighbor(c, dx, dy, d, e) {
        assert(s.contains(c));
        assert(feeds(s, dx, dy, d, e));
    }
    if feeds(s, dx, dy, d, e) {
        let c2 = choose|c2: Coord| s.contains(c2) && c2 != d && is_wrapped_neighbor(c2, dx, dy, d, e);
        assert(c2 == c);
    }
}

/// An isolated live cell leaves no cell live in the next generation, away
/// from the degenerate strip extents.
proof fn lemma_lone_cell_dead(c: Coord, e: Extent, d: Coord)
    requires
        extent_wf(e),
        in_extent(c, e),
        !(e.width == 1 && e.height >= 3),
        !(e.height == 1 && e.width >= 3),
    ensures
        !next_live(set![c], e, d),
{
    let s: Set<Coord> = set![c];
    if in_extent(d, e) {
        let w = e.width as int;
        let h = e.height as int;
        lemma_feeds_singleton(c, -1, -1, d, e);
        lemma_feeds_singleton(c, 0, -1, d, e);
        lemma_feeds_singleton(c, 1, -1, d, e);
        lemma_feeds_singleton(c, -1, 0, d, e);
        lemma_feeds_singleton(c, 0, 0, d, e);
        lemma_feeds_singleton(c, 1, 0, d, e);
        lemma_feeds_singleton(c, -1, 1, d, e);
        lemma_feeds_singleton(c, 0, 1, d, e);
        lemma_feeds_singleton(c, 1, 1, d, e);
        lemma_wrapped_near(c.x - 1, w);
        lemma_wrapped_identity(c.x as int, w);
        lemma_wrapped_near(c.x + 1, w);
        lemma_wrapped_near(c.y - 1, h);
        lemma_wrapped_identity(c.y as int, h);
        lemma_wrapped_near(c.y + 1, h);
        assert(s.contains(d) <==> d == c);
        if d == c {
            assert(neighbor_count(s, d, e) == 0);
        } else {
            assert(neighbor_count(s, d, e) != 2 || !s.contains(d));
            assert(neighbor_count(s, d, e) != 3);
        }
    }
}

/// Law: an isolated live cell has no live neighbor, so it dies and nothing
/// is born: the next generation of `{c}` is empty. This holds on every
/// valid extent except the degenerate strips with one dimension equal to 1
/// and the other at least 3, where three wrapped offsets of the lone cell
/// stack onto one adjacent cell and a birth does occur.
pub proof fn lemma_lone_cell_dies(c: Coord, e: Extent)
    requires
        extent_wf(e),
        in_extent(c, e),
        !(e.width == 1 && e.height >= 3),
        !(e.height == 1 && e.width >= 3),
    ensures
        next_gen(set![c], e) == Set::<Coord>::empty(),
{
    assert forall|d: Coord| !#[trigger] next_gen(set![c], e).contains(d) by {
        lemma_lone_cell_dead(c, e, d);
    }
    assert(next_gen(set![c], e) =~= Set::<Coord>::empty());
}

/// Pointwise form of the still-life law: with a one-cell margin to every
/// edge, a cell is live in the next generation of a 2x2 block exactly when
/// it is one of the four block cells.
#[verifier::rlimit(50)]
proof fn lemma_block_cell(b1: Coord, b2: Coord, b3: Coord, b4: Coord, e: Extent, d: Coord)
    requires
        extent_wf(e),
        1 <= b1.x && b1.x + 2 <= e.width - 1,
        1 <= b1.y && b1.y + 2 <= e.height - 1,
        b2.x == b1.x + 1 && b2.y == b1.y,
        b3.x == b1.x && b3.y == b1.y + 1,
        b4.x == b1.x + 1 && b4.y == b1.y + 1,
    ensures
        next_live(set![b1, b2, b3, b4], e, d) <==> set![b1, b2, b3, b4].contains(d),
{
    let s: Set<Coord> = set![b1, b2, b3, b4];
    assert(forall|c: Coord| s.contains(c) ==> in_extent(c, e));
    if in_extent(d, e) {
        let w = e.width as int;
        let h = e.height as int;
        lemma_wrapped_near(d.x - 1, w);
        lemma_wrapped_identity(d.x as int, w);
        lemma_wrapped_near(d.x + 1, w);
        lemma_wrapped_near(d.y - 1, h);
        lemma_wrapped_identity(d.y as int, h);
        lemma_wrapped_near(d.y + 1, h);
        lemma_feeds_iff_backward_source(s, -1, -1, d, e);
        lemma_feeds_iff_backward_source(s, 0, -1, d, e);
        lemma_feeds_iff_backward_source(s, 1, -1, d, e);
        lemma_feeds_iff_backward_source(s, -1, 0, d, e);
        lemma_feeds_iff_backward_source(s, 0, 0, d, e);
        lemma_feeds_iff_backward_source(s, 1, 0, d, e);
        lemma_feeds_iff_backward_source(s, -1, 1, d, e);
        lemma_feeds_iff_backward_source(s, 0, 1, d, e);
        lemma_feeds_iff_backward_source(s, 1, 1, d, e);
        if s.contains(d) {
            assert(neighbor_count(s, d, e) == 3);
        } else {
            assert(neighbor_count(s, d, e) != 3);
        }
    } else {
        assert(!s.contains(d));
    }
}

/// Law: a 2x2 block is a still life. On an extent that leaves a one-cell
/// margin between the block and every edge, the next generation of the
/// four block cells is exactly those four cells: each block cell keeps
/// three live neighbors, and no surrounding cell gathers more than two.
pub proof fn lemma_block_still_life(b1: Coord, b2: Coord, b3: Coord, b4: Coord, e: Extent)
    requires
        extent_wf(e),
        1 <= b1.x && b1.x + 2 <= e.width - 1,
        1 <= b1.y && b1.y + 2 <= e.height - 1,
        b2.x == b1.x + 1 && b2.y == b1.y,
        b3.x == b1.x && b3.y == b1.y + 1,
        b4.x == b1.x + 1 && b4.y == b1.y + 1,
    ensures
        next_gen(set![b1, b2, b3, b4], e) == set![b1, b2, b3, b4],
{
    assert forall|d: Coord|
        #[trigger] next_gen(set![b1, b2, b3, b4], e).contains(d) == set![b1, b2, b3, b4].contains(
            d,
        ) by {
        lemma_block_cell(b1, b2, b3, b4, e, d);
    }
    assert(next_gen(set![b1, b2, b3, b4], e) =~= set![b1, b2, b3, b4]);
}

/// Pointwise form of one blinker half-period: a horizontal triple with a
/// one-cell margin to every edge leaves live exactly the vertical triple
/// around the same centre.
#[verifier::rlimit(50)]
proof fn lemma_blinker_h2v(a: Coord, m: Coord, b: Coord, e: Extent, d: Coord)
    requires
        extent_wf(e),
        2 <= m.x && m.x + 1 <= e.width - 2,
        1 <= m.y && m.y <= e.height - 2,
        a.x == m.x - 1 && a.y == m.y,
        b.x == m.x + 1 && b.y == m.y,
    ensures
        next_live(set![a, m, b], e, d) <==> (d.x == m.x && m.y - 1 <= d.y <= m.y + 1),
{
    let s: Set<Coord> = set![a, m, b];
    assert(forall|c: Coord| s.contains(c) ==> in_extent(c, e));
    if in_extent(d, e) {
        let w = e.width as int;
        let h = e.height as int;
        lemma_wrapped_near(d.x - 1, w);
        lemma_wrapped_identity(d.x as int, w);
        lemma_wrapped_near(d.x + 1, w);
        lemma_wrapped_near(d.y - 1, h);
        lemma_wrapped_identity(d.y as int, h);
        lemma_wrapped_near(d.y + 1, h);
        lemma_feeds_iff_backward_source(s, -1, -1, d, e);
        lemma_feeds_iff_backward_source(s, 0, -1, d, e);
        lemma_feeds_iff_backward_source(s, 1, -1, d, e);
        lemma_feeds_iff_backward_source(s, -1, 0, d, e);
        lemma_feeds_iff_backward_source(s, 0, 0, d, e);
        lemma_feeds_iff_backward_source(s, 1, 0, d, e);
        lemma_feeds_iff_backward_source(s, -1, 1, d, e);
        lemma_feeds_iff_backward_source(s, 0, 1, d, e);
        lemma_feeds_iff_backward_source(s, 1, 1, d, e);
        if d.x == m.x && m.y - 1 <= d.y <= m.y + 1 {
            if d == m {
                assert(s.contains(d));
                assert(neighbor_count(s, d, e) == 2);
            } else {
                assert(neighbor_count(s, d, e) == 3);
            }
        } else {
            assert(neighbor_count(s, d, e) != 3);
            assert(s.contains(d) ==> neighbor_count(s, d, e) != 2);
        }
    } else {
        assert(!(d.x == m.x && m.y - 1 <= d.y <= m.y + 1));
    }
}

/// Pointwise form of the other blinker half-period: a vertical triple with
/// a one-cell margin to every edge leaves live exactly the horizontal
/// triple around the same centre.
#[verifier::rlimit(50)]
proof fn lemma_blinker_v2h(a: Coord, m: Coord, b: Coord, e: Extent, d: Coord)
    requires
        extent_wf(e),
        1 <= m.x && m.x <= e.width - 2,
        2 <= m.y && m.y + 1 <= e.height - 2,
        a.x == m.x && a.y == m.y - 1,
        b.x == m.x && b.y == m.y + 1,
    ensures
        next_live(set![a, m, b], e, d) <==> (d.y == m.y && m.x - 1 <= d.x <= m.x + 1),
{
    let s: Set<Coord> = set![a, m, b];
    assert(forall|c: Coord| s.contains(c) ==> in_extent(c, e));
    if in_extent(d, e) {
        let w = e.width as int;
        let h = e.height as int;
        lemma_wrapped_near(d.x - 1, w);
        lemma_wrapped_identity(d.x as int, w);
        lemma_wrapped_near(d.x + 1, w);
        lemma_wrapped_near(d.y - 1, h);
        lemma_wrapped_identity(d.y as int, h);
        lemma_wrapped_near(d.y + 1, h);
        lemma_feeds_iff_backward_source(s, -1, -1, d, e);
        lemma_feeds_iff_backward_source(s, 0, -1, d, e);
        lemma_feeds_iff_backward_source(s, 1, -1, d, e);
        lemma_feeds_iff_backward_source(s, -1, 0, d, e);
        lemma_feeds_iff_backward_source(s, 0, 0, d, e);
        lemma_feeds_iff_backward_source(s, 1, 0, d, e);
        lemma_feeds_iff_backward_source(s, -1, 1, d, e);
        lemma_feeds_iff_backward_source(s, 0, 1, d, e);
        lemma_feeds_iff_backward_source(s, 1, 1, d, e);
        if d.y == m.y && m.x - 1 <= d.x <= m.x + 1 {
            if d == m {
                assert(s.contains(d));
                assert(neighbor_count(s, d, e) == 2);
            } else {
                assert(neighbor_count(s, d, e) == 3);
            }
        } else {
            assert(neighbor_count(s, d, e) != 3);
            assert(s.contains(d) ==> neighbor_count(s, d, e) != 2);
        }
    } else {
        assert(!(d.y == m.y && m.x - 1 <= d.x <= m.x + 1));
    }
}

/// Law: the blinker is a period-2 oscillator. A horizontal triple whose
/// cells and their neighborhoods keep clear of the edges becomes the
/// vertical triple around the same centre after one generation, and is back
/// to the horizontal triple after two.
pub proof fn lemma_blinker_oscillates(a: Coord, m: Coord, b: Coord, e: Extent)
    requires
        extent_wf(e),
        2 <= m.x && m.x + 1 <= e.width - 2,
        2 <= m.y && m.y + 1 <= e.height - 2,
        a.x == m.x - 1 && a.y == m.y,
        b.x == m.x + 1 && b.y == m.y,
    ensures
        next_gen(set![a, m, b], e) == set![
            Coord { x: m.x, y: (m.y - 1) as i32 },
            m,
            Coord { x: m.x, y: (m.y + 1) as i32 },
        ],
        next_gen(next_gen(set![a, m, b], e), e) == set![a, m, b],
{
    let va = Coord { x: m.x, y: (m.y - 1) as i32 };
    let vb = Coord { x: m.x, y: (m.y + 1) as i32 };
    let vertical: Set<Coord> = set![va, m, vb];
    assert forall|d: Coord|
        #[trigger] next_gen(set![a, m, b], e).contains(d) == vertical.contains(d) by {
        lemma_blinker_h2v(a, m, b, e, d);
    }
    assert(next_gen(set![a, m, b], e) =~= vertical);
    assert forall|d: Coord|
        #[trigger] next_gen(vertical, e).contains(d) == set![a, m, b].contains(d) by {
        lemma_blinker_v2h(va, m, vb, e, d);
    }
    assert(next_gen(vertical, e) =~= set![a, m, b]);
}

/// The coordinates of a translated cell, and that it is canonical.
proof fn lemma_translate_cell_coords(c: Coord, tx: int, ty: int, e: Extent)
    requires
        extent_wf(e),
    ensures
        translate_cell(c, tx, ty, e).x == wrapped(c.x + tx, e.width as int),
        translate_cell(c, tx, ty, e).y == wrapped(c.y + ty, e.height as int),
        in_extent(translate_cell(c, tx, ty, e), e),
{
    lemma_wrapped_is_mod(c.x + tx, e.width as int);
    lemma_wrapped_is_mod(c.y + ty, e.height as int);
}

/// Translating by `(tx, ty)` and back by `(-tx, -ty)` returns a canonical
/// cell to itself.
proof fn lemma_translate_cell_inverse(c: Coord, tx: int, ty: int, e: Extent)
    requires
        extent_wf(e),
        in_extent(c, e),
    ensures
        translate_cell(translate_cell(c, tx, ty, e), -tx, -ty, e) == c,
{
    let w = e.width as int;
    let h = e.height as int;
    lemma_translate_cell_coords(c, tx, ty, e);
    lemma_translate_cell_coords(translate_cell(c, tx, ty, e), -tx, -ty, e);
    lemma_wrapped_add(c.x + tx, -tx, w);
    lemma_wrapped_identity(c.x as int, w);
    lemma_wrapped_add(c.y + ty, -ty, h);
    lemma_wrapped_identity(c.y as int, h);
}

/// A translated set contains the translation of `c` exactly when the set
/// contains `c` itself (for canonical cells).
proof fn lemma_translate_member(s: Set<Coord>, c: Coord, tx: int, ty: int, e: Extent)
    requires
        extent_wf(e),
        in_extent(c, e),
        forall|q: Coord| s.contains(q) ==> in_extent(q, e),
    ensures
        translate_set(s, tx, ty, e).contains(translate_cell(c, tx, ty, e)) <==> s.contains(c),
{
    if s.contains(c) {
        assert(translate_set(s, tx, ty, e).contains(translate_cell(c, tx, ty, e)));
    }
    if translate_set(s, tx, ty, e).contains(translate_cell(c, tx, ty, e)) {
        let c0 = choose|c0: Coord|
            s.contains(c0) && translate_cell(c, tx, ty, e) == translate_cell(c0, tx, ty, e);
        lemma_translate_cell_inverse(c0, tx, ty, e);
        lemma_translate_cell_inverse(c, tx, ty, e);
        assert(c0 == c);
    }
}

/// Wrapped adjacency is invariant under translating both cells.
proof fn lemma_neighbor_translate(c: Coord, dx: int, dy: int, d: Coord, tx: int, ty: int, e: Extent)
    requires
        extent_wf(e),
        in_extent(c, e),
        in_extent(d, e),
    ensures
        is_wrapped_neighbor(
            translate_cell(c, tx, ty, e),
            dx,
            dy,
            translate_cell(d, tx, ty, e),
            e,
        ) <==> is_wrapped_neighbor(c, dx, dy, d, e),
{
    let w = e.width as int;
    let h = e.height as int;
    lemma_translate_cell_coords(c, tx, ty, e);
    lemma_translate_cell_coords(d, tx, ty, e);
    lemma_wrapped_add(c.x + tx, dx, w);
    lemma_wrapped_add(c.x + dx, tx, w);
    lemma_wrapped_add(c.x + dx + tx, -tx, w);
    lemma_wrapped_add(d.x + tx, -tx, w);
    lemma_wrapped_identity(d.x as int, w);
    lemma_wrapped_add(c.y + ty, dy, h);
    lemma_wrapped_add(c.y + dy, ty, h);
    lemma_wrapped_add(c.y + dy + ty, -ty, h);
    lemma_wrapped_add(d.y + ty, -ty, h);
    lemma_wrapped_identity(d.y as int, h);
}

/// Being fed through an offset is invariant under translating the live set
/// and the cell together.
proof fn lemma_feeds_translate(
    live: Set<Coord>,
    dx: int,
    dy: int,
    d: Coord,
    tx: int,
    ty: int,
    e: Extent,
)
    requires
        extent_wf(e),
        in_extent(d, e),
        forall|c: Coord| live.contains(c) ==> in_extent(c, e),
    ensures
        feeds(translate_set(live, tx, ty, e), dx, dy, translate_cell(d, tx, ty, e), e) <==> feeds(
            live,
            dx,
            dy,
            d,
            e,
        ),
{
    let t = translate_set(live, tx, ty, e);
    let td = translate_cell(d, tx, ty, e);
    if feeds(live, dx, dy, d, e) {
        let c = choose|c: Coord| live.contains(c) && c != d && is_wrapped_neighbor(c, dx, dy, d, e);
        let tc = translate_cell(c, tx, ty, e);
        lemma_translate_member(live, c, tx, ty, e);
        lemma_neighbor_translate(c, dx, dy, d, tx, ty, e);
        lemma_translate_cell_inverse(c, tx, ty, e);
        lemma_translate_cell_inverse(d, tx, ty, e);
        assert(tc != td);
        assert(feeds(t, dx, dy, td, e));
    }
    if feeds(t, dx, dy, td, e) {
        let c2 = choose|c2: Coord| t.contains(c2) && c2 != td && is_wrapped_neighbor(c2, dx, dy, td, e);
        let c0 = choose|c0: Coord| live.contains(c0) && c2 == translate_cell(c0, tx, ty, e);
        lemma_neighbor_translate(c0, dx, dy, d, tx, ty, e);
        assert(c0 != d);
        assert(feeds(live, dx, dy, d, e));
    }
}

/// Law: the generation rule commutes with toroidal translation. Moving the
/// whole live set by a fixed offset (with wraparound) and stepping gives
/// the same set as stepping first and then moving: the torus has no
/// distinguished cells, which is what makes "the same shape, translated"
/// meaningful for patterns such as the glider.
pub proof fn lemma_translation_equivariance(live: Set<Coord>, tx: int, ty: int, e: Extent)
    requires
        extent_wf(e),
        forall|c: Coord| live.contains(c) ==> in_extent(c, e),
    ensures
        next_gen(translate_set(live, tx, ty, e), e) == translate_set(next_gen(live, e), tx, ty, e),
{
    let t = translate_set(live, tx, ty, e);
    assert forall|d: Coord|
        #[trigger] next_gen(t, e).contains(d) == translate_set(
            next_gen(live, e),
            tx,
            ty,
            e,
        ).contains(d) by {
        if in_extent(d, e) {
            let d0 = translate_cell(d, -tx, -ty, e);
            lemma_translate_cell_coords(d, -tx, -ty, e);
            lemma_translate_cell_inverse(d, -tx, -ty, e);
            assert(translate_cell(d0, tx, ty, e) == d);
            lemma_feeds_translate(live, -1, -1, d0, tx, ty, e);
            lemma_feeds_translate(live, 0, -1, d0, tx, ty, e);
            lemma_feeds_translate(live, 1, -1, d0, tx, ty, e);
            lemma_feeds_translate(live, -1, 0, d0, tx, ty, e);
            lemma_feeds_translate(live, 0, 0, d0, tx, ty, e);
            lemma_feeds_translate(live, 1, 0, d0, tx, ty, e);
            lemma_feeds_translate(live, -1, 1, d0, tx, ty, e);
            lemma_feeds_translate(live, 0, 1, d0, tx, ty, e);
            lemma_feeds_translate(live, 1, 1, d0, tx, ty, e);
            assert(neighbor_count(t, d, e) == neighbor_count(live, d0, e));
            lemma_translate_member(live, d0, tx, ty, e);
            assert(next_live(t, e, d) == next_live(live, e, d0));
            if next_live(live, e, d0) {
                assert(next_gen(live, e).contains(d0));
                assert(translate_set(next_gen(live, e), tx, ty, e).contains(d));
            }
            if translate_set(next_gen(live, e), tx, ty, e).contains(d) {
                let q = choose|q: Coord|
                    next_gen(live, e).contains(q) && d == translate_cell(q, tx, ty, e);
                lemma_translate_cell_inverse(q, tx, ty, e);
                assert(q == d0);
            }
        } else {
            if next_gen(t, e).contains(d) {
                assert(false);
            }
            if translate_set(next_gen(live, e), tx, ty, e).contains(d) {
                let q = choose|q: Coord|
                    next_gen(live, e).contains(q) && d == translate_cell(q, tx, ty, e);
                lemma_translate_cell_coords(q, tx, ty, e);
                assert(false);
            }
        }
    }
    assert(next_gen(t, e) =~= translate_set(next_gen(live, e), tx, ty, e));
}

/// Law: the grid wraps horizontally. A live cell in the first column and a
/// live cell in the last column of the same row are horizontal neighbors of
/// each other: each reaches the other through a one-step horizontal offset
/// and so contributes to the other's live-neighbor count.
pub proof fn lemma_horizontal_wraparound(live: Set<Coord>, a: Coord, b: Coord, e: Extent)
    requires
        extent_wf(e),
        e.width >= 2,
        a.x == 0,
        b.x == e.width - 1,
        a.y == b.y,
        in_extent(a, e),
        in_extent(b, e),
        live.contains(a),
        live.contains(b),
    ensures
        feeds(live, 1, 0, a, e),
        feeds(live, -1, 0, b, e),
        neighbor_count(live, a, e) >= 1,
        neighbor_count(live, b, e) >= 1,
{
    let w = e.width as int;
    let h = e.height as int;
    lemma_wrapped_near(b.x + 1, w);
    lemma_wrapped_near(a.x - 1, w);
    lemma_wrapped_identity(a.y as int, h);
    assert(is_wrapped_neighbor(b, 1, 0, a, e));
    assert(feeds(live, 1, 0, a, e));
    assert(is_wrapped_neighbor(a, -1, 0, b, e));
    assert(feeds(live, -1, 0, b, e));
}

} // verus!

