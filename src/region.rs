//! 4-connected regions of one colour, the model of flood fill.

use vstd::prelude::*;
use crate::book::{color_at, in_bounds, paint, byte_offset, lemma_point_of_byte, lemma_pixel_in_buffer};

verus! {

/// `p` and `q` are horizontal or vertical neighbours.
pub open spec fn adjacent(p: (int, int), q: (int, int)) -> bool {
    (p.0 == q.0 && (p.1 == q.1 + 1 || q.1 == p.1 + 1)) || (p.1 == q.1 && (p.0 == q.0 + 1 || q.0 == p.0 + 1))
}

/// `p` lies in the image and has the colour `target`.
pub open spec fn has_color(px: Seq<u8>, width: int, height: int, p: (int, int), target: Seq<u8>) -> bool {
    in_bounds(width, height, p.0, p.1) && color_at(px, width, p.0, p.1) == target
}

/// A walk through neighbouring pixels that all have the colour `target`.
pub open spec fn is_walk(px: Seq<u8>, width: int, height: int, target: Seq<u8>, walk: Seq<(int, int)>) -> bool {
    &&& walk.len() > 0
    &&& forall|i: int| 0 <= i < walk.len() ==> has_color(px, width, height, #[trigger] walk[i], target)
    &&& forall|i: int| 0 <= i < walk.len() - 1 ==> adjacent(#[trigger] walk[i], walk[i + 1])
}

/// The pixels reachable from `seed` through neighbours of the colour `target`.
pub open spec fn region(px: Seq<u8>, width: int, height: int, seed: (int, int), target: Seq<u8>) -> Set<(int, int)> {
    Set::new(
        |p: (int, int)|
            exists|walk: Seq<(int, int)>|
                #[trigger] is_walk(px, width, height, target, walk) && walk[0] == seed && walk.last() == p,
    )
}

pub proof fn lemma_region_seed(px: Seq<u8>, width: int, height: int, seed: (int, int), target: Seq<u8>)
    requires
        has_color(px, width, height, seed, target),
    ensures
        region(px, width, height, seed, target).contains(seed),
{
    let walk = seq![seed];
    assert(is_walk(px, width, height, target, walk));
}

pub proof fn lemma_region_extend(px: Seq<u8>, width: int, height: int, seed: (int, int), target: Seq<u8>, p: (int, int), q: (int, int))
    requires
        region(px, width, height, seed, target).contains(p),
        adjacent(p, q),
        has_color(px, width, height, q, target),
    ensures
        region(px, width, height, seed, target).contains(q),
{
    let walk = choose|walk: Seq<(int, int)>| #[trigger] is_walk(px, width, height, target, walk) && walk[0] == seed && walk.last() == p;
    let longer = walk.push(q);
    assert forall|i: int| 0 <= i < longer.len() - 1 implies adjacent(#[trigger] longer[i], longer[i + 1]) by {
        if i < walk.len() - 1 {
            assert(longer[i] == walk[i] && longer[i + 1] == walk[i + 1]);
        }
    }
    assert forall|i: int| 0 <= i < longer.len() implies has_color(px, width, height, #[trigger] longer[i], target) by {
        if i < walk.len() {
            assert(longer[i] == walk[i]);
        }
    }
    assert(is_walk(px, width, height, target, longer));
}

/// The colour of a pixel after painting.
pub proof fn lemma_color_after_paint(px: Seq<u8>, width: int, height: int, pts: Set<(int, int)>, color: Seq<u8>, x: int, y: int)
    requires
        px.len() == width * height * 4,
        in_bounds(width, height, x, y),
        color.len() == 4,
    ensures
        color_at(paint(px, width, pts, color), width, x, y) == if pts.contains((x, y)) {
            color
        } else {
            color_at(px, width, x, y)
        },
{
    lemma_pixel_in_buffer(width, height, x, y);
    let o = byte_offset(width, x, y);
    let lhs = color_at(paint(px, width, pts, color), width, x, y);
    let painted = paint(px, width, pts, color);
    assert forall|k: int| 0 <= k < 4 implies #[trigger] lhs[k] == if pts.contains((x, y)) {
        color[k]
    } else {
        px[o + k]
    } by {
        lemma_point_of_byte(width, x, y, o + k);
        vstd::arithmetic::div_mod::lemma_fundamental_div_mod_converse(o + k, 4, y * width + x, k);
        assert(lhs[k] == painted[o + k]);
    }
    if pts.contains((x, y)) {
        assert(lhs =~= color);
    } else {
        assert(lhs =~= color_at(px, width, x, y));
    }
}

/// How many entries of `s` are false.
pub open spec fn count_false(s: Seq<bool>) -> nat
    decreases s.len(),
{
    if s.len() == 0 {
        0
    } else {
        count_false(s.drop_last()) + if s.last() {
            0nat
        } else {
            1nat
        }
    }
}

pub proof fn lemma_count_false_set(s: Seq<bool>, i: int)
    requires
        0 <= i < s.len(),
        !s[i],
    ensures
        count_false(s.update(i, true)) + 1 == count_false(s),
    decreases s.len(),
{
    if i == s.len() - 1 {
        assert(s.update(i, true).drop_last() =~= s.drop_last());
    } else {
        assert(s.update(i, true).drop_last() =~= s.drop_last().update(i, true));
        lemma_count_false_set(s.drop_last(), i);
    }
}

/// A set that holds `seed` and every same-coloured neighbour of its points
/// holds the whole region of `seed`.
pub proof fn lemma_region_closed(px: Seq<u8>, width: int, height: int, seed: (int, int), target: Seq<u8>, pts: Set<(int, int)>)
    requires
        pts.contains(seed),
        forall|p: (int, int), q: (int, int)|
            #[trigger] pts.contains(p) && #[trigger] adjacent(p, q) && has_color(px, width, height, q, target) ==> pts.contains(q),
    ensures
        region(px, width, height, seed, target).subset_of(pts),
{
    assert forall|p: (int, int)| region(px, width, height, seed, target).contains(p) implies pts.contains(p) by {
        let walk = choose|walk: Seq<(int, int)>| #[trigger] is_walk(px, width, height, target, walk) && walk[0] == seed && walk.last() == p;
        lemma_walk_inside(px, width, height, seed, target, pts, walk);
    }
}

proof fn lemma_walk_inside(px: Seq<u8>, width: int, height: int, seed: (int, int), target: Seq<u8>, pts: Set<(int, int)>, walk: Seq<(int, int)>)
    requires
        pts.contains(seed),
        forall|p: (int, int), q: (int, int)|
            #[trigger] pts.contains(p) && #[trigger] adjacent(p, q) && has_color(px, width, height, q, target) ==> pts.contains(q),
        is_walk(px, width, height, target, walk),
        walk[0] == seed,
    ensures
        pts.contains(walk.last()),
    decreases walk.len(),
{
    if walk.len() > 1 {
        let shorter = walk.drop_last();
        assert forall|i: int| 0 <= i < shorter.len() - 1 implies adjacent(#[trigger] shorter[i], shorter[i + 1]) by {
            assert(adjacent(walk[i], walk[i + 1]));
        }
        assert forall|i: int| 0 <= i < shorter.len() implies has_color(px, width, height, #[trigger] shorter[i], target) by {
            assert(has_color(px, width, height, walk[i], target));
        }
        lemma_walk_inside(px, width, height, seed, target, pts, shorter);
        assert(adjacent(walk[walk.len() - 2], walk[walk.len() - 1]));
        assert(has_color(px, width, height, walk[walk.len() - 1], target));
    }
}

} // verus!
