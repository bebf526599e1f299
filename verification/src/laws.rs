//! The two global guarantees of the partition engine, proved over the leaf
//! rectangles a tree produces: they cover the starting rectangle's area
//! exactly, and distinct rectangles never overlap.

use crate::instruction::{instr_wf, leaf_zones, leaf_zones_from, ratios_of, InstrView, NodeView};
use crate::ratio::lemma_sum_take_succ;
use crate::zone::{
    axis_extent, axis_origin, child_offset, child_zone, in_zone, lemma_child_zones,
    split_extents, splittable, zone_contained, zone_fits, zones_disjoint, Direction, Zone,
};
use vstd::prelude::*;

verus! {

/// The area of one rectangle.
pub open spec fn zone_area(z: Zone) -> int {
    z.width * z.height
}

/// The combined area of a sequence of rectangles.
pub open spec fn area_sum(s: Seq<Zone>) -> int
    decreases s.len(),
{
    if s.len() == 0 {
        0
    } else {
        area_sum(s.drop_last()) + zone_area(s.last())
    }
}

/// The rectangle's extent across the split axis.
pub open spec fn perp_extent(z: Zone, d: Direction) -> int {
    match d {
        Direction::Horizontal => z.height as int,
        Direction::Vertical => z.width as int,
    }
}

proof fn lemma_area_sum_concat(a: Seq<Zone>, b: Seq<Zone>)
    ensures
        area_sum(a + b) == area_sum(a) + area_sum(b),
    decreases b.len(),
{
    if b.len() == 0 {
        assert(a + b =~= a);
    } else {
        lemma_area_sum_concat(a, b.drop_last());
        assert((a + b).drop_last() =~= a + b.drop_last());
    }
}

proof fn lemma_tiling_from(children: Seq<NodeView>, z: Zone, d: Direction, j: int)
    requires
        splittable(ratios_of(children)),
        forall|i: int| 0 <= i < children.len() ==> instr_wf(#[trigger] children[i].instruction),
        zone_fits(z),
        0 <= j <= children.len(),
    ensures
        area_sum(leaf_zones_from(children, z, d, j)) == perp_extent(z, d) * (axis_extent(z, d)
            - child_offset(z, ratios_of(children), d, j)),
    decreases children, (if j < children.len() { children.len() + 1 - j } else { 1 }),
{
    let rs = ratios_of(children);
    let ext = split_extents(z, rs, d);
    lemma_child_zones(z, rs, d);
    if j == children.len() {
        assert(ext.take(j) =~= ext);
        assert(leaf_zones_from(children, z, d, j) =~= Seq::<Zone>::empty());
        assert(perp_extent(z, d) * 0 == 0) by (nonlinear_arith);
    } else {
        let c = child_zone(z, rs, d, j);
        let lz = leaf_zones(children[j].instruction, c);
        lemma_tiling_complete(children[j].instruction, c);
        lemma_tiling_from(children, z, d, j + 1);
        lemma_area_sum_concat(lz, leaf_zones_from(children, z, d, j + 1));
        lemma_sum_take_succ(ext, j);
        assert(zone_area(c) == perp_extent(z, d) * ext[j]) by {
            assert(axis_extent(c, d) == ext[j]);
            match d {
                Direction::Horizontal => {
                    assert(c.height == z.height);
                    assert(zone_area(c) == c.width * c.height);
                    assert(c.width as int * c.height as int == c.height as int * c.width as int)
                        by (nonlinear_arith);
                },
                Direction::Vertical => {
                    assert(c.width == z.width);
                },
            }
        }
        assert(perp_extent(z, d) * ext[j] + perp_extent(z, d) * (axis_extent(z, d)
            - child_offset(z, rs, d, j + 1)) == perp_extent(z, d) * (axis_extent(z, d)
            - child_offset(z, rs, d, j))) by (nonlinear_arith)
            requires
                child_offset(z, rs, d, j + 1) == child_offset(z, rs, d, j) + ext[j],
        ;
    }
}

/// Tiling completeness: the leaf rectangles of a well-formed tree, taken in
/// traversal order and before duplicates collapse, cover the area of the
/// starting rectangle exactly.
pub proof fn lemma_tiling_complete(t: InstrView, z: Zone)
    requires
        instr_wf(t),
        zone_fits(z),
    ensures
        area_sum(leaf_zones(t, z)) == zone_area(z),
    decreases t, 0nat,
{
    match t {
        InstrView::Leaf => {
            assert(seq![z].drop_last() =~= Seq::<Zone>::empty());
            assert(area_sum(Seq::<Zone>::empty()) == 0);
        },
        InstrView::Split { direction, children } => {
            let rs = ratios_of(children);
            lemma_tiling_from(children, z, direction, 0);
            assert(split_extents(z, rs, direction).take(0) =~= Seq::<int>::empty());
            assert(perp_extent(z, direction) * (axis_extent(z, direction) - 0) == zone_area(z))
                by (nonlinear_arith)
                requires
                    perp_extent(z, direction) * (axis_extent(z, direction) - 0) == perp_extent(
                        z,
                        direction,
                    ) * axis_extent(z, direction),
                    match direction {
                        Direction::Horizontal => perp_extent(z, direction) == z.height as int
                            && axis_extent(z, direction) == z.width as int,
                        Direction::Vertical => perp_extent(z, direction) == z.width as int
                            && axis_extent(z, direction) == z.height as int,
                    },
                    zone_area(z) == z.width as int * z.height as int,
            ;
        },
    }
}

proof fn lemma_from_contained(children: Seq<NodeView>, z: Zone, d: Direction, j: int, k: int)
    requires
        splittable(ratios_of(children)),
        forall|i: int| 0 <= i < children.len() ==> instr_wf(#[trigger] children[i].instruction),
        zone_fits(z),
        0 <= j <= children.len(),
        0 <= k < leaf_zones_from(children, z, d, j).len(),
    ensures
        zone_contained(leaf_zones_from(children, z, d, j)[k], z),
        axis_origin(leaf_zones_from(children, z, d, j)[k], d) >= axis_origin(z, d) + child_offset(
            z,
            ratios_of(children),
            d,
            j,
        ),
    decreases children, (if j < children.len() { children.len() + 1 - j } else { 1 }),
{
    let rs = ratios_of(children);
    let ext = split_extents(z, rs, d);
    lemma_child_zones(z, rs, d);
    let c = child_zone(z, rs, d, j);
    let lz = leaf_zones(children[j].instruction, c);
    let w = leaf_zones_from(children, z, d, j)[k];
    if k < lz.len() {
        assert(w == lz[k]);
        lemma_leaf_contained(children[j].instruction, c, k);
        assert(zone_contained(w, c));
        assert(axis_origin(c, d) == axis_origin(z, d) + child_offset(z, rs, d, j));
        match d {
            Direction::Horizontal => {
                assert(axis_origin(w, d) == w.x as int);
            },
            Direction::Vertical => {},
        }
    } else {
        assert(w == leaf_zones_from(children, z, d, j + 1)[k - lz.len()]);
        lemma_from_contained(children, z, d, j + 1, k - lz.len());
        lemma_sum_take_succ(ext, j);
    }
}

proof fn lemma_leaf_contained(t: InstrView, z: Zone, k: int)
    requires
        instr_wf(t),
        zone_fits(z),
        0 <= k < leaf_zones(t, z).len(),
    ensures
        zone_contained(leaf_zones(t, z)[k], z),
    decreases t, 0nat,
{
    match t {
        InstrView::Leaf => {},
        InstrView::Split { direction, children } => {
            lemma_from_contained(children, z, direction, 0, k);
        },
    }
}

proof fn lemma_from_disjoint(children: Seq<NodeView>, z: Zone, d: Direction, j: int, p: int, q: int)
    requires
        splittable(ratios_of(children)),
        forall|i: int| 0 <= i < children.len() ==> instr_wf(#[trigger] children[i].instruction),
        zone_fits(z),
        0 <= j <= children.len(),
        0 <= p < q < leaf_zones_from(children, z, d, j).len(),
    ensures
        leaf_zones_from(children, z, d, j)[p] == leaf_zones_from(children, z, d, j)[q]
            || zones_disjoint(
            leaf_zones_from(children, z, d, j)[p],
            leaf_zones_from(children, z, d, j)[q],
        ),
    decreases children, (if j < children.len() { children.len() + 1 - j } else { 1 }),
{
    let rs = ratios_of(children);
    let ext = split_extents(z, rs, d);
    lemma_child_zones(z, rs, d);
    let c = child_zone(z, rs, d, j);
    let lz = leaf_zones(children[j].instruction, c);
    let a = leaf_zones_from(children, z, d, j)[p];
    let b = leaf_zones_from(children, z, d, j)[q];
    if q < lz.len() {
        lemma_partition_pairs(children[j].instruction, c, p, q);
    } else if p >= lz.len() {
        lemma_from_disjoint(children, z, d, j + 1, p - lz.len(), q - lz.len());
    } else {
        lemma_leaf_contained(children[j].instruction, c, p);
        lemma_from_contained(children, z, d, j + 1, q - lz.len());
        lemma_sum_take_succ(ext, j);
        assert(zone_contained(a, c));
        assert(axis_origin(b, d) >= axis_origin(z, d) + child_offset(z, rs, d, j) + ext[j]);
        assert forall|px: int, py: int| !(in_zone(a, px, py) && #[trigger] in_zone(b, px, py)) by {
            if in_zone(a, px, py) && in_zone(b, px, py) {
                match d {
                    Direction::Horizontal => {
                        assert(px < a.x + a.width);
                        assert(a.x + a.width <= c.x + c.width);
                        assert(px >= b.x);
                    },
                    Direction::Vertical => {
                        assert(py < a.y + a.height);
                        assert(a.y + a.height <= c.y + c.height);
                        assert(py >= b.y);
                    },
                }
            }
        }
    }
}

/// Any two leaf rectangles at distinct positions of the traversal are equal
/// or share no point.
pub proof fn lemma_partition_pairs(t: InstrView, z: Zone, p: int, q: int)
    requires
        instr_wf(t),
        zone_fits(z),
        0 <= p < q < leaf_zones(t, z).len(),
    ensures
        leaf_zones(t, z)[p] == leaf_zones(t, z)[q] || zones_disjoint(
            leaf_zones(t, z)[p],
            leaf_zones(t, z)[q],
        ),
    decreases t, 0nat,
{
    match t {
        InstrView::Leaf => {},
        InstrView::Split { direction, children } => {
            lemma_from_disjoint(children, z, direction, 0, p, q);
        },
    }
}

/// Non-overlap: two distinct rectangles produced by one partition of a
/// well-formed tree share no point of their half-open boxes; in particular
/// their interiors do not intersect.
pub proof fn lemma_partition_no_overlap(t: InstrView, z: Zone, a: Zone, b: Zone)
    requires
        instr_wf(t),
        zone_fits(z),
        leaf_zones(t, z).contains(a),
        leaf_zones(t, z).contains(b),
        a != b,
    ensures
        zones_disjoint(a, b),
{
    let s = leaf_zones(t, z);
    let p = choose|p: int| 0 <= p < s.len() && s[p] == a;
    let q = choose|q: int| 0 <= q < s.len() && s[q] == b;
    if p < q {
        lemma_partition_pairs(t, z, p, q);
    } else {
        lemma_partition_pairs(t, z, q, p);
        assert forall|px: int, py: int| !(in_zone(a, px, py) && #[trigger] in_zone(b, px, py)) by {
            assert(!(in_zone(b, px, py) && in_zone(a, px, py)));
        }
    }
}

} // verus!
