//! Rectangles on the canvas and the proportional subdivision of one
//! rectangle along an axis.

use crate::ratio::{
    extents_of, floor_share, lemma_extents, lemma_max_scale, lemma_pow10_le, lemma_pow10_pos,
    lemma_sum_nonneg, lemma_sum_take_le, lemma_sum_take_succ, max_scale, pow10, pow10_u64,
    ratio_wf, rem_of, shares_of, sum_of, total_weight, weights_of, Ratio, MAX_SCALE, RATIO_CAP,
};
use vstd::arithmetic::mul::{lemma_mul_nonnegative, lemma_mul_upper_bound};
use vstd::prelude::*;

verus! {

/// An axis-aligned rectangle: origin and extents, in canvas units.
///
/// Equality is field-by-field; the partition engine collapses bit-identical
/// rectangles into one entry.
#[derive(Debug, Clone, Copy, PartialEq, Eq, Hash, Structural)]
pub struct Zone {
    pub x: u8,
    pub y: u8,
    pub width: u8,
    pub height: u8,
}

/// The axis along which a rectangle is subdivided.
#[derive(Debug, Copy, Clone, PartialEq, Eq, Structural)]
pub enum Direction {
    Horizontal,
    Vertical,
}

/// The rectangle's far edges stay representable: subdivision never needs
/// coordinates past these bounds.
pub open spec fn zone_fits(z: Zone) -> bool {
    &&& z.x + z.width <= 255
    &&& z.y + z.height <= 255
}

/// Every ratio well formed and their combined weight positive: what a split
/// needs to be divided at all.
pub open spec fn splittable(rs: Seq<Ratio>) -> bool {
    &&& forall|i: int| 0 <= i < rs.len() ==> ratio_wf(#[trigger] rs[i])
    &&& total_weight(rs) > 0
}

/// The rectangle's extent along the split axis.
pub open spec fn axis_extent(z: Zone, d: Direction) -> int {
    match d {
        Direction::Horizontal => z.width as int,
        Direction::Vertical => z.height as int,
    }
}

/// The rectangle's origin along the split axis.
pub open spec fn axis_origin(z: Zone, d: Direction) -> int {
    match d {
        Direction::Horizontal => z.x as int,
        Direction::Vertical => z.y as int,
    }
}

/// The integer extents the children of a split receive, in child order.
pub open spec fn split_extents(z: Zone, rs: Seq<Ratio>, d: Direction) -> Seq<int> {
    extents_of(axis_extent(z, d), weights_of(rs))
}

/// Where child `i` starts along the split axis, relative to the rectangle's
/// own origin on that axis: the children lie adjacently, in order.
pub open spec fn child_offset(z: Zone, rs: Seq<Ratio>, d: Direction, i: int) -> int {
    sum_of(split_extents(z, rs, d).take(i))
}

/// The rectangle child `i` of a split receives.
pub open spec fn child_zone(z: Zone, rs: Seq<Ratio>, d: Direction, i: int) -> Zone {
    let e = split_extents(z, rs, d)[i];
    let off = child_offset(z, rs, d, i);
    match d {
        Direction::Horizontal => Zone {
            x: (z.x + off) as u8,
            y: z.y,
            width: e as u8,
            height: z.height,
        },
        Direction::Vertical => Zone {
            x: z.x,
            y: (z.y + off) as u8,
            width: z.width,
            height: e as u8,
        },
    }
}

/// Membership of an integer point in the half-open box of a rectangle.
pub open spec fn in_zone(z: Zone, px: int, py: int) -> bool {
    &&& z.x <= px < z.x + z.width
    &&& z.y <= py < z.y + z.height
}

/// No integer point lies in both rectangles.
pub open spec fn zones_disjoint(a: Zone, b: Zone) -> bool {
    forall|px: int, py: int| !(in_zone(a, px, py) && #[trigger] in_zone(b, px, py))
}

/// The box of `a` lies inside the box of `b`.
pub open spec fn zone_contained(a: Zone, b: Zone) -> bool {
    &&& b.x <= a.x
    &&& a.x + a.width <= b.x + b.width
    &&& b.y <= a.y
    &&& a.y + a.height <= b.y + b.height
}

pub proof fn lemma_weights_nonneg(rs: Seq<Ratio>)
    ensures
        forall|i: int| 0 <= i < rs.len() ==> #[trigger] weights_of(rs)[i] >= 0,
{
    assert forall|i: int| 0 <= i < rs.len() implies #[trigger] weights_of(rs)[i] >= 0 by {
        lemma_mul_nonnegative(rs[i].num as int, pow10((max_scale(rs) - rs[i].scale) as nat) as int);
    }
}

/// Geometry of a split: the children's extents sum to the parent's extent,
/// and every child rectangle fits, lies inside the parent, and keeps the
/// parent's origin and extent on the perpendicular axis.
pub proof fn lemma_child_zones(z: Zone, rs: Seq<Ratio>, d: Direction)
    requires
        splittable(rs),
        zone_fits(z),
    ensures
        split_extents(z, rs, d).len() == rs.len(),
        sum_of(split_extents(z, rs, d)) == axis_extent(z, d),
        forall|i: int|
            0 <= i < rs.len() ==> 0 <= #[trigger] split_extents(z, rs, d)[i] <= axis_extent(z, d),
        forall|i: int|
            0 <= i < rs.len() ==> 0 <= #[trigger] child_offset(z, rs, d, i) && child_offset(
                z,
                rs,
                d,
                i,
            ) + split_extents(z, rs, d)[i] <= axis_extent(z, d),
        forall|i: int|
            0 <= i < rs.len() ==> {
                let c = #[trigger] child_zone(z, rs, d, i);
                &&& zone_fits(c)
                &&& zone_contained(c, z)
                &&& axis_origin(c, d) == axis_origin(z, d) + child_offset(z, rs, d, i)
                &&& axis_extent(c, d) == split_extents(z, rs, d)[i]
            },
{
    let size = axis_extent(z, d);
    let ws = weights_of(rs);
    let ext = split_extents(z, rs, d);
    lemma_weights_nonneg(rs);
    lemma_extents(size, ws);
    assert forall|i: int|
        0 <= i < rs.len() implies 0 <= #[trigger] child_offset(z, rs, d, i) && child_offset(
        z,
        rs,
        d,
        i,
    ) + ext[i] <= size by {
        assert(forall|j: int| 0 <= j < ext.take(i).len() ==> #[trigger] ext.take(i)[j] >= 0);
        lemma_sum_nonneg(ext.take(i));
        lemma_sum_take_succ(ext, i);
        lemma_sum_take_le(ext, i + 1);
    }
}

/// Whether these ratios can divide an extent at all: each one in
/// representable range, and their combined weight positive. An all-zero
/// list of ratios is refused here; `Zone::slice` requires this check.
#[verifier::loop_isolation(false)]
pub fn splittable_check(divisions: &[Ratio]) -> (b: bool)
    ensures
        b == splittable(divisions@),
{
    let ghost rs = divisions@;
    let n = divisions.len();
    let mut i: usize = 0;
    while i < n
        invariant
            i <= n,
            forall|j: int| 0 <= j < i ==> ratio_wf(#[trigger] rs[j]),
        decreases n - i,
    {
        let d = divisions[i];
        if !(d.num < RATIO_CAP && d.scale <= MAX_SCALE) {
            return false;
        }
        i += 1;
    }
    proof {
        lemma_max_scale(rs);
        lemma_weights_nonneg(rs);
    }
    let mut ms: u8 = 0;
    i = 0;
    while i < n
        invariant
            i <= n,
            ms as int == max_scale(rs.take(i as int)),
            ms <= MAX_SCALE,
        decreases n - i,
    {
        proof {
            assert(rs.take(i + 1).drop_last() =~= rs.take(i as int));
            lemma_max_scale(rs.take(i + 1));
        }
        if divisions[i].scale > ms {
            ms = divisions[i].scale;
        }
        i += 1;
    }
    proof {
        assert(rs.take(n as int) =~= rs);
    }
    let ghost wseq = weights_of(rs);
    let mut total: u128 = 0;
    i = 0;
    while i < n
        invariant
            i <= n,
            ms as int == max_scale(rs),
            total as int == sum_of(wseq.take(i as int)),
            total <= (i as int) * 0xffff_ffff_ffff_ffffu64 as int,
        decreases n - i,
    {
        let d = divisions[i];
        proof {
            assert(rs[i as int].scale as int <= ms);
            lemma_pow10_le(((ms - d.scale) as u8) as nat, 5);
            lemma_pow10_pos(5);
            reveal_with_fuel(pow10, 6);
            assert(pow10(5) == 100000);
            lemma_mul_upper_bound(
                d.num as int,
                RATIO_CAP as int - 1,
                pow10((ms - d.scale) as nat) as int,
                100000,
            );
            lemma_sum_take_succ(wseq, i as int);
            assert((i + 1) * 0xffff_ffff_ffff_ffffu64 as int == i * 0xffff_ffff_ffff_ffffu64
                as int + 0xffff_ffff_ffff_ffffu64 as int) by (nonlinear_arith);
        }
        let p = pow10_u64(ms - d.scale);
        let w = d.num * p;
        total = total + w as u128;
        i += 1;
    }
    proof {
        assert(wseq.take(n as int) =~= wseq);
    }
    total > 0
}

impl Zone {
    /// The whole canvas: the fixed 100 x 100 root rectangle.
    pub fn full() -> (z: Zone)
        ensures
            z == (Zone { x: 0u8, y: 0u8, width: 100u8, height: 100u8 }),
    {
        Zone { x: 0, y: 0, width: 100, height: 100 }
    }

    /// Divides this rectangle along `direction` into one adjacent piece per
    /// ratio, proportionally, flooring each share and handing the lost units
    /// to the first children in list order.
    #[verifier::loop_isolation(false)]
    pub fn slice(&self, divisions: &[Ratio], direction: Direction) -> (r: Vec<Zone>)
        requires
            splittable(divisions@),
            zone_fits(*self),
        ensures
            r@.len() == divisions@.len(),
            forall|i: int|
                0 <= i < r@.len() ==> r@[i] == child_zone(*self, divisions@, direction, i),
    {
        let ghost rs = divisions@;
        proof {
            lemma_max_scale(rs);
            lemma_weights_nonneg(rs);
        }
        let n = divisions.len();

        let mut ms: u8 = 0;
        let mut i: usize = 0;
        while i < n
            invariant
                i <= n,
                n == rs.len(),
                divisions@ == rs,
                ms as int == max_scale(rs.take(i as int)),
                ms <= MAX_SCALE,
                forall|j: int| 0 <= j < rs.len() ==> ratio_wf(#[trigger] rs[j]),
            decreases n - i,
        {
            proof {
                assert(rs.take(i + 1).drop_last() =~= rs.take(i as int));
                lemma_max_scale(rs.take(i + 1));
            }
            if divisions[i].scale > ms {
                ms = divisions[i].scale;
            }
            i += 1;
        }
        proof {
            assert(rs.take(n as int) =~= rs);
        }

        let ghost wseq = weights_of(rs);
        let mut weights: Vec<u64> = Vec::new();
        i = 0;
        while i < n
            invariant
                i <= n,
                n == rs.len(),
                divisions@ == rs,
                ms as int == max_scale(rs),
                ms <= MAX_SCALE,
                forall|j: int| 0 <= j < rs.len() ==> ratio_wf(#[trigger] rs[j]),
                weights@.len() == i,
                wseq == weights_of(rs),
                forall|j: int| 0 <= j < i ==> #[trigger] weights@[j] as int == wseq[j],
            decreases n - i,
        {
            let d = divisions[i];
            proof {
                lemma_max_scale(rs);
                assert(rs[i as int].scale as int <= ms);
                lemma_pow10_le(((ms - d.scale) as u8) as nat, 5);
                lemma_pow10_pos(5);
                reveal_with_fuel(pow10, 6);
                assert(pow10(5) == 100000);
                lemma_mul_upper_bound(
                    d.num as int,
                    RATIO_CAP as int - 1,
                    pow10((ms - d.scale) as nat) as int,
                    100000,
                );
            }
            let p = pow10_u64(ms - d.scale);
            let w = d.num * p;
            weights.push(w);
            i += 1;
        }

        let mut total: u128 = 0;
        i = 0;
        while i < n
            invariant
                i <= n,
                n == rs.len(),
                weights@.len() == n,
                forall|j: int| 0 <= j < n ==> #[trigger] weights@[j] as int == wseq[j],
                total as int == sum_of(wseq.take(i as int)),
                total <= (i as int) * 0xffff_ffff_ffff_ffffu64 as int,
            decreases n - i,
        {
            proof {
                lemma_sum_take_succ(wseq, i as int);
                assert((i + 1) * 0xffff_ffff_ffff_ffffu64 as int == i * 0xffff_ffff_ffff_ffffu64
                    as int + 0xffff_ffff_ffff_ffffu64 as int) by (nonlinear_arith);
            }
            total = total + weights[i] as u128;
            i += 1;
        }
        proof {
            assert(wseq.take(n as int) =~= wseq);
            assert(total as int == total_weight(rs));
        }

        let size: u8 = match direction {
            Direction::Horizontal => self.width,
            Direction::Vertical => self.height,
        };
        let ghost sz = axis_extent(*self, direction);
        let ghost shseq = shares_of(sz, wseq, sum_of(wseq));
        let ghost extseq = extents_of(sz, wseq);
        proof {
            lemma_extents(sz, wseq);
        }

        let mut sizes: Vec<u8> = Vec::new();
        i = 0;
        while i < n
            invariant
                i <= n,
                n == rs.len(),
                weights@.len() == n,
                forall|j: int| 0 <= j < n ==> #[trigger] weights@[j] as int == wseq[j],
                total as int == sum_of(wseq),
                total > 0,
                size as int == sz,
                shseq == shares_of(sz, wseq, sum_of(wseq)),
                forall|j: int| 0 <= j < n ==> 0 <= #[trigger] shseq[j] <= sz,
                sizes@.len() == i,
                forall|j: int| 0 <= j < i ==> #[trigger] sizes@[j] as int == shseq[j],
            decreases n - i,
        {
            proof {
                assert(size as int * weights@[i as int] as int <= 255
                    * 0xffff_ffff_ffff_ffffu64 as int) by (nonlinear_arith)
                    requires
                        0 <= size as int <= 255,
                        0 <= weights@[i as int] as int <= 0xffff_ffff_ffff_ffffu64 as int,
                ;
            }
            let q = (size as u128) * (weights[i] as u128) / total;
            proof {
                assert(shseq[i as int] == floor_share(sz, wseq[i as int], sum_of(wseq)));
            }
            sizes.push(q as u8);
            i += 1;
        }

        let mut ssum: u8 = 0;
        i = 0;
        proof {
            lemma_sum_nonneg(shseq);
            assert(shseq.take(0) =~= Seq::<int>::empty());
        }
        while i < n
            invariant
                i <= n,
                n == rs.len(),
                sizes@.len() == n,
                forall|j: int| 0 <= j < n ==> #[trigger] sizes@[j] as int == shseq[j],
                forall|j: int| 0 <= j < n ==> 0 <= #[trigger] shseq[j] <= sz,
                sum_of(shseq) <= sz,
                size as int == sz,
                ssum as int == sum_of(shseq.take(i as int)),
                ssum as int <= sum_of(shseq),
            decreases n - i,
        {
            proof {
                lemma_sum_take_succ(shseq, i as int);
                lemma_sum_take_le(shseq, i + 1);
            }
            ssum = ssum + sizes[i];
            i += 1;
        }
        proof {
            assert(shseq.take(n as int) =~= shseq);
        }
        let rem: u8 = size - ssum;
        proof {
            assert(rem as int == rem_of(sz, wseq));
            assert(rem as int <= n as int);
        }

        i = 0;
        let rem_n: usize = rem as usize;
        while i < rem_n
            invariant
                i <= rem_n,
                rem_n <= n,
                rem as usize == rem_n,
                n == rs.len(),
                sizes@.len() == n,
                forall|j: int| i <= j < n ==> #[trigger] sizes@[j] as int == shseq[j],
                forall|j: int| 0 <= j < i ==> #[trigger] sizes@[j] as int == shseq[j] + 1,
                forall|j: int| 0 <= j < n ==> 0 <= #[trigger] extseq[j] <= sz,
                extseq == extents_of(sz, wseq),
                rem as int == rem_of(sz, wseq),
                sz <= 255,
            decreases rem_n - i,
        {
            let v = sizes[i];
            proof {
                assert(extseq[i as int] == shseq[i as int] + 1);
            }
            sizes[i] = v + 1;
            i += 1;
        }
        proof {
            assert(forall|j: int| 0 <= j < n ==> #[trigger] sizes@[j] as int == extseq[j]);
        }

        let mut result: Vec<Zone> = Vec::new();
        let mut pos: u8 = match direction {
            Direction::Horizontal => self.x,
            Direction::Vertical => self.y,
        };
        i = 0;
        proof {
            lemma_child_zones(*self, rs, direction);
            assert(extseq.take(0) =~= Seq::<int>::empty());
        }
        while i < n
            invariant
                i <= n,
                n == rs.len(),
                sizes@.len() == n,
                forall|j: int| 0 <= j < n ==> #[trigger] sizes@[j] as int == extseq[j],
                extseq == split_extents(*self, rs, direction),
                pos as int == axis_origin(*self, direction) + child_offset(*self, rs, direction, i as int),
                splittable(rs),
                zone_fits(*self),
                result@.len() == i,
                forall|j: int|
                    0 <= j < i ==> #[trigger] result@[j] == child_zone(*self, rs, direction, j),
            decreases n - i,
        {
            proof {
                lemma_child_zones(*self, rs, direction);
                lemma_sum_take_succ(extseq, i as int);
            }
            let e = sizes[i];
            let z = match direction {
                Direction::Horizontal => Zone { x: pos, y: self.y, width: e, height: self.height },
                Direction::Vertical => Zone { x: self.x, y: pos, width: self.width, height: e },
            };
            result.push(z);
            pos = pos + e;
            i += 1;
        }
        result
    }
}

impl Default for Zone {
    /// The whole canvas.
    fn default() -> (z: Zone)
        ensures
            z == (Zone { x: 0u8, y: 0u8, width: 100u8, height: 100u8 }),
    {
        Zone::full()
    }
}

} // verus!
