//! The instruction tree and the partition engine that walks it.
//!
//! A `Leaf` contributes its whole rectangle; a `Split` divides its rectangle
//! among its children in proportion to their ratios and recurses. The engine
//! returns the leaf rectangles with set semantics: bit-identical duplicates
//! collapse into the first occurrence.

use crate::ratio::Ratio;
use crate::zone::{
    child_zone, lemma_child_zones, splittable, zone_fits, Direction, Zone,
};
use vstd::prelude::*;

verus! {

/// One child of a split: its proportional weight and its own instruction.
#[derive(Debug, PartialEq)]
pub struct Node {
    pub ratio: Ratio,
    pub instruction: Instruction,
}

/// A parsed layout: a terminal rectangle or a proportional subdivision.
#[derive(Debug, PartialEq)]
pub enum Instruction {
    Leaf,
    Split { direction: Direction, children: Vec<Node> },
}

/// Mathematical form of an instruction tree.
pub enum InstrView {
    Leaf,
    Split { direction: Direction, children: Seq<NodeView> },
}

/// Mathematical form of a split child.
pub struct NodeView {
    pub ratio: Ratio,
    pub instruction: InstrView,
}

pub open spec fn node_view(n: Node) -> NodeView
    decreases n,
{
    NodeView { ratio: n.ratio, instruction: instr_view(n.instruction) }
}

pub open spec fn instr_view(t: Instruction) -> InstrView
    decreases t,
{
    match t {
        Instruction::Leaf => InstrView::Leaf,
        Instruction::Split { direction, children } => InstrView::Split {
            direction,
            children: nodes_view(children@),
        },
    }
}

pub open spec fn nodes_view(v: Seq<Node>) -> Seq<NodeView>
    decreases v,
{
    if v.len() == 0 {
        Seq::empty()
    } else {
        seq![node_view(v[0])] + nodes_view(v.subrange(1, v.len() as int))
    }
}

impl View for Node {
    type V = NodeView;

    open spec fn view(&self) -> NodeView {
        node_view(*self)
    }
}

impl View for Instruction {
    type V = InstrView;

    open spec fn view(&self) -> InstrView {
        instr_view(*self)
    }
}

pub proof fn lemma_nodes_view(v: Seq<Node>)
    ensures
        nodes_view(v).len() == v.len(),
        forall|i: int| 0 <= i < v.len() ==> nodes_view(v)[i] == node_view(#[trigger] v[i]),
    decreases v.len(),
{
    if v.len() > 0 {
        lemma_nodes_view(v.subrange(1, v.len() as int));
        assert forall|i: int| 0 <= i < v.len() implies nodes_view(v)[i] == node_view(
            #[trigger] v[i],
        ) by {
            if i > 0 {
                assert(v.subrange(1, v.len() as int)[i - 1] == v[i]);
            }
        }
    }
}

/// The ratios of a split's children, in child order.
pub open spec fn ratios_of(children: Seq<NodeView>) -> Seq<Ratio> {
    Seq::new(children.len(), |i: int| children[i].ratio)
}

/// The policy on degenerate ratios: a tree is well formed only when every
/// split's ratios have a positive combined weight (and every ratio is in
/// representable range). The engine requires this instead of dividing by a
/// zero total.
pub open spec fn instr_wf(t: InstrView) -> bool
    decreases t,
{
    match t {
        InstrView::Leaf => true,
        InstrView::Split { direction, children } => {
            &&& splittable(ratios_of(children))
            &&& forall|i: int|
                0 <= i < children.len() ==> instr_wf(#[trigger] children[i].instruction)
        },
    }
}

/// The leaf rectangles a tree produces from a rectangle, in traversal order
/// and before any collapsing of duplicates.
pub open spec fn leaf_zones(t: InstrView, z: Zone) -> Seq<Zone>
    decreases t, 0nat,
{
    match t {
        InstrView::Leaf => seq![z],
        InstrView::Split { direction, children } => leaf_zones_from(children, z, direction, 0),
    }
}

/// The leaf rectangles of the children from index `j` on.
pub open spec fn leaf_zones_from(children: Seq<NodeView>, z: Zone, d: Direction, j: int) -> Seq<
    Zone,
>
    decreases children, (if j < children.len() { children.len() - j } else { 0 }),
{
    if 0 <= j < children.len() {
        leaf_zones(children[j].instruction, child_zone(z, ratios_of(children), d, j))
            + leaf_zones_from(children, z, d, j + 1)
    } else {
        Seq::empty()
    }
}

/// `acc` with `z` appended unless already present.
pub open spec fn push_unique(acc: Seq<Zone>, z: Zone) -> Seq<Zone> {
    if acc.contains(z) {
        acc
    } else {
        acc.push(z)
    }
}

/// `acc` with every element of `s` appended in order, skipping the ones
/// already seen.
pub open spec fn dedup_append(acc: Seq<Zone>, s: Seq<Zone>) -> Seq<Zone>
    decreases s.len(),
{
    if s.len() == 0 {
        acc
    } else {
        dedup_append(push_unique(acc, s[0]), s.subrange(1, s.len() as int))
    }
}

/// `s` with duplicates collapsed into the first occurrence.
pub open spec fn dedup(s: Seq<Zone>) -> Seq<Zone> {
    dedup_append(Seq::empty(), s)
}

proof fn lemma_contains_push(acc: Seq<Zone>, z: Zone, w: Zone)
    ensures
        acc.push(z).contains(w) <==> (acc.contains(w) || w == z),
{
    if acc.push(z).contains(w) {
        let i = choose|i: int| 0 <= i < acc.push(z).len() && acc.push(z)[i] == w;
        if i < acc.len() {
            assert(acc[i] == w);
        }
    }
    if acc.contains(w) {
        let i = choose|i: int| 0 <= i < acc.len() && acc[i] == w;
        assert(acc.push(z)[i] == w);
    }
    if w == z {
        assert(acc.push(z)[acc.len() as int] == w);
    }
}

proof fn lemma_contains_head(s: Seq<Zone>, w: Zone)
    requires
        s.len() > 0,
    ensures
        s.contains(w) <==> (w == s[0] || s.subrange(1, s.len() as int).contains(w)),
{
    let tail = s.subrange(1, s.len() as int);
    if s.contains(w) {
        let i = choose|i: int| 0 <= i < s.len() && s[i] == w;
        if i > 0 {
            assert(tail[i - 1] == w);
        }
    }
    if tail.contains(w) {
        let i = choose|i: int| 0 <= i < tail.len() && tail[i] == w;
        assert(s[i + 1] == w);
    }
}

/// What collapsing guarantees: no duplicates come out, nothing is invented
/// and nothing is lost.
pub proof fn lemma_dedup_append_props(acc: Seq<Zone>, s: Seq<Zone>)
    requires
        acc.no_duplicates(),
    ensures
        dedup_append(acc, s).no_duplicates(),
        forall|w: Zone|
            dedup_append(acc, s).contains(w) <==> (acc.contains(w) || #[trigger] s.contains(w)),
    decreases s.len(),
{
    if s.len() == 0 {
        assert forall|w: Zone| dedup_append(acc, s).contains(w) implies (acc.contains(w)
            || s.contains(w)) by {}
    } else {
        let acc1 = push_unique(acc, s[0]);
        let tail = s.subrange(1, s.len() as int);
        assert(acc1.no_duplicates()) by {
            if !acc.contains(s[0]) {
                assert forall|i: int, j: int|
                    0 <= i < j < acc1.len() implies acc1[i] != acc1[j] by {
                    if j < acc.len() {
                    } else {
                        assert(acc1[j] == s[0]);
                        assert(acc.contains(acc[i]));
                    }
                }
            }
        }
        lemma_dedup_append_props(acc1, tail);
        assert forall|w: Zone| #[trigger] dedup_append(acc, s).contains(w) <==> (acc.contains(w)
            || s.contains(w)) by {
            lemma_contains_push(acc, s[0], w);
            lemma_contains_head(s, w);
        }
    }
}

/// Processing a concatenation is processing its parts in turn.
pub proof fn lemma_dedup_append_concat(acc: Seq<Zone>, s1: Seq<Zone>, s2: Seq<Zone>)
    ensures
        dedup_append(acc, s1 + s2) == dedup_append(dedup_append(acc, s1), s2),
    decreases s1.len(),
{
    if s1.len() == 0 {
        assert(s1 + s2 =~= s2);
    } else {
        assert((s1 + s2)[0] == s1[0]);
        assert((s1 + s2).subrange(1, (s1 + s2).len() as int) =~= s1.subrange(
            1,
            s1.len() as int,
        ) + s2);
        lemma_dedup_append_concat(push_unique(acc, s1[0]), s1.subrange(1, s1.len() as int), s2);
    }
}

/// Whether `v` already holds `z`.
fn zones_contain(v: &Vec<Zone>, z: Zone) -> (b: bool)
    ensures
        b == v@.contains(z),
{
    let mut i: usize = 0;
    while i < v.len()
        invariant
            i <= v@.len(),
            forall|j: int| 0 <= j < i ==> v@[j] != z,
        decreases v@.len() - i,
    {
        if v[i] == z {
            assert(v@.contains(z));
            return true;
        }
        i += 1;
    }
    false
}

impl Instruction {
    /// Whether every split of this tree can actually be divided: its ratios
    /// are in range and their combined weight is positive. `slice` requires
    /// this; an all-zero split is rejected here rather than dividing by
    /// zero.
    #[verifier::loop_isolation(false)]
    pub fn well_formed(&self) -> (b: bool)
        ensures
            b == instr_wf(self@),
        decreases *self,
    {
        match self {
            Instruction::Leaf => true,
            Instruction::Split { direction, children } => {
                proof {
                    lemma_nodes_view(children@);
                }
                let ghost cv = nodes_view(children@);
                proof {
                    assert(self@ == (InstrView::Split { direction: *direction, children: cv }));
                }
                let mut ratios: Vec<Ratio> = Vec::new();
                let mut i: usize = 0;
                while i < children.len()
                    invariant
                        i <= children@.len(),
                        ratios@.len() == i,
                        forall|j: int| 0 <= j < i ==> ratios@[j] == ratios_of(cv)[j],
                    decreases children@.len() - i,
                {
                    ratios.push(children[i].ratio);
                    i += 1;
                }
                proof {
                    assert(ratios@ =~= ratios_of(cv));
                }
                if !crate::zone::splittable_check(ratios.as_slice()) {
                    return false;
                }
                i = 0;
                while i < children.len()
                    invariant
                        i <= children@.len(),
                        forall|j: int| 0 <= j < i ==> instr_wf(#[trigger] cv[j].instruction),
                    decreases children@.len() - i,
                {
                    let child = &children[i];
                    proof {
                        assert(cv[i as int].instruction == child.instruction@);
                    }
                    if !child.instruction.well_formed() {
                        return false;
                    }
                    i += 1;
                }
                true
            },
        }
    }

    /// The partition engine: every leaf rectangle this tree produces from
    /// `arena`, in traversal order, with bit-identical duplicates collapsed
    /// into the first occurrence.
    pub fn slice(&self, arena: Zone) -> (r: Vec<Zone>)
        requires
            instr_wf(self@),
            zone_fits(arena),
        ensures
            r@ == dedup(leaf_zones(self@, arena)),
            r@.no_duplicates(),
            forall|w: Zone| r@.contains(w) <==> #[trigger] leaf_zones(self@, arena).contains(w),
    {
        let mut result: Vec<Zone> = Vec::new();
        self.slice_inner(arena, &mut result);
        proof {
            lemma_dedup_append_props(Seq::empty(), leaf_zones(self@, arena));
            assert(forall|w: Zone| !Seq::<Zone>::empty().contains(w));
        }
        result
    }

    #[verifier::loop_isolation(false)]
    fn slice_inner(&self, arena: Zone, result: &mut Vec<Zone>)
        requires
            instr_wf(self@),
            zone_fits(arena),
        ensures
            final(result)@ == dedup_append(old(result)@, leaf_zones(self@, arena)),
        decreases *self,
    {
        match self {
            Instruction::Leaf => {
                proof {
                    assert(self@ == InstrView::Leaf);
                    assert(leaf_zones(self@, arena) =~= seq![arena]);
                    assert(seq![arena].subrange(1, 1) =~= Seq::<Zone>::empty());
                    assert(dedup_append(push_unique(old(result)@, arena), Seq::<Zone>::empty())
                        == push_unique(old(result)@, arena));
                    assert(dedup_append(old(result)@, seq![arena]) == push_unique(
                        old(result)@,
                        arena,
                    ));
                }
                if !zones_contain(result, arena) {
                    result.push(arena);
                }
            },
            Instruction::Split { direction, children } => {
                proof {
                    lemma_nodes_view(children@);
                }
                let ghost cv = nodes_view(children@);
                let ghost rs = ratios_of(cv);
                proof {
                    assert(self@ == (InstrView::Split { direction: *direction, children: cv }));
                }
                let mut ratios: Vec<Ratio> = Vec::new();
                let mut i: usize = 0;
                while i < children.len()
                    invariant
                        i <= children@.len(),
                        ratios@.len() == i,
                        forall|j: int| 0 <= j < i ==> ratios@[j] == rs[j],
                    decreases children@.len() - i,
                {
                    ratios.push(children[i].ratio);
                    i += 1;
                }
                proof {
                    assert(ratios@ =~= rs);
                    lemma_child_zones(arena, rs, *direction);
                }
                let zones: Vec<Zone> = arena.slice(ratios.as_slice(), *direction);
                i = 0;
                while i < children.len()
                    invariant
                        i <= children@.len(),
                        dedup_append(result@, leaf_zones_from(cv, arena, *direction, i as int))
                            == dedup_append(
                            old(result)@,
                            leaf_zones_from(cv, arena, *direction, 0),
                        ),
                    decreases children@.len() - i,
                {
                    let child = &children[i];
                    let z = zones[i];
                    let ghost pre = result@;
                    let ghost lz = leaf_zones(cv[i as int].instruction, z);
                    proof {
                        assert(z == child_zone(arena, rs, *direction, i as int));
                        assert(cv[i as int].instruction == child.instruction@);
                        assert(instr_wf(cv[i as int].instruction));
                        assert(leaf_zones_from(cv, arena, *direction, i as int) == lz
                            + leaf_zones_from(cv, arena, *direction, i + 1));
                    }
                    child.instruction.slice_inner(z, result);
                    proof {
                        lemma_dedup_append_concat(
                            pre,
                            lz,
                            leaf_zones_from(cv, arena, *direction, i + 1),
                        );
                    }
                    i += 1;
                }
            },
        }
    }
}

impl Default for Instruction {
    /// A bare leaf.
    fn default() -> (r: Instruction)
        ensures
            r == Instruction::Leaf,
    {
        Instruction::Leaf
    }
}

impl Default for Node {
    /// A leaf child with ratio zero.
    fn default() -> (r: Node)
        ensures
            r == (Node { ratio: Ratio { num: 0u64, scale: 0u8 }, instruction: Instruction::Leaf }),
    {
        Node { ratio: Ratio { num: 0, scale: 0 }, instruction: Instruction::Leaf }
    }
}

} // verus!
