//! Assignment of joint influences to vertices, capped at four per vertex.
//!
//! A weight is held as an unsigned key whose order is the order of the
//! weights it stands for; `key_of_bits` makes such a key from the bit
//! pattern of a single-precision number. Claims are taken in the order in
//! which they are made: a claim occupies a free slot where there is one; at
//! a full vertex it replaces the lightest influence if it is heavier than
//! that, and is discarded otherwise.

use crate::document::{
    find_geometry, last_geometry, same_text, selector_target, strip_selector, Array,
    GeometryRecord, NodeRecord, NodeType,
};
use vstd::prelude::*;

verus! {

/// The number of influences that one vertex can hold.
pub const MAX_INFLUENCES: usize = 4;

/// The key of the weight whose single-precision bit pattern is `bits`,
/// sign and magnitude: the pattern with its sign bit set where the sign bit
/// is clear, and the complement of the pattern where it is set.
pub open spec fn key_for(bits: u32) -> u32 {
    if bits & 0x8000_0000 == 0 {
        bits | 0x8000_0000
    } else {
        !bits
    }
}

/// The bit pattern that a key was made of.
pub open spec fn bits_for(key: u32) -> u32 {
    if key & 0x8000_0000 == 0 {
        !key
    } else {
        key & 0x7fff_ffff
    }
}

/// The key of a weight, from the bit pattern of the weight.
pub fn key_of_bits(bits: u32) -> (key: u32)
    ensures
        key == key_for(bits),
{
    if bits & 0x8000_0000 == 0 {
        bits | 0x8000_0000
    } else {
        !bits
    }
}

/// The bit pattern of a weight, from the key of the weight.
pub fn bits_of_key(key: u32) -> (bits: u32)
    ensures
        bits == bits_for(key),
{
    if key & 0x8000_0000 == 0 {
        !key
    } else {
        key & 0x7fff_ffff
    }
}

/// A key gives back the bit pattern that it was made of, and a bit pattern
/// the key that it was made from.
pub proof fn law_key_round_trip(x: u32)
    ensures
        bits_for(key_for(x)) == x,
        key_for(bits_for(x)) == x,
{
    assert(bits_for(key_for(x)) == x && key_for(bits_for(x)) == x) by (bit_vector)
        requires
            key_for(x) == if x & 0x8000_0000 == 0 {
                x | 0x8000_0000
            } else {
                !x
            },
            bits_for(x) == if x & 0x8000_0000 == 0 {
                !x
            } else {
                x & 0x7fff_ffff
            },
            bits_for(key_for(x)) == if key_for(x) & 0x8000_0000 == 0 {
                !key_for(x)
            } else {
                key_for(x) & 0x7fff_ffff
            },
            key_for(bits_for(x)) == if bits_for(x) & 0x8000_0000 == 0 {
                bits_for(x) | 0x8000_0000
            } else {
                !bits_for(x)
            },
    ;
}

/// Keys are ordered as signed magnitudes are: among patterns with a clear
/// sign bit the larger magnitude has the larger key, among patterns with a
/// set sign bit the smaller key, and every pattern with a set sign bit has
/// a smaller key than every pattern with a clear one.
pub proof fn law_keys_ordered(a: u32, b: u32)
    ensures
        a & 0x8000_0000 == 0 && b & 0x8000_0000 == 0 ==> (key_for(a) < key_for(b) <==> a < b),
        a & 0x8000_0000 != 0 && b & 0x8000_0000 != 0 ==> (key_for(a) < key_for(b) <==> a > b),
        a & 0x8000_0000 != 0 && b & 0x8000_0000 == 0 ==> key_for(a) < key_for(b),
{
    assert(a & 0x8000_0000 == 0 && b & 0x8000_0000 == 0 ==> ((a | 0x8000_0000) < (b | 0x8000_0000)
        <==> a < b)) by (bit_vector);
    assert(a & 0x8000_0000 != 0 && b & 0x8000_0000 != 0 ==> (!a < !b <==> a > b)) by (bit_vector);
    assert(a & 0x8000_0000 != 0 && b & 0x8000_0000 == 0 ==> !a < (b | 0x8000_0000))
        by (bit_vector);
}

/// One joint's pull on one vertex.
#[derive(Clone, Copy, Debug, PartialEq, Eq, Structural)]
pub struct Influence {
    /// The position of the joint in the skeleton's joint list.
    pub joint: usize,
    /// The key of the weight.
    pub weight: u32,
}

/// What became of a claim.
#[derive(Clone, Copy, Debug, PartialEq, Eq, Structural)]
pub enum ClaimOutcome {
    /// The claim took the free slot of this number.
    Occupied(usize),
    /// The claim took the slot of this number from the influence given.
    Evicted(usize, Influence),
    /// The vertex was full and held nothing lighter than the claim.
    Discarded,
}

/// The influences of one vertex.
#[derive(Clone, Debug)]
pub struct VertexInfluence {
    /// The occupied slots, in slot order; the slots behind them are empty.
    pub slots: Vec<Influence>,
    /// How many claims arrived when the vertex was full already; the count
    /// stops at the largest number it can hold.
    pub excess: usize,
}

/// The influences of one vertex, as contracts speak of them.
pub struct InfluenceModel {
    pub slots: Seq<Influence>,
    pub excess: usize,
}

impl View for VertexInfluence {
    type V = InfluenceModel;

    open spec fn view(&self) -> InfluenceModel {
        InfluenceModel { slots: self.slots@, excess: self.excess }
    }
}

/// A vertex that no joint has claimed.
pub open spec fn vacant() -> InfluenceModel {
    InfluenceModel { slots: Seq::empty(), excess: 0 }
}

/// The slot of the lightest influence; among equally light ones, the first.
pub open spec fn lightest(slots: Seq<Influence>) -> int
    decreases slots.len(),
{
    if slots.len() <= 1 {
        0
    } else {
        let m = lightest(slots.drop_last());
        if slots.last().weight < slots[m].weight {
            slots.len() - 1
        } else {
            m
        }
    }
}

/// The vertex after one more claim.
pub open spec fn claimed(v: InfluenceModel, c: Influence) -> InfluenceModel {
    if v.slots.len() < MAX_INFLUENCES {
        InfluenceModel { slots: v.slots.push(c), excess: v.excess }
    } else {
        let m = lightest(v.slots);
        InfluenceModel {
            slots: if v.slots[m].weight < c.weight {
                v.slots.update(m, c)
            } else {
                v.slots
            },
            excess: if v.excess < usize::MAX {
                (v.excess + 1) as usize
            } else {
                v.excess
            },
        }
    }
}

/// What becomes of a claim on the vertex.
pub open spec fn outcome_of(v: InfluenceModel, c: Influence) -> ClaimOutcome {
    if v.slots.len() < MAX_INFLUENCES {
        ClaimOutcome::Occupied(v.slots.len() as usize)
    } else {
        let m = lightest(v.slots);
        if v.slots[m].weight < c.weight {
            ClaimOutcome::Evicted(m as usize, v.slots[m])
        } else {
            ClaimOutcome::Discarded
        }
    }
}

/// The vertex after a run of claims, taken in order.
pub open spec fn after_claims(start: InfluenceModel, claims: Seq<Influence>) -> InfluenceModel
    decreases claims.len(),
{
    if claims.len() == 0 {
        start
    } else {
        claimed(after_claims(start, claims.drop_last()), claims.last())
    }
}

/// The lightest slot holds a weight that no slot undercuts, and every slot
/// before it holds a heavier one.
pub proof fn lemma_lightest(slots: Seq<Influence>)
    requires
        slots.len() > 0,
    ensures
        0 <= lightest(slots) < slots.len(),
        forall|k: int|
            0 <= k < slots.len() ==> slots[lightest(slots)].weight <= (#[trigger] slots[k]).weight,
        forall|k: int|
            0 <= k < lightest(slots) ==> slots[lightest(slots)].weight < (#[trigger] slots[k]).weight,
    decreases slots.len(),
{
    if slots.len() > 1 {
        lemma_lightest(slots.drop_last());
        let m = lightest(slots.drop_last());
        assert forall|k: int| 0 <= k < slots.len() - 1 implies slots.drop_last()[k] == slots[k] by {}
        assert(slots.drop_last()[m] == slots[m]);
    }
}

impl VertexInfluence {
    /// At most four slots are occupied.
    pub open spec fn wf(&self) -> bool {
        self.slots@.len() <= MAX_INFLUENCES
    }

    /// A vertex that no joint has claimed.
    pub fn new() -> (r: VertexInfluence)
        ensures
            r.wf(),
            r@ == vacant(),
    {
        VertexInfluence { slots: Vec::new(), excess: 0 }
    }

    /// The slot of the lightest influence; among equally light ones, the
    /// first.
    fn lightest_slot(&self) -> (m: usize)
        requires
            self.slots@.len() > 0,
        ensures
            m == lightest(self.slots@),
            m < self.slots@.len(),
    {
        let mut m: usize = 0;
        let mut k: usize = 1;
        proof {
            assert(self.slots@.take(1).len() == 1);
        }
        while k < self.slots.len()
            invariant
                1 <= k <= self.slots@.len(),
                m < k,
                m == lightest(self.slots@.take(k as int)),
            decreases self.slots@.len() - k,
        {
            proof {
                let next = self.slots@.take(k + 1);
                assert(next.drop_last() =~= self.slots@.take(k as int));
                assert(next.last() == self.slots@[k as int]);
                assert(next[m as int] == self.slots@[m as int]);
            }
            if self.slots[k].weight < self.slots[m].weight {
                m = k;
            }
            k += 1;
        }
        proof {
            assert(self.slots@.take(k as int) =~= self.slots@);
        }
        m
    }

    /// Takes one claim: it occupies a free slot where there is one; at a
    /// full vertex it replaces the lightest influence if it is heavier than
    /// that, and is discarded otherwise.
    pub fn claim(&mut self, joint: usize, weight: u32) -> (outcome: ClaimOutcome)
        requires
            old(self).wf(),
        ensures
            final(self).wf(),
            final(self)@ == claimed(old(self)@, Influence { joint, weight }),
            outcome == outcome_of(old(self)@, Influence { joint, weight }),
    {
        let c = Influence { joint, weight };
        let n: usize = self.slots.len();
        if n < MAX_INFLUENCES {
            self.slots.push(c);
            return ClaimOutcome::Occupied(n);
        }
        if self.excess < usize::MAX {
            self.excess = self.excess + 1;
        }
        let m: usize = self.lightest_slot();
        let previous: Influence = self.slots[m];
        if previous.weight < weight {
            self.slots.set(m, c);
            ClaimOutcome::Evicted(m, previous)
        } else {
            ClaimOutcome::Discarded
        }
    }

    /// The joint of each of the four slots, cut to sixteen bits; an empty
    /// slot gives joint 0.
    pub fn joint_indices(&self) -> (r: [u16; 4])
        ensures
            forall|k: int|
                0 <= k < 4 ==> #[trigger] r@[k] == if k < self.slots@.len() {
                    (self.slots@[k].joint % 0x1_0000) as u16
                } else {
                    0u16
                },
    {
        [self.joint_at(0), self.joint_at(1), self.joint_at(2), self.joint_at(3)]
    }

    /// The joint of one slot, cut to sixteen bits; an empty slot gives 0.
    pub fn joint_at(&self, slot: usize) -> (r: u16)
        ensures
            r == if slot < self.slots@.len() {
                (self.slots@[slot as int].joint % 0x1_0000) as u16
            } else {
                0u16
            },
    {
        if slot < self.slots.len() {
            (self.slots[slot].joint % 0x1_0000) as u16
        } else {
            0
        }
    }

    /// The weight key of one slot; `None` for an empty slot.
    pub fn weight_at(&self, slot: usize) -> (r: Option<u32>)
        ensures
            r == if slot < self.slots@.len() {
                Some(self.slots@[slot as int].weight)
            } else {
                None
            },
    {
        if slot < self.slots.len() {
            Some(self.slots[slot].weight)
        } else {
            None
        }
    }
}

/// Of a run of claims on one vertex the heaviest stay.
///
/// Up to four claims are all retained, in the order in which they came.
/// From then on four are retained: each retained influence is one of the
/// claims, and each claim is either retained or no heavier than anything
/// retained. Every claim after the fourth counts as excess.
pub proof fn law_heaviest_claims_stay(claims: Seq<Influence>)
    ensures
        ({
            let r = after_claims(vacant(), claims);
            &&& r.slots.len() == if claims.len() < 4 {
                claims.len()
            } else {
                4
            }
            &&& claims.len() <= 4 ==> r.slots == claims
            &&& forall|k: int| 0 <= k < r.slots.len() ==> claims.contains(#[trigger] r.slots[k])
            &&& forall|i: int, k: int|
                0 <= i < claims.len() && 0 <= k < r.slots.len() ==> r.slots.contains(
                    #[trigger] claims[i],
                ) || claims[i].weight <= (#[trigger] r.slots[k]).weight
            &&& claims.len() <= 4 ==> r.excess == 0
            &&& 4 < claims.len() <= usize::MAX + 4 ==> r.excess == claims.len() - 4
        }),
    decreases claims.len(),
{
    if claims.len() > 0 {
        let before = claims.drop_last();
        let c = claims.last();
        law_heaviest_claims_stay(before);
        let p = after_claims(vacant(), before);
        let r = after_claims(vacant(), claims);
        assert(r == claimed(p, c));
        assert forall|i: int| 0 <= i < before.len() implies before[i] == claims[i] by {}
        if p.slots.len() < 4 {
            assert(p.slots == before);
            assert(r.slots =~= claims);
            assert forall|i: int, k: int|
                0 <= i < claims.len() && 0 <= k < r.slots.len() implies r.slots.contains(
                #[trigger] claims[i],
            ) || claims[i].weight <= (#[trigger] r.slots[k]).weight by {
                assert(r.slots[i] == claims[i]);
            }
        } else {
            let m = lightest(p.slots);
            lemma_lightest(p.slots);
            assert forall|k: int| 0 <= k < r.slots.len() implies claims.contains(
                #[trigger] r.slots[k],
            ) by {
                if r.slots[k] == c {
                    assert(claims[claims.len() - 1] == c);
                } else {
                    assert(r.slots[k] == p.slots[k]);
                    assert(before.contains(p.slots[k]));
                    let i = choose|i: int| 0 <= i < before.len() && before[i] == p.slots[k];
                    assert(claims[i] == r.slots[k]);
                }
            }
            assert forall|i: int, k: int|
                0 <= i < claims.len() && 0 <= k < r.slots.len() implies r.slots.contains(
                #[trigger] claims[i],
            ) || claims[i].weight <= (#[trigger] r.slots[k]).weight by {
                if i == claims.len() - 1 {
                    if p.slots[m].weight < c.weight {
                        assert(r.slots[m] == c);
                    } else {
                        assert(p.slots[m].weight <= p.slots[k].weight);
                    }
                } else {
                    assert(before[i] == claims[i]);
                    assert(p.slots[m].weight <= p.slots[k].weight);
                    if p.slots.contains(before[i]) {
                        let k0 = choose|k0: int| 0 <= k0 < p.slots.len() && p.slots[k0] == before[i];
                        if p.slots[m].weight < c.weight && k0 == m {
                        } else {
                            assert(r.slots[k0] == claims[i]);
                        }
                    } else {
                        assert(before[i].weight <= p.slots[m].weight);
                        assert(before[i].weight <= p.slots[k].weight);
                    }
                }
            }
        }
    }
}

/// The claims of one joint: pairs of a vertex position and a weight key.
#[derive(Clone, Debug)]
pub struct JointClaims {
    /// The position of the joint in the skeleton's joint list.
    pub joint: usize,
    pub weights: Vec<(usize, u32)>,
}

/// The claims of one joint, as contracts speak of them.
pub struct ClaimList {
    pub joint: usize,
    pub weights: Seq<(usize, u32)>,
}

impl View for JointClaims {
    type V = ClaimList;

    open spec fn view(&self) -> ClaimList {
        ClaimList { joint: self.joint, weights: self.weights@ }
    }
}

/// What contracts see of a list of joints' claims.
pub open spec fn claim_lists(joints: Seq<JointClaims>) -> Seq<ClaimList> {
    Seq::new(joints.len(), |i: int| joints[i]@)
}

/// The vertices after the claims of one joint; a claim on a vertex that
/// does not exist changes nothing.
pub open spec fn after_joint(
    state: Seq<InfluenceModel>,
    joint: usize,
    weights: Seq<(usize, u32)>,
) -> Seq<InfluenceModel>
    decreases weights.len(),
{
    if weights.len() == 0 {
        state
    } else {
        let before = after_joint(state, joint, weights.drop_last());
        let v = weights.last().0 as int;
        if v < before.len() {
            before.update(v, claimed(before[v], Influence { joint, weight: weights.last().1 }))
        } else {
            before
        }
    }
}

/// The vertices after the claims of a list of joints, joint by joint.
pub open spec fn after_joints(state: Seq<InfluenceModel>, joints: Seq<ClaimList>) -> Seq<
    InfluenceModel,
>
    decreases joints.len(),
{
    if joints.len() == 0 {
        state
    } else {
        after_joint(
            after_joints(state, joints.drop_last()),
            joints.last().joint,
            joints.last().weights,
        )
    }
}

/// Every claim names a vertex below `vertex_count`.
pub open spec fn claims_in_range(joints: Seq<ClaimList>, vertex_count: int) -> bool {
    forall|j: int, k: int|
        0 <= j < joints.len() && 0 <= k < joints[j].weights.len() ==> (
        #[trigger] joints[j].weights[k]).0 < vertex_count
}

/// What contracts see of a list of vertices.
pub open spec fn models(vertices: Seq<VertexInfluence>) -> Seq<InfluenceModel> {
    Seq::new(vertices.len(), |i: int| vertices[i]@)
}

/// `n` vertices that no joint has claimed.
pub open spec fn all_vacant(n: nat) -> Seq<InfluenceModel> {
    Seq::new(n, |i: int| vacant())
}

/// Gives each of `vertex_count` vertices its influences: the joints are
/// taken in order, and within a joint its claims in order.
pub fn assign(vertex_count: usize, joints: &Vec<JointClaims>) -> (r: Vec<VertexInfluence>)
    requires
        claims_in_range(claim_lists(joints@), vertex_count as int),
    ensures
        r@.len() == vertex_count,
        forall|v: int| 0 <= v < r@.len() ==> (#[trigger] r@[v]).wf(),
        models(r@) == after_joints(all_vacant(vertex_count as nat), claim_lists(joints@)),
{
    let ghost lists = claim_lists(joints@);
    let mut vertices: Vec<VertexInfluence> = Vec::new();
    let mut i: usize = 0;
    while i < vertex_count
        invariant
            i <= vertex_count,
            vertices@.len() == i,
            forall|v: int| 0 <= v < i ==> (#[trigger] vertices@[v]).wf(),
            forall|v: int| 0 <= v < i ==> (#[trigger] vertices@[v])@ == vacant(),
        decreases vertex_count - i,
    {
        vertices.push(VertexInfluence::new());
        i += 1;
    }
    proof {
        assert(models(vertices@) =~= all_vacant(vertex_count as nat));
    }
    let mut j: usize = 0;
    while j < joints.len()
        invariant
            j <= joints@.len(),
            lists == claim_lists(joints@),
            claims_in_range(lists, vertex_count as int),
            vertices@.len() == vertex_count,
            forall|v: int| 0 <= v < vertices@.len() ==> (#[trigger] vertices@[v]).wf(),
            models(vertices@) == after_joints(
                all_vacant(vertex_count as nat),
                lists.take(j as int),
            ),
        decreases joints@.len() - j,
    {
        let joint: usize = joints[j].joint;
        let weights = &joints[j].weights;
        let ghost start = models(vertices@);
        let mut k: usize = 0;
        while k < weights.len()
            invariant
                j < joints@.len(),
                weights == &joints@[j as int].weights,
                lists == claim_lists(joints@),
                claims_in_range(lists, vertex_count as int),
                k <= weights@.len(),
                vertices@.len() == vertex_count,
                start.len() == vertex_count,
                forall|v: int| 0 <= v < vertices@.len() ==> (#[trigger] vertices@[v]).wf(),
                models(vertices@) == after_joint(start, joint, weights@.take(k as int)),
            decreases weights@.len() - k,
        {
            let v: usize = weights[k].0;
            let w: u32 = weights[k].1;
            let ghost before = vertices@;
            proof {
                assert(lists[j as int].weights[k as int].0 < vertex_count);
            }
            vertices[v].claim(joint, w);
            proof {
                let run = weights@.take(k + 1);
                assert(run.drop_last() =~= weights@.take(k as int));
                assert(run.last() == weights@[k as int]);
                assert(models(vertices@) =~= models(before).update(
                    v as int,
                    claimed(models(before)[v as int], Influence { joint, weight: w }),
                ));
            }
            k += 1;
        }
        proof {
            assert(weights@.take(k as int) =~= weights@);
            let done = lists.take(j + 1);
            assert(done.drop_last() =~= lists.take(j as int));
            assert(done.last() == joints@[j as int]@);
        }
        j += 1;
    }
    proof {
        assert(lists.take(j as int) =~= lists);
    }
    vertices
}

/// The claims that one joint makes on vertex `v`, in order.
pub open spec fn claims_on(joint: usize, weights: Seq<(usize, u32)>, v: int) -> Seq<Influence>
    decreases weights.len(),
{
    if weights.len() == 0 {
        Seq::empty()
    } else {
        let rest = claims_on(joint, weights.drop_last(), v);
        if weights.last().0 == v {
            rest.push(Influence { joint, weight: weights.last().1 })
        } else {
            rest
        }
    }
}

/// The claims that a list of joints makes on vertex `v`, in order.
pub open spec fn all_claims_on(joints: Seq<ClaimList>, v: int) -> Seq<Influence>
    decreases joints.len(),
{
    if joints.len() == 0 {
        Seq::empty()
    } else {
        all_claims_on(joints.drop_last(), v) + claims_on(
            joints.last().joint,
            joints.last().weights,
            v,
        )
    }
}

/// Two runs of claims, one after the other, are one run.
pub proof fn lemma_after_claims_append(start: InfluenceModel, a: Seq<Influence>, b: Seq<Influence>)
    ensures
        after_claims(start, a + b) == after_claims(after_claims(start, a), b),
    decreases b.len(),
{
    if b.len() == 0 {
        assert(a + b =~= a);
    } else {
        lemma_after_claims_append(start, a, b.drop_last());
        assert((a + b).drop_last() =~= a + b.drop_last());
        assert((a + b).last() == b.last());
    }
}

/// A joint changes a vertex by its claims on that vertex alone.
pub proof fn lemma_joint_per_vertex(
    state: Seq<InfluenceModel>,
    joint: usize,
    weights: Seq<(usize, u32)>,
    v: int,
)
    requires
        0 <= v < state.len(),
    ensures
        after_joint(state, joint, weights).len() == state.len(),
        after_joint(state, joint, weights)[v] == after_claims(
            state[v],
            claims_on(joint, weights, v),
        ),
    decreases weights.len(),
{
    if weights.len() > 0 {
        lemma_joint_per_vertex(state, joint, weights.drop_last(), v);
        if weights.last().0 == v {
            let rest = claims_on(joint, weights.drop_last(), v);
            let c = Influence { joint, weight: weights.last().1 };
            assert(rest.push(c).drop_last() =~= rest);
            assert(rest.push(c).last() == c);
        }
    }
}

/// Each vertex ends as its own claims leave it: the claims on other
/// vertices do not touch it, and the order of its own is the order in which
/// the joints and their weights are listed.
pub proof fn law_vertex_by_its_claims(state: Seq<InfluenceModel>, joints: Seq<ClaimList>, v: int)
    requires
        0 <= v < state.len(),
    ensures
        after_joints(state, joints).len() == state.len(),
        after_joints(state, joints)[v] == after_claims(state[v], all_claims_on(joints, v)),
    decreases joints.len(),
{
    if joints.len() > 0 {
        let before = joints.drop_last();
        law_vertex_by_its_claims(state, before, v);
        lemma_joint_per_vertex(
            after_joints(state, before),
            joints.last().joint,
            joints.last().weights,
            v,
        );
        lemma_after_claims_append(
            state[v],
            all_claims_on(before, v),
            claims_on(joints.last().joint, joints.last().weights, v),
        );
    }
}

/// However many joints claim a vertex, `assign` leaves it at most four
/// influences: each is one of the claims on that vertex, and each claim on
/// it is either retained or no heavier than anything retained.
pub proof fn law_assign_keeps_heaviest(vertex_count: nat, joints: Seq<ClaimList>, v: int)
    requires
        0 <= v < vertex_count,
    ensures
        ({
            let r = after_joints(all_vacant(vertex_count), joints)[v];
            let claims = all_claims_on(joints, v);
            &&& r.slots.len() <= MAX_INFLUENCES
            &&& r.slots.len() == if claims.len() < 4 {
                claims.len()
            } else {
                4
            }
            &&& forall|k: int| 0 <= k < r.slots.len() ==> claims.contains(#[trigger] r.slots[k])
            &&& forall|i: int, k: int|
                0 <= i < claims.len() && 0 <= k < r.slots.len() ==> r.slots.contains(
                    #[trigger] claims[i],
                ) || claims[i].weight <= (#[trigger] r.slots[k]).weight
        }),
{
    law_vertex_by_its_claims(all_vacant(vertex_count), joints, v);
    law_heaviest_claims_stay(all_claims_on(joints, v));
}

/// One joint of a skin binding, with the vertices it pulls on.
#[derive(Clone, Debug)]
pub struct WeightedJoint {
    pub id: String,
    /// The reference to the node that is the joint.
    pub node: String,
    /// The joint's general weight map: pairs of a vertex position and a
    /// weight key.
    pub node_weights: Option<Array<(usize, u32)>>,
}

/// The weights that bind a geometry to a skeleton.
#[derive(Clone, Debug)]
pub struct SkinBinding {
    /// The reference to the root node of the skeleton.
    pub node: String,
    /// The reference to the geometry that is bound.
    pub geometry: String,
    /// The number of vertices that the binding expects of the geometry.
    pub vertex_count: usize,
    pub joints: Option<Vec<WeightedJoint>>,
}

/// Why a skin binding was dropped.
#[derive(Clone, Copy, Debug, PartialEq, Eq, Structural)]
pub enum BindingFault {
    /// The geometry is missing, or has another number of vertices than the
    /// binding expects.
    GeometryMismatch,
    /// The binding lists no joints.
    NoJoints,
    /// A weight names a vertex that the geometry does not have.
    VertexOutOfRange,
}

/// The identifiers of the first `bound` records that are bones, in file
/// order.
pub open spec fn bone_ids(records: Seq<NodeRecord>, bound: nat) -> Seq<Seq<char>>
    decreases bound,
{
    if bound == 0 || bound > records.len() {
        Seq::empty()
    } else if records[bound - 1].node_type == NodeType::Bone {
        bone_ids(records, (bound - 1) as nat).push(records[bound - 1].id@)
    } else {
        bone_ids(records, (bound - 1) as nat)
    }
}

/// The texts of a list of strings.
pub open spec fn texts(strings: Seq<String>) -> Seq<Seq<char>> {
    Seq::new(strings.len(), |i: int| strings[i]@)
}

/// The skeleton's joint list: the identifiers of the records that are
/// bones, in file order.
pub fn joint_ids(records: &Vec<NodeRecord>) -> (r: Vec<String>)
    ensures
        texts(r@) == bone_ids(records@, records@.len()),
{
    let mut r: Vec<String> = Vec::new();
    let mut i: usize = 0;
    while i < records.len()
        invariant
            i <= records@.len(),
            texts(r@) == bone_ids(records@, i as nat),
        decreases records@.len() - i,
    {
        let is_bone = match records[i].node_type {
            NodeType::Bone => true,
            _ => false,
        };
        if is_bone {
            let ghost before = r@;
            r.push(records[i].id.as_str().to_owned());
            proof {
                assert(texts(r@) =~= texts(before).push(records@[i as int].id@));
            }
        }
        i += 1;
    }
    r
}

/// The last position at which `ids` holds `target`.
pub open spec fn last_position(ids: Seq<Seq<char>>, target: Seq<char>) -> Option<int>
    decreases ids.len(),
{
    if ids.len() == 0 {
        None
    } else if ids.last() == target {
        Some(ids.len() - 1)
    } else {
        last_position(ids.drop_last(), target)
    }
}

/// The position of a joint in the joint list; where the list holds the
/// identifier more than once, the last position counts.
pub fn joint_index(joint_ids: &Vec<String>, id: &str) -> (r: Option<usize>)
    ensures
        match last_position(texts(joint_ids@), id@) {
            Some(p) => r matches Some(j) && j as int == p && j < joint_ids@.len(),
            None => r.is_none(),
        },
{
    let ghost ids = texts(joint_ids@);
    let mut k: usize = joint_ids.len();
    proof {
        assert(ids.take(k as int) =~= ids);
    }
    while k > 0
        invariant
            k <= joint_ids@.len(),
            ids == texts(joint_ids@),
            last_position(ids, id@) == last_position(ids.take(k as int), id@),
        decreases k,
    {
        proof {
            assert(ids.take(k as int).drop_last() =~= ids.take(k - 1));
            assert(ids.take(k as int).last() == joint_ids@[k - 1]@);
        }
        if same_text(joint_ids[k - 1].as_str(), id) {
            return Some(k - 1);
        }
        k -= 1;
    }
    None
}

/// The claims that one joint of a binding makes, where its node reference
/// names a joint of the list and it has a weight map.
pub open spec fn claims_of(joint: WeightedJoint, ids: Seq<Seq<char>>) -> Option<ClaimList> {
    match selector_target(joint.node@) {
        None => None,
        Some(target) => match last_position(ids, target) {
            None => None,
            Some(p) => match joint.node_weights {
                None => None,
                Some(map) => Some(ClaimList { joint: p as usize, weights: map.values@ }),
            },
        },
    }
}

/// The claims of a binding's joints, in order; a joint that is not in the
/// list, or has no weight map, makes none.
pub open spec fn resolved_claims(joints: Seq<WeightedJoint>, ids: Seq<Seq<char>>) -> Seq<ClaimList>
    decreases joints.len(),
{
    if joints.len() == 0 {
        Seq::empty()
    } else {
        let rest = resolved_claims(joints.drop_last(), ids);
        match claims_of(joints.last(), ids) {
            Some(list) => rest.push(list),
            None => rest,
        }
    }
}

/// A copy of a weight map.
fn copy_weights(weights: &Vec<(usize, u32)>) -> (r: Vec<(usize, u32)>)
    ensures
        r@ == weights@,
{
    let mut r: Vec<(usize, u32)> = Vec::new();
    let mut k: usize = 0;
    while k < weights.len()
        invariant
            k <= weights@.len(),
            r@ == weights@.take(k as int),
        decreases weights@.len() - k,
    {
        r.push(weights[k]);
        proof {
            assert(r@ =~= weights@.take(k + 1));
        }
        k += 1;
    }
    proof {
        assert(weights@.take(k as int) =~= weights@);
    }
    r
}

/// Looks each joint of a binding up in the joint list and collects its
/// claims.
pub fn resolve_claims(joints: &Vec<WeightedJoint>, joint_ids: &Vec<String>) -> (r: Vec<JointClaims>)
    ensures
        claim_lists(r@) == resolved_claims(joints@, texts(joint_ids@)),
{
    let ghost ids = texts(joint_ids@);
    let mut r: Vec<JointClaims> = Vec::new();
    let mut i: usize = 0;
    while i < joints.len()
        invariant
            i <= joints@.len(),
            ids == texts(joint_ids@),
            claim_lists(r@) == resolved_claims(joints@.take(i as int), ids),
        decreases joints@.len() - i,
    {
        let ghost before = r@;
        proof {
            assert(joints@.take(i + 1).drop_last() =~= joints@.take(i as int));
            assert(joints@.take(i + 1).last() == joints@[i as int]);
        }
        match strip_selector(joints[i].node.as_str()) {
            None => {},
            Some(target) => match joint_index(joint_ids, target.as_str()) {
                None => {},
                Some(p) => match &joints[i].node_weights {
                    None => {},
                    Some(map) => {
                        r.push(JointClaims { joint: p, weights: copy_weights(&map.values) });
                        proof {
                            assert(claim_lists(r@) =~= claim_lists(before).push(
                                claims_of(joints@[i as int], ids).unwrap(),
                            ));
                        }
                    },
                },
            },
        }
        i += 1;
    }
    proof {
        assert(joints@.take(i as int) =~= joints@);
    }
    r
}

/// Whether every claim names a vertex below `vertex_count`.
pub fn claims_fit(joints: &Vec<JointClaims>, vertex_count: usize) -> (r: bool)
    ensures
        r == claims_in_range(claim_lists(joints@), vertex_count as int),
{
    let ghost lists = claim_lists(joints@);
    let mut j: usize = 0;
    while j < joints.len()
        invariant
            j <= joints@.len(),
            lists == claim_lists(joints@),
            forall|a: int, b: int|
                0 <= a < j && 0 <= b < lists[a].weights.len() ==> (#[trigger] lists[a].weights[b]).0
                    < vertex_count,
        decreases joints@.len() - j,
    {
        let weights = &joints[j].weights;
        let mut k: usize = 0;
        while k < weights.len()
            invariant
                j < joints@.len(),
                lists == claim_lists(joints@),
                weights@ == lists[j as int].weights,
                k <= weights@.len(),
                forall|b: int| 0 <= b < k ==> (#[trigger] lists[j as int].weights[b]).0 < vertex_count,
            decreases weights@.len() - k,
        {
            if weights[k].0 >= vertex_count {
                proof {
                    assert(lists[j as int].weights[k as int].0 >= vertex_count);
                }
                return false;
            }
            k += 1;
        }
        j += 1;
    }
    true
}

/// What binding a skin gives: the fault for which the binding is dropped,
/// or the influences of the geometry's vertices.
pub open spec fn binding_result(
    skin: SkinBinding,
    geometry_vertex_count: Option<usize>,
    ids: Seq<Seq<char>>,
    r: Result<Vec<VertexInfluence>, BindingFault>,
) -> bool {
    if geometry_vertex_count != Some(skin.vertex_count) {
        r == Err::<Vec<VertexInfluence>, BindingFault>(BindingFault::GeometryMismatch)
    } else {
        match skin.joints {
            None => r == Err::<Vec<VertexInfluence>, BindingFault>(BindingFault::NoJoints),
            Some(joints) => {
                let lists = resolved_claims(joints@, ids);
                if !claims_in_range(lists, skin.vertex_count as int) {
                    r == Err::<Vec<VertexInfluence>, BindingFault>(BindingFault::VertexOutOfRange)
                } else {
                    match r {
                        Ok(vertices) => {
                            &&& vertices@.len() == skin.vertex_count
                            &&& forall|v: int|
                                0 <= v < vertices@.len() ==> (#[trigger] vertices@[v]).wf()
                            &&& models(vertices@) == after_joints(
                                all_vacant(skin.vertex_count as nat),
                                lists,
                            )
                        },
                        Err(_) => false,
                    }
                }
            },
        }
    }
}

/// Binds a skin to its geometry. `geometry_vertex_count` is the number of
/// vertices of the geometry that the binding refers to, or `None` where
/// there is no such geometry; `joint_ids` is the skeleton's joint list.
pub fn bind_skin(
    skin: &SkinBinding,
    geometry_vertex_count: Option<usize>,
    joint_ids: &Vec<String>,
) -> (r: Result<Vec<VertexInfluence>, BindingFault>)
    ensures
        binding_result(*skin, geometry_vertex_count, texts(joint_ids@), r),
{
    match geometry_vertex_count {
        None => {
            return Err(BindingFault::GeometryMismatch);
        },
        Some(count) => {
            if count != skin.vertex_count {
                return Err(BindingFault::GeometryMismatch);
            }
        },
    }
    match &skin.joints {
        None => Err(BindingFault::NoJoints),
        Some(joints) => {
            let claims = resolve_claims(joints, joint_ids);
            if !claims_fit(&claims, skin.vertex_count) {
                return Err(BindingFault::VertexOutOfRange);
            }
            Ok(assign(skin.vertex_count, &claims))
        },
    }
}

/// The geometry that a binding refers to: the last one that carries the
/// identifier which the binding's reference names.
pub open spec fn bound_geometry(skin: SkinBinding, geometries: Seq<GeometryRecord>) -> Option<int> {
    match selector_target(skin.geometry@) {
        None => None,
        Some(id) => last_geometry(geometries, id),
    }
}

/// The number of vertices of the geometry that a binding refers to.
pub open spec fn bound_vertex_count(skin: SkinBinding, geometries: Seq<GeometryRecord>) -> Option<
    usize,
> {
    match bound_geometry(skin, geometries) {
        None => None,
        Some(g) => Some(geometries[g].vertex_count),
    }
}

/// Binds a skin to the geometry that it refers to, and says which one that
/// is. A binding whose geometry is missing is dropped like one whose
/// vertex count differs.
pub fn process_skin(
    skin: &SkinBinding,
    geometries: &Vec<GeometryRecord>,
    joint_ids: &Vec<String>,
) -> (r: Result<(usize, Vec<VertexInfluence>), BindingFault>)
    ensures
        match r {
            Ok((g, vertices)) => bound_geometry(*skin, geometries@) == Some(g as int)
                && binding_result(
                *skin,
                bound_vertex_count(*skin, geometries@),
                texts(joint_ids@),
                Ok(vertices),
            ),
            Err(fault) => binding_result(
                *skin,
                bound_vertex_count(*skin, geometries@),
                texts(joint_ids@),
                Err(fault),
            ),
        },
{
    let found: Option<usize> = match strip_selector(skin.geometry.as_str()) {
        None => None,
        Some(id) => find_geometry(geometries, id.as_str()),
    };
    match found {
        None => {
            proof {
                assert(bound_vertex_count(*skin, geometries@).is_none());
            }
            Err(BindingFault::GeometryMismatch)
        },
        Some(g) => {
            proof {
                assert(bound_geometry(*skin, geometries@) == Some(g as int));
                assert(bound_vertex_count(*skin, geometries@) == Some(
                    geometries@[g as int].vertex_count,
                ));
            }
            match bind_skin(skin, Some(geometries[g].vertex_count), joint_ids) {
                Ok(vertices) => Ok((g, vertices)),
                Err(fault) => Err(fault),
            }
        },
    }
}

/// For the first `bound` leader joints, in order, the pairs of a leader and
/// the follower that carries its name; where several followers carry it,
/// the last one does.
pub open spec fn followed(leaders: Seq<Seq<char>>, followers: Seq<Seq<char>>, bound: nat) -> Seq<
    (usize, usize),
>
    decreases bound,
{
    if bound == 0 || bound > leaders.len() {
        Seq::empty()
    } else {
        let rest = followed(leaders, followers, (bound - 1) as nat);
        match last_position(followers, leaders[bound - 1]) {
            Some(p) => rest.push(((bound - 1) as usize, p as usize)),
            None => rest,
        }
    }
}

/// Pairs the joints of a leading skeleton with the joints of the same name
/// in a skeleton that follows it: for each pair the follower takes the
/// leader's transform, pair after pair.
pub fn follow_pairs(leaders: &Vec<String>, followers: &Vec<String>) -> (r: Vec<(usize, usize)>)
    ensures
        r@ == followed(texts(leaders@), texts(followers@), leaders@.len()),
{
    let mut r: Vec<(usize, usize)> = Vec::new();
    let mut k: usize = 0;
    while k < leaders.len()
        invariant
            k <= leaders@.len(),
            r@ == followed(texts(leaders@), texts(followers@), k as nat),
        decreases leaders@.len() - k,
    {
        match joint_index(followers, leaders[k].as_str()) {
            Some(p) => {
                r.push((k, p));
            },
            None => {},
        }
        k += 1;
    }
    r
}

} // verus!
