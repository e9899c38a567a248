//! The shared buffer of skinning transforms, rebuilt every frame.
//!
//! Each instance appends the transforms of its joints, up to a fixed number
//! of them, and is padded with zero records to the next alignment
//! boundary. The tail of the buffer is padded so that a span of the fixed
//! number of records can be read at the offset of every instance. The
//! buffer does not look into its records: it is generic over them.

use vstd::arithmetic::div_mod::{lemma_fundamental_div_mod, lemma_mod_multiples_basic};
use vstd::prelude::*;

verus! {

/// The offset of one instance's transforms in the shared buffer, counted in
/// records.
#[derive(Clone, Copy, Debug, PartialEq, Eq, Structural)]
pub struct DqSkinIndex {
    pub index: u32,
}

impl DqSkinIndex {
    /// The index of an instance whose transforms start at record `start`;
    /// the offset is cut to thirty-two bits.
    pub fn new(start: usize) -> (r: DqSkinIndex)
        ensures
            r.index == start as int % 0x1_0000_0000,
    {
        let wide: u64 = start as u64;
        DqSkinIndex { index: (wide % 0x1_0000_0000) as u32 }
    }
}

/// One skinned instance of a frame.
#[derive(Clone, Debug)]
pub struct SkinInstance<T> {
    /// Whether the instance is drawn this frame.
    pub visible: bool,
    /// For each joint, in order, its skinning transform; `None` where the
    /// joint's world transform is not available.
    pub transforms: Vec<Option<T>>,
}

/// How many transforms of an instance are packed.
pub open spec fn packed_count(joints: nat, max_joints: nat) -> nat {
    if joints < max_joints {
        joints
    } else {
        max_joints
    }
}

/// Every transform that would be packed is available.
pub open spec fn complete<T>(transforms: Seq<Option<T>>, max_joints: nat) -> bool {
    forall|k: int|
        0 <= k < packed_count(transforms.len(), max_joints) ==> (#[trigger] transforms[k]).is_some()
}

/// The transforms of an instance that are packed.
pub open spec fn payload<T>(transforms: Seq<Option<T>>, max_joints: nat) -> Seq<T> {
    Seq::new(packed_count(transforms.len(), max_joints), |k: int| transforms[k].unwrap())
}

/// The number of records from `len` to the next multiple of `alignment`.
pub open spec fn padding(len: nat, alignment: nat) -> nat {
    if alignment == 0 || len % alignment == 0 {
        0
    } else {
        (alignment - len % alignment) as nat
    }
}

/// `n` zero records.
pub open spec fn zeros<T>(zero: T, n: nat) -> Seq<T> {
    Seq::new(n, |k: int| zero)
}

/// How a buffer is laid out: the record that pads, how many records an
/// instance may take, and the boundary to which each instance is padded.
pub struct Layout<T> {
    pub zero: T,
    pub max_joints: nat,
    pub alignment: nat,
}

/// The records after one more instance: unchanged if a transform is
/// missing, else extended by the instance's payload and its padding.
pub open spec fn with_instance<T>(records: Seq<T>, transforms: Seq<Option<T>>, layout: Layout<T>) -> Seq<
    T,
> {
    if complete(transforms, layout.max_joints) {
        let filled = records + payload(transforms, layout.max_joints);
        filled + zeros(layout.zero, padding(filled.len(), layout.alignment))
    } else {
        records
    }
}

/// Whether an instance gets a place in the buffer.
pub open spec fn is_packed<T>(instance: SkinInstance<T>, layout: Layout<T>) -> bool {
    instance.visible && complete(instance.transforms@, layout.max_joints)
}

/// The records of a frame before its tail is padded.
pub open spec fn frame<T>(instances: Seq<SkinInstance<T>>, layout: Layout<T>) -> Seq<T>
    decreases instances.len(),
{
    if instances.len() == 0 {
        Seq::empty()
    } else {
        let before = frame(instances.drop_last(), layout);
        if instances.last().visible {
            with_instance(before, instances.last().transforms@, layout)
        } else {
            before
        }
    }
}

/// The offset of the last instance that was packed, 0 if none was.
pub open spec fn last_offset<T>(instances: Seq<SkinInstance<T>>, layout: Layout<T>) -> nat
    decreases instances.len(),
{
    if instances.len() == 0 {
        0
    } else if is_packed(instances.last(), layout) {
        frame(instances.drop_last(), layout).len()
    } else {
        last_offset(instances.drop_last(), layout)
    }
}

/// The records with their tail padded: behind `last_start` stand at least
/// `max_joints` records.
pub open spec fn with_tail<T>(records: Seq<T>, last_start: nat, layout: Layout<T>) -> Seq<T> {
    if records.len() - last_start < layout.max_joints {
        records + zeros(layout.zero, (layout.max_joints - (records.len() - last_start)) as nat)
    } else {
        records
    }
}

/// The offset at which instance `i` of a frame starts, if it is packed.
pub open spec fn offset_of<T>(instances: Seq<SkinInstance<T>>, i: int, layout: Layout<T>) -> nat {
    frame(instances.take(i), layout).len()
}

/// The index that instance `i` of a frame is given.
pub open spec fn index_of<T>(instances: Seq<SkinInstance<T>>, i: int, layout: Layout<T>) -> Option<
    DqSkinIndex,
> {
    if is_packed(instances[i], layout) {
        Some(
            DqSkinIndex { index: (offset_of(instances, i, layout) as int % 0x1_0000_0000) as u32 },
        )
    } else {
        None
    }
}

/// The shared buffer of one frame.
#[derive(Clone, Debug)]
pub struct SkinBuffer<T> {
    /// The records, instance after instance.
    pub records: Vec<T>,
    /// The offset of the last instance that was packed.
    pub last_start: usize,
    /// How many transforms an instance may take, and how many records can
    /// be read at the offset of each instance.
    pub max_joints: usize,
    /// The boundary, in records, to which each instance is padded.
    pub alignment: usize,
    /// The record that pads.
    pub zero: T,
}

impl<T: Copy> SkinBuffer<T> {
    /// The alignment is not zero, and the last instance starts inside the
    /// buffer or at its end.
    pub open spec fn wf(&self) -> bool {
        self.alignment > 0 && self.last_start <= self.records@.len()
    }

    /// How the buffer is laid out.
    pub open spec fn layout(&self) -> Layout<T> {
        Layout {
            zero: self.zero,
            max_joints: self.max_joints as nat,
            alignment: self.alignment as nat,
        }
    }

    /// An empty buffer. `alignment` is the boundary in records that the
    /// target's minimum offset alignment asks for.
    pub fn new(max_joints: usize, alignment: usize, zero: T) -> (r: SkinBuffer<T>)
        requires
            alignment > 0,
        ensures
            r.wf(),
            r.records@.len() == 0,
            r.last_start == 0,
            r.max_joints == max_joints,
            r.alignment == alignment,
            r.zero == zero,
    {
        SkinBuffer { records: Vec::new(), last_start: 0, max_joints, alignment, zero }
    }

    /// Empties the buffer for a new frame.
    pub fn clear(&mut self)
        requires
            old(self).wf(),
        ensures
            final(self).wf(),
            final(self).records@.len() == 0,
            final(self).last_start == 0,
            final(self).layout() == old(self).layout(),
    {
        self.records.clear();
        self.last_start = 0;
    }

    /// Appends `n` zero records.
    fn pad(&mut self, n: usize)
        ensures
            final(self).records@ == old(self).records@ + zeros(old(self).zero, n as nat),
            final(self).last_start == old(self).last_start,
            final(self).layout() == old(self).layout(),
    {
        let ghost start = self.records@;
        let mut k: usize = 0;
        proof {
            assert(self.records@ =~= start + zeros(self.zero, 0));
        }
        while k < n
            invariant
                k <= n,
                self.records@ == start + zeros(self.zero, k as nat),
                self.last_start == old(self).last_start,
                self.layout() == old(self).layout(),
            decreases n - k,
        {
            self.records.push(self.zero);
            proof {
                assert(self.records@ =~= start + zeros(self.zero, (k + 1) as nat));
            }
            k += 1;
        }
    }

    /// Packs one instance: appends its transforms, up to `max_joints` of
    /// them, pads to the next boundary and returns the instance's index.
    /// Where one of those transforms is missing, what was appended is
    /// taken back, the buffer is as it was, and there is no index.
    pub fn pack_instance(&mut self, transforms: &Vec<Option<T>>) -> (r: Option<DqSkinIndex>)
        requires
            old(self).wf(),
        ensures
            final(self).wf(),
            final(self).layout() == old(self).layout(),
            final(self).records@ == with_instance(
                old(self).records@,
                transforms@,
                old(self).layout(),
            ),
            complete(transforms@, old(self).max_joints as nat) ==> r == Some(
                DqSkinIndex { index: (old(self).records@.len() as int % 0x1_0000_0000) as u32 },
            ) && final(self).last_start == old(self).records@.len(),
            !complete(transforms@, old(self).max_joints as nat) ==> r.is_none()
                && final(self).last_start == old(self).last_start,
    {
        let start: usize = self.records.len();
        let count: usize = if transforms.len() < self.max_joints {
            transforms.len()
        } else {
            self.max_joints
        };
        let ghost before = self.records@;
        let mut k: usize = 0;
        let mut missing: bool = false;
        proof {
            assert(self.records@ =~= before + payload(transforms@, self.max_joints as nat).take(0));
        }
        while k < count && !missing
            invariant
                k <= count,
                count == packed_count(transforms@.len(), self.max_joints as nat),
                self.layout() == old(self).layout(),
                self.last_start == old(self).last_start,
                before == old(self).records@,
                before.len() == start,
                !missing ==> self.records@ == before + payload(
                    transforms@,
                    self.max_joints as nat,
                ).take(k as int),
                !missing ==> forall|x: int| 0 <= x < k ==> (#[trigger] transforms@[x]).is_some(),
                missing ==> !complete(transforms@, self.max_joints as nat),
                missing ==> self.records@.len() >= start && self.records@.take(start as int)
                    == before,
            decreases count - k, if missing { 0int } else { 1int },
        {
            match &transforms[k] {
                Some(t) => {
                    self.records.push(*t);
                    proof {
                        let all = payload(transforms@, self.max_joints as nat);
                        assert(self.records@ =~= before + all.take(k + 1));
                    }
                    k += 1;
                },
                None => {
                    proof {
                        assert(self.records@.take(start as int) =~= before);
                    }
                    missing = true;
                },
            }
        }
        if missing {
            self.records.truncate(start);
            proof {
                assert(self.records@ =~= before);
            }
            return None;
        }
        proof {
            let all = payload(transforms@, self.max_joints as nat);
            assert(all.take(k as int) =~= all);
        }
        self.last_start = start;
        let rest: usize = self.records.len() % self.alignment;
        if rest != 0 {
            self.pad(self.alignment - rest);
        } else {
            proof {
                assert(self.records@ =~= self.records@ + zeros(self.zero, 0));
            }
        }
        Some(DqSkinIndex::new(start))
    }

    /// Pads the tail of the buffer, so that `max_joints` records can be
    /// read at the offset of the last instance, and so at the offset of
    /// every instance.
    pub fn finish(&mut self)
        requires
            old(self).wf(),
        ensures
            final(self).wf(),
            final(self).layout() == old(self).layout(),
            final(self).last_start == old(self).last_start,
            final(self).records@ == with_tail(
                old(self).records@,
                old(self).last_start as nat,
                old(self).layout(),
            ),
            final(self).records@.len() >= final(self).last_start + final(self).max_joints,
    {
        let behind: usize = self.records.len() - self.last_start;
        if behind < self.max_joints {
            self.pad(self.max_joints - behind);
        }
    }

    /// Rebuilds the buffer for one frame: empties it, packs the visible
    /// instances in order, and pads the tail. Returns the index of each
    /// instance, `None` for one that is not visible or lacks a transform.
    pub fn extract_skins(&mut self, instances: &Vec<SkinInstance<T>>) -> (indices: Vec<
        Option<DqSkinIndex>,
    >)
        requires
            old(self).wf(),
        ensures
            final(self).wf(),
            final(self).layout() == old(self).layout(),
            final(self).last_start == last_offset(instances@, old(self).layout()),
            final(self).records@ == with_tail(
                frame(instances@, old(self).layout()),
                last_offset(instances@, old(self).layout()),
                old(self).layout(),
            ),
            indices@.len() == instances@.len(),
            forall|i: int|
                0 <= i < instances@.len() ==> #[trigger] indices@[i] == index_of(
                    instances@,
                    i,
                    old(self).layout(),
                ),
    {
        let ghost layout = self.layout();
        self.clear();
        let mut indices: Vec<Option<DqSkinIndex>> = Vec::new();
        let mut i: usize = 0;
        proof {
            assert(self.records@ =~= frame(instances@.take(0), layout));
        }
        while i < instances.len()
            invariant
                i <= instances@.len(),
                self.wf(),
                self.layout() == layout,
                self.records@ == frame(instances@.take(i as int), layout),
                self.last_start == last_offset(instances@.take(i as int), layout),
                indices@.len() == i,
                forall|x: int|
                    0 <= x < i ==> #[trigger] indices@[x] == index_of(instances@, x, layout),
            decreases instances@.len() - i,
        {
            proof {
                let done = instances@.take(i + 1);
                assert(done.drop_last() =~= instances@.take(i as int));
                assert(done.last() == instances@[i as int]);
            }
            if instances[i].visible {
                let index = self.pack_instance(&instances[i].transforms);
                indices.push(index);
            } else {
                indices.push(None);
            }
            i += 1;
        }
        proof {
            assert(instances@.take(i as int) =~= instances@);
        }
        self.finish();
        indices
    }
}

/// Padding leads to a multiple of the alignment.
pub proof fn lemma_padding_aligns(len: nat, alignment: nat)
    requires
        alignment > 0,
    ensures
        (len + padding(len, alignment)) % alignment == 0,
{
    if len % alignment != 0 {
        let a = alignment as int;
        let q = len as int / a;
        lemma_fundamental_div_mod(len as int, a);
        assert(len + padding(len, alignment) == (q + 1) * a) by (nonlinear_arith)
            requires
                len == a * q + len as int % a,
                padding(len, alignment) == a - len as int % a,
        ;
        lemma_mod_multiples_basic(q + 1, a);
    }
}

/// Every instance of a frame starts at a multiple of the alignment.
pub proof fn lemma_frame_aligned<T>(instances: Seq<SkinInstance<T>>, layout: Layout<T>)
    requires
        layout.alignment > 0,
    ensures
        frame(instances, layout).len() % layout.alignment == 0,
    decreases instances.len(),
{
    if instances.len() > 0 {
        let before = frame(instances.drop_last(), layout);
        lemma_frame_aligned(instances.drop_last(), layout);
        if is_packed(instances.last(), layout) {
            let filled = before + payload(instances.last().transforms@, layout.max_joints);
            lemma_padding_aligns(filled.len(), layout.alignment);
            assert(frame(instances, layout).len() == filled.len() + padding(
                filled.len(),
                layout.alignment,
            ));
        } else {
            assert(frame(instances, layout) == before);
        }
    } else {
        assert(frame(instances, layout).len() == 0);
        assert(0nat % layout.alignment == 0) by (nonlinear_arith)
            requires
                layout.alignment > 0,
        ;
    }
}

/// What the first `j` instances of a frame have written stays as it is
/// when the others follow.
pub proof fn lemma_frame_grows<T>(instances: Seq<SkinInstance<T>>, layout: Layout<T>, j: int)
    requires
        0 <= j <= instances.len(),
    ensures
        frame(instances.take(j), layout).len() <= frame(instances, layout).len(),
        forall|x: int|
            0 <= x < frame(instances.take(j), layout).len() ==> #[trigger] frame(instances, layout)[x]
                == frame(instances.take(j), layout)[x],
    decreases instances.len(),
{
    if j == instances.len() {
        assert(instances.take(j) =~= instances);
    } else {
        lemma_frame_grows(instances.drop_last(), layout, j);
        assert(instances.drop_last().take(j) =~= instances.take(j));
    }
}

/// No packed instance starts behind the last offset, and the last offset
/// lies within the frame.
pub proof fn lemma_last_offset_bounds<T>(instances: Seq<SkinInstance<T>>, layout: Layout<T>, i: int)
    requires
        0 <= i < instances.len(),
        is_packed(instances[i], layout),
    ensures
        offset_of(instances, i, layout) <= last_offset(instances, layout) <= frame(
            instances,
            layout,
        ).len(),
    decreases instances.len(),
{
    let before = instances.drop_last();
    if is_packed(instances.last(), layout) {
        lemma_frame_grows(before, layout, i);
        assert(before.take(i) =~= instances.take(i));
    } else {
        assert(before[i] == instances[i]);
        lemma_last_offset_bounds(before, layout, i);
        assert(before.take(i) =~= instances.take(i));
    }
}

/// In the buffer of a frame each packed instance starts at a multiple of
/// the alignment, `max_joints` records can be read at its offset, and the
/// first of them are its transforms, in the order of its joints.
pub proof fn law_spans_hold_transforms<T>(instances: Seq<SkinInstance<T>>, layout: Layout<T>, i: int)
    requires
        layout.alignment > 0,
        0 <= i < instances.len(),
        is_packed(instances[i], layout),
    ensures
        ({
            let buffer = with_tail(
                frame(instances, layout),
                last_offset(instances, layout),
                layout,
            );
            let offset = offset_of(instances, i, layout);
            &&& offset % layout.alignment == 0
            &&& offset + layout.max_joints <= buffer.len()
            &&& forall|k: int|
                0 <= k < packed_count(instances[i].transforms@.len(), layout.max_joints)
                    ==> #[trigger] buffer[offset + k] == instances[i].transforms@[k].unwrap()
        }),
{
    let all = frame(instances, layout);
    let buffer = with_tail(all, last_offset(instances, layout), layout);
    let offset = offset_of(instances, i, layout);
    let upto = instances.take(i + 1);
    lemma_frame_aligned(instances.take(i), layout);
    lemma_last_offset_bounds(instances, layout, i);
    lemma_frame_grows(instances, layout, i + 1);
    assert(upto.drop_last() =~= instances.take(i));
    assert(upto.last() == instances[i]);
    let count = packed_count(instances[i].transforms@.len(), layout.max_joints);
    assert forall|k: int| 0 <= k < count implies #[trigger] buffer[offset + k]
        == instances[i].transforms@[k].unwrap() by {
        let filled = frame(instances.take(i), layout) + payload(
            instances[i].transforms@,
            layout.max_joints,
        );
        assert(frame(upto, layout)[offset + k] == filled[offset + k]);
        assert(all[offset + k] == frame(upto, layout)[offset + k]);
    }
}

} // verus!
