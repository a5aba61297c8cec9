//! The per-frame side of a bone set: an output array with one matrix slot
//! per matrix index, refreshed at most once per tick.

use vstd::prelude::*;

use crate::bone_set::{all_steps, BoneSet};

verus! {

/// `data` with `m[i]` written at slot `idx[i]`, for each `i` in order
pub open spec fn scatter<M>(data: Seq<M>, idx: Seq<usize>, m: Seq<M>) -> Seq<M>
    decreases m.len(),
{
    if m.len() == 0 || idx.len() == 0 {
        data
    } else {
        scatter(data, idx.drop_last(), m.drop_last()).update(idx.last() as int, m.last())
    }
}

/// A set of poses for a [BoneSet]: the output matrix array, indexed by
/// matrix index, and the tick at which it was last refreshed
pub struct BonePoseSet<'a, T, M> {
    /// The BoneSet the pose corresponds to
    bones: &'a BoneSet<T>,
    /// A mesh-to-animated-model-space matrix transformation for each
    /// matrix index
    data: Vec<M>,
    /// A monotonic counter to allow updating of the matrices once per
    /// animation tick
    last_updated: usize,
}

impl<'a, T, M: Copy> BonePoseSet<'a, T, M> {
    /// The bone set being posed
    pub closed spec fn set_of(&self) -> BoneSet<T> {
        *self.bones
    }

    /// The output matrices
    pub closed spec fn data_of(&self) -> Seq<M> {
        self.data@
    }

    /// The tick of the last refresh
    pub closed spec fn last_tick(&self) -> usize {
        self.last_updated
    }

    /// The output array has one slot per matrix index and every bone's
    /// slot is in it
    pub open spec fn wf(&self) -> bool {
        &&& self.set_of().wf()
        &&& self.set_of().indices_fit()
        &&& self.data_of().len() == self.set_of().max_index
    }

    /// `next` is `prev` after `update(tick)` returned `refresh`
    pub open spec fn updated(prev: Self, next: Self, tick: usize, refresh: bool) -> bool {
        &&& refresh == (tick != prev.last_tick())
        &&& next.last_tick() == tick
        &&& next.data_of() == prev.data_of()
        &&& next.set_of() == prev.set_of()
    }

    /// Create a new pose set for a resolved [BoneSet], every output slot
    /// holding `blank`
    pub fn new(bones: &'a BoneSet<T>, blank: M) -> (r: Self)
        requires
            bones.wf(),
            bones.indices_fit(),
        ensures
            r.wf(),
            r.set_of() == *bones,
            r.data_of() == Seq::new(bones.max_index as nat, |i: int| blank),
            r.last_tick() == 0,
    {
        let mut data: Vec<M> = Vec::new();
        let mut i: usize = 0;
        while i < bones.max_index
            invariant
                i <= bones.max_index,
                data@ == Seq::new(i as nat, |x: int| blank),
            decreases bones.max_index - i,
        {
            data.push(blank);
            i = i + 1;
            proof {
                assert(data@ =~= Seq::new(i as nat, |x: int| blank));
            }
        }
        Self { bones, data, last_updated: 0 }
    }

    /// The order in which the animated matrices are derived: the bone set's
    /// recipes replayed, giving each bone with the bone whose animated
    /// matrix it is composed with (`None` for a root)
    pub fn derive_animation(&self) -> (r: Vec<(usize, Option<usize>)>)
        requires
            self.wf(),
        ensures
            r@ == all_steps(self.set_of().roots@),
    {
        self.bones.derivation_steps()
    }

    /// Record the tick, and say whether the matrices are due to be
    /// derived again: only if the tick differs from the last one
    pub fn update(&mut self, tick: usize) -> (r: bool)
        ensures
            Self::updated(*old(self), *final(self), tick, r),
    {
        if tick != self.last_updated {
            self.last_updated = tick;
            true
        } else {
            false
        }
    }

    /// Place each bone's mesh-to-model matrix `mtms[i]` (indexed as the
    /// bones are) at the bone's matrix index in the output array
    pub fn store(&mut self, mtms: &Vec<M>)
        requires
            old(self).wf(),
            mtms@.len() == old(self).set_of().bones.nodes().len(),
        ensures
            final(self).wf(),
            final(self).set_of() == old(self).set_of(),
            final(self).last_tick() == old(self).last_tick(),
            final(self).data_of() == scatter(
                old(self).data_of(),
                old(self).set_of().matrix_indices(),
                mtms@,
            ),
    {
        let ghost idx = self.set_of().matrix_indices();
        let n = mtms.len();
        let mut i: usize = 0;
        while i < n
            invariant
                n == mtms@.len(),
                n == idx.len(),
                i <= n,
                self.wf(),
                idx == self.set_of().matrix_indices(),
                self.set_of() == old(self).set_of(),
                self.last_tick() == old(self).last_tick(),
                self.data_of() == scatter(
                    old(self).data_of(),
                    idx.take(i as int),
                    mtms@.take(i as int),
                ),
            decreases n - i,
        {
            let matrix_index = self.bones.bones.borrow_node(i).matrix_index;
            proof {
                assert(matrix_index == idx[i as int]);
                assert(idx.take(i + 1).drop_last() =~= idx.take(i as int));
                assert(mtms@.take(i + 1).drop_last() =~= mtms@.take(i as int));
            }
            let m: M = mtms[i];
            self.data.set(matrix_index, m);
            i = i + 1;
        }
        proof {
            assert(idx.take(n as int) =~= idx);
            assert(mtms@.take(n as int) =~= mtms@);
        }
    }

    /// Borrow the output matrices
    pub fn borrow_data(&self) -> (r: &Vec<M>)
        ensures
            r@ == self.data_of(),
    {
        &self.data
    }

    /// The tick of the last refresh
    pub fn last_updated(&self) -> (r: usize)
        ensures
            r == self.last_tick(),
    {
        self.last_updated
    }
}

/// Updating twice with the same tick asks for no second derivation and
/// leaves the output array exactly as it was
pub proof fn lemma_same_tick_is_idle<'a, T, M: Copy>(
    s0: BonePoseSet<'a, T, M>,
    s1: BonePoseSet<'a, T, M>,
    s2: BonePoseSet<'a, T, M>,
    tick: usize,
    first: bool,
    second: bool,
)
    requires
        BonePoseSet::updated(s0, s1, tick, first),
        BonePoseSet::updated(s1, s2, tick, second),
    ensures
        !second,
        s2.data_of() == s1.data_of(),
{
}

} // verus!
