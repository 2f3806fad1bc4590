//! What the entities of a drawing refer to: for each point or opening that
//! can follow a piece of another object, the piece it follows, if any. The
//! geometry itself stays with the entities; these are the references that
//! the dependency graph is built from.
use vstd::prelude::*;
use crate::geometry_kernel::{GeometryId, Reference, ReferInd};
use crate::ids::RefID;

verus! {

/// The reference of the piece `index` of the object `id` to `other`, if it
/// follows something.
pub open spec fn ref_of(id: RefID, index: usize, other: Option<GeometryId>) -> Option<Reference> {
    match other {
        Some(g) => Some(Reference { owner: GeometryId { id, index }, other: g }),
        None => None,
    }
}

/// How many of the openings follow something.
pub open spec fn count_followed(os: Seq<Option<GeometryId>>) -> nat
    decreases os.len(),
{
    if os.len() == 0 {
        0
    } else {
        count_followed(os.drop_last()) + if os.last() is Some {
            1nat
        } else {
            0nat
        }
    }
}

/// The references of the openings that follow something, numbered from 3
/// in the order of the openings, the others being passed over.
pub open spec fn opening_refs(id: RefID, os: Seq<Option<GeometryId>>) -> Seq<Option<Reference>>
    decreases os.len(),
{
    if os.len() == 0 {
        Seq::empty()
    } else {
        let prev = opening_refs(id, os.drop_last());
        match os.last() {
            Some(g) => prev.push(
                Some(Reference { owner: GeometryId { id, index: (3 + count_followed(os.drop_last())) as usize }, other: g }),
            ),
            None => prev,
        }
    }
}

/// The indices below `n` of the openings that follow something, in order.
pub open spec fn followed_indices(os: Seq<Option<GeometryId>>, n: int) -> Seq<usize>
    decreases n,
{
    if n <= 0 {
        Seq::empty()
    } else if os[n - 1] is Some {
        followed_indices(os, n - 1).push((n - 1) as usize)
    } else {
        followed_indices(os, n - 1)
    }
}

/// The indices `0` and `1` of the two points that follow nothing.
pub open spec fn free_points(first: Option<GeometryId>, second: Option<GeometryId>) -> Seq<ReferInd> {
    if first is None && second is None {
        seq![0usize, 1usize]
    } else if first is None {
        seq![0usize]
    } else if second is None {
        seq![1usize]
    } else {
        Seq::empty()
    }
}

proof fn lemma_count_followed_bound(os: Seq<Option<GeometryId>>)
    ensures
        count_followed(os) <= os.len(),
    decreases os.len(),
{
    if os.len() > 0 {
        lemma_count_followed_bound(os.drop_last());
    }
}

/// The references of a wall: its two end points, the line between them,
/// which follows both, and its openings.
pub struct WallRefs {
    pub id: RefID,
    pub first: Option<GeometryId>,
    pub second: Option<GeometryId>,
    pub openings: Vec<Option<GeometryId>>,
}

impl WallRefs {
    /// The references, in order: of the first point (index 0) and of the
    /// second (index 1), or `None` where the point follows nothing; of the
    /// line (index 2) to each point; then of each opening that follows
    /// something, numbered from 3.
    pub fn get_refs(&self) -> (r: Vec<Option<Reference>>)
        requires
            self.openings@.len() <= usize::MAX - 3,
        ensures
            r@ == seq![
                ref_of(self.id, 0, self.first),
                ref_of(self.id, 1, self.second),
                Some(Reference { owner: GeometryId { id: self.id, index: 2 }, other: GeometryId { id: self.id, index: 0 } }),
                Some(Reference { owner: GeometryId { id: self.id, index: 2 }, other: GeometryId { id: self.id, index: 1 } }),
            ] + opening_refs(self.id, self.openings@),
    {
        let mut results: Vec<Option<Reference>> = Vec::new();
        match self.first {
            Some(g) => results.push(Some(Reference::new(self.id, 0, g))),
            None => results.push(None),
        }
        match self.second {
            Some(g) => results.push(Some(Reference::new(self.id, 1, g))),
            None => results.push(None),
        }
        let self_id_0 = GeometryId::new(self.id, 0);
        let self_id_1 = GeometryId::new(self.id, 1);
        let self_id_2 = GeometryId::new(self.id, 2);
        results.push(Some(Reference { owner: self_id_2, other: self_id_0 }));
        results.push(Some(Reference { owner: self_id_2, other: self_id_1 }));
        let ghost head = results@;
        let mut index: usize = 3;
        let mut i: usize = 0;
        proof {
            assert(self.openings@.take(0) =~= Seq::<Option<GeometryId>>::empty());
        }
        while i < self.openings.len()
            invariant
                i <= self.openings@.len(),
                self.openings@.len() <= usize::MAX - 3,
                index == 3 + count_followed(self.openings@.take(i as int)),
                results@ == head + opening_refs(self.id, self.openings@.take(i as int)),
            decreases self.openings@.len() - i,
        {
            proof {
                assert(self.openings@.take(i + 1).drop_last() =~= self.openings@.take(i as int));
                assert(self.openings@.take(i + 1).last() == self.openings@[i as int]);
                lemma_count_followed_bound(self.openings@.take(i as int));
            }
            if let Some(g) = self.openings[i] {
                results.push(Some(Reference::new(self.id, index, g)));
                index += 1;
            }
            proof {
                assert(results@ =~= head + opening_refs(self.id, self.openings@.take(i + 1)));
            }
            i += 1;
        }
        proof {
            assert(self.openings@.take(self.openings@.len() as int) =~= self.openings@);
        }
        results
    }

    /// The points that follow nothing: 0 for the first, 1 for the second.
    pub fn get_available_refs(&self) -> (r: Vec<ReferInd>)
        ensures
            r@ == free_points(self.first, self.second),
    {
        available_points(self.first, self.second)
    }

    /// The number of references that a wall can hold: its two points and
    /// its openings.
    pub fn get_num_refs(&self) -> (r: usize)
        requires
            self.openings@.len() <= usize::MAX - 2,
        ensures
            r == 2 + self.openings@.len(),
    {
        2 + self.openings.len()
    }

    /// The number of pieces of a wall: its two points, the line between
    /// them and its openings.
    pub fn get_num_results(&self) -> (r: usize)
        requires
            self.openings@.len() <= usize::MAX - 3,
        ensures
            r == 3 + self.openings@.len(),
    {
        3 + self.openings.len()
    }

    /// The indices of the openings that follow something, in order: those
    /// that a wall keeps when it is brought up to date.
    pub fn followed_openings(&self) -> (r: Vec<usize>)
        ensures
            r@ == followed_indices(self.openings@, self.openings@.len() as int),
    {
        let mut kept: Vec<usize> = Vec::new();
        let mut i: usize = 0;
        while i < self.openings.len()
            invariant
                i <= self.openings@.len(),
                kept@ == followed_indices(self.openings@, i as int),
            decreases self.openings@.len() - i,
        {
            if self.openings[i].is_some() {
                kept.push(i);
            }
            i += 1;
        }
        kept
    }

    /// Nothing is followed any more; the openings stay.
    pub fn clear_refs(&mut self)
        ensures
            final(self).id == old(self).id,
            final(self).first is None,
            final(self).second is None,
            final(self).openings@ == Seq::new(old(self).openings@.len(), |i: int| None::<GeometryId>),
    {
        self.first = None;
        self.second = None;
        let n = self.openings.len();
        let mut cleared: Vec<Option<GeometryId>> = Vec::new();
        let mut i: usize = 0;
        while i < n
            invariant
                i <= n,
                cleared@ == Seq::new(i as nat, |j: int| None::<GeometryId>),
            decreases n - i,
        {
            cleared.push(None);
            i += 1;
            proof {
                assert(cleared@ =~= Seq::new(i as nat, |j: int| None::<GeometryId>));
            }
        }
        self.openings = cleared;
    }

    /// Forgets the reference `index`: a point then follows nothing, and the
    /// opening `index - 3`, if there is one, is taken away. Index 2, the
    /// line, holds no reference to forget.
    pub fn delete_ref(&mut self, index: ReferInd)
        requires
            index != 2,
        ensures
            final(self).id == old(self).id,
            index == 0 ==> final(self).first is None && final(self).second == old(self).second && final(self).openings@
                == old(self).openings@,
            index == 1 ==> final(self).second is None && final(self).first == old(self).first && final(self).openings@
                == old(self).openings@,
            index >= 3 ==> final(self).first == old(self).first && final(self).second == old(self).second,
            index >= 3 && index - 3 < old(self).openings@.len() ==> final(self).openings@ == old(self).openings@.remove(
                index - 3,
            ),
            index >= 3 && index - 3 >= old(self).openings@.len() ==> final(self).openings@ == old(self).openings@,
    {
        if index == 0 {
            self.first = None;
        } else if index == 1 {
            self.second = None;
        } else if self.openings.len() > index - 3 {
            self.openings.remove(index - 3);
        }
    }
}

/// The references of a dimension: its two end points.
pub struct DimensionRefs {
    pub id: RefID,
    pub first: Option<GeometryId>,
    pub second: Option<GeometryId>,
}

impl DimensionRefs {
    /// The references of the first point (index 0) and of the second
    /// (index 1), or `None` where the point follows nothing.
    pub fn get_refs(&self) -> (r: Vec<Option<Reference>>)
        ensures
            r@ == seq![ref_of(self.id, 0, self.first), ref_of(self.id, 1, self.second)],
    {
        let mut results: Vec<Option<Reference>> = Vec::new();
        match self.first {
            Some(g) => results.push(Some(Reference::new(self.id, 0, g))),
            None => results.push(None),
        }
        match self.second {
            Some(g) => results.push(Some(Reference::new(self.id, 1, g))),
            None => results.push(None),
        }
        proof {
            assert(results@ =~= seq![ref_of(self.id, 0, self.first), ref_of(self.id, 1, self.second)]);
        }
        results
    }

    /// The points that follow nothing: 0 for the first, 1 for the second.
    pub fn get_available_refs(&self) -> (r: Vec<ReferInd>)
        ensures
            r@ == free_points(self.first, self.second),
    {
        available_points(self.first, self.second)
    }

    /// A dimension holds two references.
    pub fn get_num_refs(&self) -> (r: usize)
        ensures
            r == 2,
    {
        2
    }
}

/// The indices of the two points that follow nothing.
fn available_points(first: Option<GeometryId>, second: Option<GeometryId>) -> (r: Vec<ReferInd>)
    ensures
        r@ == free_points(first, second),
{
    let mut results: Vec<ReferInd> = Vec::new();
    if first.is_none() {
        results.push(0);
    }
    if second.is_none() {
        results.push(1);
    }
    proof {
        assert(results@ =~= free_points(first, second));
    }
    results
}

} // verus!
