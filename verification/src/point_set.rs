//! A finite set of points.

use vstd::prelude::*;
use crate::point::Point;
use crate::point_map::PointMap;

verus! {

/// A finite set of points, walked in the order in which the points first came in.
pub struct PointSet {
    members: PointMap<()>,
}

impl View for PointSet {
    type V = Set<Point>;

    closed spec fn view(&self) -> Set<Point> {
        self.members@.dom()
    }
}

impl PointSet {
    /// No point is held twice.
    pub closed spec fn wf(self) -> bool {
        self.members.wf()
    }

    /// The members in the order in which `items` hands them out.
    pub closed spec fn order(self) -> Seq<Point> {
        self.members.key_order()
    }

    pub fn new() -> (set: Self)
        ensures
            set.wf(),
            set@ == Set::<Point>::empty(),
            set.order() == Seq::<Point>::empty(),
    {
        let set = PointSet { members: PointMap::new() };
        assert(set@ =~= Set::<Point>::empty());
        set
    }

    pub fn len(&self) -> (n: usize)
        requires
            self.wf(),
        ensures
            n == self@.len(),
            self@.finite(),
    {
        self.members.len()
    }

    pub fn is_empty(&self) -> (empty: bool)
        requires
            self.wf(),
        ensures
            empty == (self@ == Set::<Point>::empty()),
    {
        let empty = self.members.is_empty();
        proof {
            if empty {
                assert(self@ =~= Set::<Point>::empty());
            } else {
                if self@ == Set::<Point>::empty() {
                    assert(self.members@ =~= Map::<Point, ()>::empty());
                }
            }
        }
        empty
    }

    pub fn contains(&self, point: &Point) -> (found: bool)
        requires
            self.wf(),
        ensures
            found == self@.contains(*point),
    {
        self.members.contains_key(point)
    }

    /// Adds a point; one that is a member already keeps its place in the order.
    pub fn insert(&mut self, point: Point)
        requires
            old(self).wf(),
        ensures
            final(self).wf(),
            final(self)@ == old(self)@.insert(point),
            old(self)@.contains(point) ==> final(self).order() == old(self).order(),
            !old(self)@.contains(point) ==> final(self).order() == old(self).order().push(point),
    {
        self.members.insert(point, ());
        assert(self@ =~= old(self)@.insert(point));
    }

    /// Takes a point out, and says whether it was a member.
    pub fn remove(&mut self, point: &Point) -> (was_member: bool)
        requires
            old(self).wf(),
        ensures
            final(self).wf(),
            final(self)@ == old(self)@.remove(*point),
            was_member == old(self)@.contains(*point),
    {
        let removed = self.members.remove(point);
        assert(self@ =~= old(self)@.remove(*point));
        removed.is_some()
    }

    /// The members, each once, in order.
    pub fn items(&self) -> (items: Vec<Point>)
        requires
            self.wf(),
        ensures
            items@ == self.order(),
            items@.no_duplicates(),
            forall|p: Point| items@.contains(p) <==> self@.contains(p),
    {
        self.members.keys()
    }
}

} // verus!
