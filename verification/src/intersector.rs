//! Closest-hit search over a subtree of the scene graph.
//!
//! The caller measures a ray against every node's own surface and hands in
//! one [`RayTest`] per node. Whether and where the ray meets each surface is
//! decided from the measurements; the search then walks a subtree depth
//! first, children in insertion order and each node after its children, and
//! returns the first hit of least distance.

use crate::error::RenderError;
use crate::node_3d::{NodeKind, SceneGraph};
use crate::plane::PlaneTest;
use crate::sphere_node::SphereTest;
use vstd::prelude::*;

verus! {

/// A ray meeting a node's surface: which node, and the order key of the
/// distance along the ray.
#[derive(Clone, Copy, PartialEq, Eq, Debug, Structural)]
pub struct Hit {
    pub node: usize,
    pub distance: i64,
}

/// What was measured of a ray against one node.
#[derive(Clone, Copy, PartialEq, Eq, Debug, Structural)]
pub enum RayTest {
    /// Nothing: the node has no surface, or the caller left it out.
    Skipped,
    /// The measurements against a sphere.
    Sphere(SphereTest),
    /// The measurements against a plane.
    Plane(PlaneTest),
}

impl RayTest {
    /// The distance at which the ray meets the surface of a node of kind
    /// `kind`. Groups, cameras and lights have no surface, and measurements
    /// of the wrong shape count for nothing.
    pub open spec fn distance(self, kind: NodeKind) -> Option<i64> {
        match (kind, self) {
            (NodeKind::Sphere, RayTest::Sphere(test)) => test.distance(),
            (NodeKind::Plane, RayTest::Plane(test)) => test.meeting(),
            _ => None,
        }
    }

    /// One of the values that decide whether the ray meets a node of kind
    /// `kind` is not a number.
    pub open spec fn degenerate(self, kind: NodeKind) -> bool {
        match (kind, self) {
            (NodeKind::Sphere, RayTest::Sphere(test)) => test.degenerate(),
            (NodeKind::Plane, RayTest::Plane(test)) => test.degenerate(),
            _ => false,
        }
    }

    /// The distance at which the ray meets the surface of a node of kind
    /// `kind`, if the node has a surface and the ray meets it.
    pub fn intersect(&self, kind: NodeKind) -> (r: Option<i64>)
        ensures
            r == self.distance(kind),
            r matches Some(d) ==> d >= 0,
            !kind.geometric() ==> r is None,
    {
        match (kind, self) {
            (NodeKind::Sphere, RayTest::Sphere(test)) => test.intersect(),
            (NodeKind::Plane, RayTest::Plane(test)) => test.intersect(),
            _ => None,
        }
    }

    /// Whether one of the values that decide whether the ray meets a node
    /// of kind `kind` is not a number.
    pub fn is_degenerate(&self, kind: NodeKind) -> (r: bool)
        ensures
            r == self.degenerate(kind),
            !kind.geometric() ==> !r,
    {
        match (kind, self) {
            (NodeKind::Sphere, RayTest::Sphere(test)) => test.is_degenerate(),
            (NodeKind::Plane, RayTest::Plane(test)) => test.is_degenerate(),
            _ => false,
        }
    }
}

/// The better of the best hit so far and the next one found: the next one
/// wins only if it is strictly closer.
pub open spec fn nearer(best: Option<Hit>, next: Option<Hit>) -> Option<Hit> {
    match (best, next) {
        (None, _) => next,
        (Some(_), None) => best,
        (Some(b), Some(c)) => if c.distance < b.distance {
            next
        } else {
            best
        },
    }
}

/// The hit that the table `hits` holds for node `n`, if any.
pub open spec fn hit_at(hits: Seq<Option<i64>>, n: usize) -> Option<Hit> {
    if n < hits.len() {
        match hits[n as int] {
            Some(distance) => Some(Hit { node: n, distance }),
            None => None,
        }
    } else {
        None
    }
}

/// The first hit of least distance among the nodes of `order`, taken in that
/// order.
pub open spec fn closest_along(order: Seq<usize>, hits: Seq<Option<i64>>) -> Option<Hit>
    decreases order.len(),
{
    if order.len() == 0 {
        None
    } else {
        nearer(closest_along(order.drop_last(), hits), hit_at(hits, order.last()))
    }
}

/// Searching two stretches one after the other is searching each and keeping
/// the nearer result, the earlier one on a tie.
pub proof fn lemma_closest_along_append(a: Seq<usize>, b: Seq<usize>, hits: Seq<Option<i64>>)
    ensures
        closest_along(a + b, hits) == nearer(closest_along(a, hits), closest_along(b, hits)),
    decreases b.len(),
{
    if b.len() == 0 {
        assert(a + b =~= a);
    } else {
        assert((a + b).drop_last() =~= a + b.drop_last());
        assert((a + b).last() == b.last());
        lemma_closest_along_append(a, b.drop_last(), hits);
    }
}

/// The search finds nothing exactly when no node of the order has a hit.
pub proof fn lemma_closest_along_none(order: Seq<usize>, hits: Seq<Option<i64>>)
    ensures
        closest_along(order, hits) is None <==> forall|i: int|
            0 <= i < order.len() ==> hit_at(hits, #[trigger] order[i]) is None,
    decreases order.len(),
{
    if order.len() > 0 {
        let front = order.drop_last();
        lemma_closest_along_none(front, hits);
        if closest_along(order, hits) is None {
            assert forall|i: int| 0 <= i < order.len() implies hit_at(
                hits,
                #[trigger] order[i],
            ) is None by {
                if i < front.len() {
                    assert(front[i] == order[i]);
                }
            }
        } else {
            if closest_along(front, hits) is Some {
                let i = choose|i: int| 0 <= i < front.len() && hit_at(hits, #[trigger] front[i]) is Some;
                assert(order[i] == front[i]);
            } else {
                assert(hit_at(hits, order[order.len() - 1]) is Some);
            }
        }
    }
}

/// What the search finds is the hit of some node of the order, no node of
/// the order has a closer hit, and every earlier node with a hit is strictly
/// farther away.
pub proof fn lemma_closest_along_least(order: Seq<usize>, hits: Seq<Option<i64>>) -> (k: int)
    requires
        closest_along(order, hits) is Some,
    ensures
        0 <= k < order.len(),
        hit_at(hits, order[k]) == closest_along(order, hits),
        forall|j: int|
            0 <= j < order.len() && hit_at(hits, #[trigger] order[j]) is Some ==> closest_along(
                order,
                hits,
            )->0.distance <= hit_at(hits, order[j])->0.distance,
        forall|j: int|
            0 <= j < k && hit_at(hits, #[trigger] order[j]) is Some ==> closest_along(
                order,
                hits,
            )->0.distance < hit_at(hits, order[j])->0.distance,
    decreases order.len(),
{
    let front = order.drop_last();
    let last = order.len() - 1;
    if closest_along(front, hits) is Some {
        let k = lemma_closest_along_least(front, hits);
        assert forall|j: int| 0 <= j < front.len() implies front[j] == order[j] by {}
        if closest_along(order, hits) == closest_along(front, hits) {
            k
        } else {
            last
        }
    } else {
        lemma_closest_along_none(front, hits);
        assert forall|j: int| 0 <= j < front.len() implies hit_at(hits, #[trigger] order[j]) is None by {
            assert(front[j] == order[j]);
        }
        last
    }
}

/// Node `n` is marked.
pub open spec fn marked(marks: Seq<bool>, n: usize) -> bool {
    n < marks.len() && marks[n as int]
}

/// The first marked node of `order`, if there is one.
pub open spec fn first_along(order: Seq<usize>, marks: Seq<bool>) -> Option<usize>
    decreases order.len(),
{
    if order.len() == 0 {
        None
    } else {
        match first_along(order.drop_last(), marks) {
            Some(n) => Some(n),
            None => if marked(marks, order.last()) {
                Some(order.last())
            } else {
                None
            },
        }
    }
}

/// The earlier of two finds.
pub open spec fn earlier(first: Option<usize>, second: Option<usize>) -> Option<usize> {
    match first {
        Some(_) => first,
        None => second,
    }
}

/// The first marked node of two stretches is that of the first stretch, or
/// else that of the second.
pub proof fn lemma_first_along_append(a: Seq<usize>, b: Seq<usize>, marks: Seq<bool>)
    ensures
        first_along(a + b, marks) == earlier(first_along(a, marks), first_along(b, marks)),
    decreases b.len(),
{
    if b.len() == 0 {
        assert(a + b =~= a);
    } else {
        assert((a + b).drop_last() =~= a + b.drop_last());
        assert((a + b).last() == b.last());
        lemma_first_along_append(a, b.drop_last(), marks);
    }
}

/// The first marked node is marked and stands in the order with no marked
/// node before it; there is none exactly when no node of the order is
/// marked.
pub proof fn lemma_first_along(order: Seq<usize>, marks: Seq<bool>)
    ensures
        match first_along(order, marks) {
            Some(n) => exists|k: int|
                {
                    &&& 0 <= k < order.len()
                    &&& #[trigger] order[k] == n
                    &&& marked(marks, n)
                    &&& forall|j: int| 0 <= j < k ==> !marked(marks, #[trigger] order[j])
                },
            None => forall|i: int| 0 <= i < order.len() ==> !marked(marks, #[trigger] order[i]),
        },
    decreases order.len(),
{
    if order.len() > 0 {
        let front = order.drop_last();
        lemma_first_along(front, marks);
        assert forall|i: int| 0 <= i < front.len() implies front[i] == order[i] by {}
        match first_along(front, marks) {
            Some(n) => {
                let k = choose|k: int|
                    {
                        &&& 0 <= k < front.len()
                        &&& #[trigger] front[k] == n
                        &&& marked(marks, n)
                        &&& forall|j: int| 0 <= j < k ==> !marked(marks, #[trigger] front[j])
                    };
                assert(order[k] == n);
                assert forall|j: int| 0 <= j < k implies !marked(marks, #[trigger] order[j]) by {
                    assert(front[j] == order[j]);
                }
            },
            None => {
                if marked(marks, order.last()) {
                    let k = order.len() - 1;
                    assert(order[k] == order.last());
                    assert forall|j: int| 0 <= j < k implies !marked(marks, #[trigger] order[j]) by {
                        assert(front[j] == order[j]);
                    }
                } else {
                    assert forall|i: int| 0 <= i < order.len() implies !marked(
                        marks,
                        #[trigger] order[i],
                    ) by {
                        if i < front.len() {
                            assert(front[i] == order[i]);
                        }
                    }
                }
            },
        }
    }
}

impl<T: Copy, F: Fn(T, T) -> T> SceneGraph<T, F> {
    /// For each node, the distance at which the ray meets the node's own
    /// surface according to the measurements: nothing for groups, cameras
    /// and lights and for nodes that the measurements leave out.
    pub open spec fn self_hits(&self, tests: Seq<RayTest>) -> Seq<Option<i64>> {
        Seq::new(
            self@.len(),
            |n: int|
                if n < tests.len() {
                    tests[n].distance(self@[n].kind)
                } else {
                    None
                },
        )
    }

    /// The closest hit in the subtree of `node`: the first of least distance
    /// in depth-first order.
    pub open spec fn closest(&self, node: usize, tests: Seq<RayTest>) -> Option<Hit> {
        closest_along(self.shape().post_order(node), self.self_hits(tests))
    }

    /// For each node, whether its measurements are degenerate for its kind.
    pub open spec fn flaws(&self, tests: Seq<RayTest>) -> Seq<bool> {
        Seq::new(self@.len(), |n: int| n < tests.len() && tests[n].degenerate(self@[n].kind))
    }

    /// The first node of the subtree of `node`, in depth-first order, whose
    /// measurements are degenerate.
    pub open spec fn first_flaw(&self, node: usize, tests: Seq<RayTest>) -> Option<usize> {
        first_along(self.shape().post_order(node), self.flaws(tests))
    }

    /// What a ray sees in the subtree of `node`: an error if the
    /// measurements of one of its nodes are degenerate, and else the closest
    /// hit.
    pub open spec fn sight(&self, node: usize, tests: Seq<RayTest>) -> Result<
        Option<Hit>,
        RenderError,
    > {
        match self.first_flaw(node, tests) {
            Some(flawed) => Err(RenderError::DegenerateGeometry { node: flawed }),
            None => Ok(self.closest(node, tests)),
        }
    }

    /// Whether the measurements of `node` itself are degenerate.
    pub fn has_flaw(&self, node: usize, tests: &Vec<RayTest>) -> (r: bool)
        requires
            self.wf(),
        ensures
            r == marked(self.flaws(tests@), node),
    {
        match self.node(node) {
            Some(record) => node < tests.len() && tests[node].is_degenerate(record.kind),
            None => false,
        }
    }

    /// Finds the first node of the subtree of `node`, in depth-first order,
    /// whose measurements are degenerate. There is none in a subtree that
    /// does not exist.
    pub fn find_degenerate(&self, node: usize, tests: &Vec<RayTest>) -> (r: Option<usize>)
        requires
            self.wf(),
        ensures
            r == if node < self@.len() {
                self.first_flaw(node, tests@)
            } else {
                None
            },
        decreases self.shape().limit - self.shape().depth[node as int],
    {
        if node >= self.len() {
            return None;
        }
        let count = self.get_size(node);
        let ghost shape = self.shape();
        let ghost marks = self.flaws(tests@);
        let mut found: Option<usize> = None;
        let mut i: usize = 0;
        while i < count
            invariant
                self.wf(),
                shape == self.shape(),
                marks == self.flaws(tests@),
                node < self@.len(),
                count == shape.children[node as int].len(),
                i <= count,
                found == first_along(shape.post_order_prefix(node, i as nat), marks),
            decreases count - i,
        {
            let child = self.get_child(node, i).unwrap();
            let below = self.find_degenerate(child, tests);
            proof {
                lemma_first_along_append(
                    shape.post_order_prefix(node, i as nat),
                    shape.post_order(child),
                    marks,
                );
            }
            if found.is_none() {
                found = below;
            }
            i += 1;
        }
        proof {
            let prefix = shape.post_order_prefix(node, count as nat);
            assert(prefix.push(node).drop_last() =~= prefix);
        }
        if found.is_none() && self.has_flaw(node, tests) {
            found = Some(node);
        }
        found
    }

    /// Follows a ray through the subtree of `node`: fails if the
    /// measurements of one of its nodes are degenerate, and else finds the
    /// closest hit. A subtree that does not exist holds nothing to hit.
    pub fn trace(&self, node: usize, tests: &Vec<RayTest>) -> (r: Result<Option<Hit>, RenderError>)
        requires
            self.wf(),
        ensures
            r == if node < self@.len() {
                self.sight(node, tests@)
            } else {
                Ok(None)
            },
    {
        match self.find_degenerate(node, tests) {
            Some(flawed) => Err(RenderError::DegenerateGeometry { node: flawed }),
            None => Ok(self.closest_hit(node, tests)),
        }
    }

    /// The hit of `node` itself, if the ray meets its surface.
    pub fn intersect_self(&self, node: usize, tests: &Vec<RayTest>) -> (r: Option<Hit>)
        requires
            self.wf(),
        ensures
            r == hit_at(self.self_hits(tests@), node),
    {
        match self.node(node) {
            Some(record) => {
                if node < tests.len() {
                    match tests[node].intersect(record.kind) {
                        Some(distance) => Some(Hit { node, distance }),
                        None => None,
                    }
                } else {
                    None
                }
            },
            None => None,
        }
    }

    /// Finds the closest hit in the subtree of `node`, given what was
    /// measured of the ray against each node. Children are searched before
    /// their parent and in insertion order; a later hit replaces an earlier
    /// one only if it is strictly closer. Returns `None` if nothing in the
    /// subtree was hit, or if there is no node `node`.
    pub fn closest_hit(&self, node: usize, tests: &Vec<RayTest>) -> (r: Option<Hit>)
        requires
            self.wf(),
        ensures
            r == if node < self@.len() {
                self.closest(node, tests@)
            } else {
                None
            },
        decreases self.shape().limit - self.shape().depth[node as int],
    {
        if node >= self.len() {
            return None;
        }
        let count = self.get_size(node);
        let ghost shape = self.shape();
        let ghost hits = self.self_hits(tests@);
        let mut best: Option<Hit> = None;
        let mut i: usize = 0;
        while i < count
            invariant
                self.wf(),
                shape == self.shape(),
                hits == self.self_hits(tests@),
                node < self@.len(),
                count == shape.children[node as int].len(),
                i <= count,
                best == closest_along(shape.post_order_prefix(node, i as nat), hits),
            decreases count - i,
        {
            let child = self.get_child(node, i).unwrap();
            let found = self.closest_hit(child, tests);
            proof {
                lemma_closest_along_append(
                    shape.post_order_prefix(node, i as nat),
                    shape.post_order(child),
                    hits,
                );
            }
            best = pick_nearer(best, found);
            i += 1;
        }
        let own = self.intersect_self(node, tests);
        proof {
            let prefix = shape.post_order_prefix(node, count as nat);
            assert(prefix.push(node).drop_last() =~= prefix);
        }
        pick_nearer(best, own)
    }

    /// What [`Self::find_degenerate`] returns, said without the order of the
    /// walk: nothing, exactly when no node of the subtree has degenerate
    /// measurements; otherwise a node of the subtree that has.
    pub proof fn lemma_flaw_in_subtree(&self, node: usize, tests: Seq<RayTest>)
        requires
            self.wf(),
            node < self@.len(),
        ensures
            self.first_flaw(node, tests) is None <==> forall|m: usize|
                self.shape().has(m) && self.shape().within(node, m) ==> !#[trigger] marked(
                    self.flaws(tests),
                    m,
                ),
            self.first_flaw(node, tests) matches Some(flawed) ==> {
                &&& self.shape().has(flawed)
                &&& self.shape().within(node, flawed)
                &&& flawed < tests.len()
                &&& tests[flawed as int].degenerate(self@[flawed as int].kind)
            },
    {
        let shape = self.shape();
        let order = shape.post_order(node);
        let marks = self.flaws(tests);
        lemma_first_along(order, marks);
        assert forall|i: int| 0 <= i < order.len() implies shape.has(#[trigger] order[i])
            && shape.within(node, order[i]) by {
            assert(order.contains(order[i]));
            shape.lemma_post_order_members(node, order[i]);
        }
        if first_along(order, marks) is None {
            assert forall|m: usize| shape.has(m) && shape.within(node, m) implies !#[trigger] marked(
                marks,
                m,
            ) by {
                shape.lemma_post_order_members(node, m);
                let i = order.index_of(m);
                assert(order[i] == m);
            }
        }
    }

    /// What [`Self::closest_hit`] returns, said without the order of the
    /// walk: nothing, exactly when the ray meets no surface of the subtree;
    /// otherwise a node of the subtree with the distance at which the ray
    /// meets it, which no other node of the subtree undercuts.
    pub proof fn lemma_closest_in_subtree(&self, node: usize, tests: Seq<RayTest>)
        requires
            self.wf(),
            node < self@.len(),
        ensures
            self.closest(node, tests) is None <==> forall|m: usize|
                self.shape().has(m) && self.shape().within(node, m) ==> #[trigger] hit_at(
                    self.self_hits(tests),
                    m,
                ) is None,
            self.closest(node, tests) matches Some(hit) ==> {
                &&& self.shape().has(hit.node)
                &&& self.shape().within(node, hit.node)
                &&& hit.node < tests.len()
                &&& self@[hit.node as int].kind.geometric()
                &&& hit.distance >= 0
                &&& tests[hit.node as int].distance(self@[hit.node as int].kind) == Some(
                    hit.distance,
                )
                &&& forall|m: usize|
                    self.shape().has(m) && self.shape().within(node, m) ==> match #[trigger] hit_at(
                        self.self_hits(tests),
                        m,
                    ) {
                        Some(other) => hit.distance <= other.distance,
                        None => true,
                    }
            },
    {
        let shape = self.shape();
        let order = shape.post_order(node);
        let hits = self.self_hits(tests);
        lemma_closest_along_none(order, hits);
        assert forall|m: usize| shape.has(m) && shape.within(node, m) implies order.contains(m) by {
            shape.lemma_post_order_members(node, m);
        }
        assert forall|i: int| 0 <= i < order.len() implies shape.has(#[trigger] order[i])
            && shape.within(node, order[i]) by {
            assert(order.contains(order[i]));
            shape.lemma_post_order_members(node, order[i]);
        }
        if closest_along(order, hits) is None {
            assert forall|m: usize| shape.has(m) && shape.within(node, m) implies #[trigger] hit_at(
                hits,
                m,
            ) is None by {
                let i = order.index_of(m);
                assert(order[i] == m);
            }
        } else {
            let k = lemma_closest_along_least(order, hits);
            let hit = closest_along(order, hits)->0;
            assert(hit.node == order[k]);
            assert forall|m: usize| shape.has(m) && shape.within(node, m) implies match #[trigger] hit_at(
                hits,
                m,
            ) {
                Some(other) => hit.distance <= other.distance,
                None => true,
            } by {
                let i = order.index_of(m);
                assert(order[i] == m);
            }
        }
    }
}

/// Keeps `best` unless `next` is strictly closer.
pub fn pick_nearer(best: Option<Hit>, next: Option<Hit>) -> (r: Option<Hit>)
    ensures
        r == nearer(best, next),
{
    match (best, next) {
        (None, _) => next,
        (Some(_), None) => best,
        (Some(b), Some(c)) => if c.distance < b.distance {
            next
        } else {
            best
        },
    }
}

} // verus!
