//! The scene graph: an arena of placed nodes.
//!
//! Nodes are addressed by their index in the arena. Each node carries a frame
//! transform (its placement relative to its parent) and a world transform
//! (its placement relative to the root above it). The graph is generic in the
//! transform type and owns the operation that composes two transforms, so the
//! rule `world(n) = world(parent(n)) * frame(n)` is an invariant of the graph
//! rather than a convention of its callers.
//!
//! World transforms are baked when a node is attached and never recomputed.
//! That is sound here because the graph only grows: a frame is fixed when its
//! node is added, a node is attached once, and nothing is ever detached, so a
//! baked world transform cannot go stale.

use crate::forest::Forest;
use crate::light::Light;
use crate::scene_items::Color;
use vstd::prelude::*;

verus! {

/// What a node is. Only spheres and planes have a surface that a ray can hit.
#[derive(Clone, Copy, PartialEq, Eq, Debug, Structural)]
pub enum NodeKind {
    /// Pure composition: groups children under one placement.
    Group,
    /// A sphere centred where the node's world transform puts the origin.
    Sphere,
    /// A finite square patch oriented by the node's world transform.
    Plane,
    /// A camera.
    Camera,
    /// A light; a spherical one sits where the node's world transform puts
    /// the origin.
    Light(Light),
}

impl NodeKind {
    /// Whether a ray can hit the node itself.
    #[verifier::inline]
    pub open spec fn geometric(self) -> bool {
        self is Sphere || self is Plane
    }

    /// Whether the node emits light.
    #[verifier::inline]
    pub open spec fn luminous(self) -> bool {
        self is Light
    }

    /// Whether a ray can hit the node itself.
    pub fn has_geometry(&self) -> (r: bool)
        ensures
            r == self.geometric(),
    {
        match self {
            NodeKind::Sphere => true,
            NodeKind::Plane => true,
            _ => false,
        }
    }

    /// Whether the node emits light.
    pub fn is_light(&self) -> (r: bool)
        ensures
            r == self.luminous(),
    {
        match self {
            NodeKind::Light(_) => true,
            _ => false,
        }
    }
}

/// One node of the graph: its name, kind, colour and the two placements.
pub struct Node3D<T> {
    pub name: String,
    pub kind: NodeKind,
    /// The colour of the node's surface or of its light.
    pub color: Color,
    /// Placement relative to the parent.
    pub frame_transform: T,
    /// Placement relative to the root, baked when the node was attached.
    pub world_transform: T,
}

impl<T: Copy> Node3D<T> {
    /// A detached node: its world transform is its frame transform.
    pub fn new(name: String, kind: NodeKind, transform: T, color: Color) -> (node: Self)
        ensures
            node == (Node3D {
                name,
                kind,
                color,
                frame_transform: transform,
                world_transform: transform,
            }),
    {
        Node3D { name, kind, color, frame_transform: transform, world_transform: transform }
    }

    /// The colour that the node shows: its own if it is a sphere, a plane or
    /// a light, and black if it is a group or a camera.
    pub open spec fn shown_color(self) -> Color {
        if self.kind.geometric() || self.kind.luminous() {
            self.color
        } else {
            Color { red: 0, green: 0, blue: 0 }
        }
    }

    /// The colour that the node shows: its own if it is a sphere, a plane or
    /// a light, and black if it is a group or a camera.
    pub fn get_color(&self) -> (color: Color)
        ensures
            color == self.shown_color(),
    {
        if self.kind.has_geometry() || self.kind.is_light() {
            self.color
        } else {
            Color::new_rgb(0, 0, 0)
        }
    }
}

/// An arena of nodes with parent and child links and the operation `compose`
/// that places a frame inside a world: `compose(world_of_parent, frame)`.
pub struct SceneGraph<T, F> {
    nodes: Vec<Node3D<T>>,
    parents: Vec<Option<usize>>,
    children: Vec<Vec<usize>>,
    compose: F,
    depth: Ghost<Seq<nat>>,
    limit: Ghost<nat>,
}

impl<T, F> View for SceneGraph<T, F> {
    type V = Seq<Node3D<T>>;

    /// The nodes by index.
    closed spec fn view(&self) -> Seq<Node3D<T>> {
        self.nodes@
    }
}

impl<T: Copy, F: Fn(T, T) -> T> SceneGraph<T, F> {
    /// The links between the nodes.
    pub closed spec fn shape(&self) -> Forest {
        Forest {
            parent: self.parents@,
            children: Seq::new(self.children@.len(), |n: int| self.children@[n]@),
            depth: self.depth@,
            limit: self.limit@,
        }
    }

    /// The operation that composes a parent's world transform with a frame.
    pub closed spec fn composition(&self) -> F {
        self.compose
    }

    /// Node `n` is placed where its links say: a root sits at its frame, and
    /// the world transform of any other node is a result of composing its
    /// parent's world transform with its own frame.
    pub open spec fn placed(&self, n: int) -> bool {
        match self.shape().parent[n] {
            Some(p) => call_ensures(
                self.composition(),
                (self@[p as int].world_transform, self@[n].frame_transform),
                self@[n].world_transform,
            ),
            None => self@[n].world_transform == self@[n].frame_transform,
        }
    }

    /// The links form a forest over the nodes, the composition accepts every
    /// pair of transforms, and every node is placed.
    pub open spec fn wf(&self) -> bool {
        &&& self.shape().wf()
        &&& self.shape().len() == self@.len()
        &&& forall|a: T, b: T| call_requires(self.composition(), (a, b))
        &&& forall|n: int| 0 <= n < self@.len() ==> #[trigger] self.placed(n)
    }

    /// The graph without nodes.
    pub fn new(compose: F) -> (graph: Self)
        requires
            forall|a: T, b: T| call_requires(compose, (a, b)),
        ensures
            graph.wf(),
            graph@.len() == 0,
            graph.composition() == compose,
    {
        SceneGraph {
            nodes: Vec::new(),
            parents: Vec::new(),
            children: Vec::new(),
            compose,
            depth: Ghost(Seq::empty()),
            limit: Ghost(1),
        }
    }

    /// The number of nodes.
    pub fn len(&self) -> (n: usize)
        ensures
            n == self@.len(),
    {
        self.nodes.len()
    }

    /// Adds a detached node and returns its index.
    pub fn add_node(&mut self, name: String, kind: NodeKind, transform: T, color: Color) -> (id:
        usize)
        requires
            old(self).wf(),
        ensures
            final(self).wf(),
            id == old(self)@.len(),
            final(self)@ == old(self)@.push(
                (Node3D {
                    name,
                    kind,
                    color,
                    frame_transform: transform,
                    world_transform: transform,
                }),
            ),
            final(self).shape() == old(self).shape().with_root(),
            final(self).composition() == old(self).composition(),
    {
        self.nodes.push(Node3D::new(name, kind, transform, color));
        self.parents.push(None);
        self.children.push(Vec::new());
        let id = self.nodes.len() - 1;
        proof {
            self.depth@ = self.depth@.push(0);
            self.limit@ = self.limit@ + 1;
            let before = old(self).shape();
            before.lemma_with_root();
            assert(self.shape().children =~= before.with_root().children);
            assert(self.shape() == before.with_root());
            assert forall|n: int| 0 <= n < self@.len() implies #[trigger] self.placed(n) by {
                if n < id {
                    assert(old(self).placed(n));
                }
            }
            assert forall|a: T, b: T| call_requires(self.composition(), (a, b)) by {
                assert(call_requires(old(self).composition(), (a, b)));
            }
        }
        id
    }

    /// The node at index `n`, if there is one.
    pub fn node(&self, n: usize) -> (r: Option<&Node3D<T>>)
        ensures
            r == if n < self@.len() {
                Some(&self@[n as int])
            } else {
                None
            },
    {
        if n < self.nodes.len() {
            Some(&self.nodes[n])
        } else {
            None
        }
    }

    /// The world transform of node `n`, if there is such a node.
    pub fn get_world_transform(&self, n: usize) -> (r: Option<T>)
        ensures
            r == if n < self@.len() {
                Some(self@[n as int].world_transform)
            } else {
                None
            },
    {
        if n < self.nodes.len() {
            Some(self.nodes[n].world_transform)
        } else {
            None
        }
    }

    /// The colour that node `n` shows, if there is such a node.
    pub fn get_color(&self, n: usize) -> (r: Option<Color>)
        ensures
            r == if n < self@.len() {
                Some(self@[n as int].shown_color())
            } else {
                None
            },
    {
        if n < self.nodes.len() {
            Some(self.nodes[n].get_color())
        } else {
            None
        }
    }

    /// The children of node `n` in insertion order, if there is such a node.
    pub fn get_children(&self, n: usize) -> (r: Option<&Vec<usize>>)
        requires
            self.wf(),
        ensures
            match r {
                Some(children) => n < self@.len() && children@ == self.shape().children[n as int],
                None => n >= self@.len(),
            },
    {
        if n < self.children.len() {
            Some(&self.children[n])
        } else {
            None
        }
    }

    /// The parent of node `n`; `None` for a root and for an index without a
    /// node.
    pub fn get_parent(&self, n: usize) -> (r: Option<usize>)
        requires
            self.wf(),
        ensures
            r == if n < self@.len() {
                self.shape().parent[n as int]
            } else {
                None
            },
    {
        if n < self.parents.len() {
            self.parents[n]
        } else {
            None
        }
    }

    /// The number of children of node `n`; zero for an index without a node.
    pub fn get_size(&self, n: usize) -> (r: usize)
        requires
            self.wf(),
        ensures
            r == if n < self@.len() {
                self.shape().children[n as int].len()
            } else {
                0
            },
    {
        if n < self.children.len() {
            self.children[n].len()
        } else {
            0
        }
    }

    /// The child of node `n` at position `index` in insertion order, if both
    /// exist.
    pub fn get_child(&self, n: usize, index: usize) -> (r: Option<usize>)
        requires
            self.wf(),
        ensures
            r == if n < self@.len() && index < self.shape().children[n as int].len() {
                Some(self.shape().children[n as int][index as int])
            } else {
                None
            },
    {
        if n < self.children.len() && index < self.children[n].len() {
            Some(self.children[n][index])
        } else {
            None
        }
    }

    /// Whether `child` may be attached below `parent`: both exist, `child`
    /// has no parent yet, and `parent` is neither `child` nor one of its
    /// descendants.
    pub fn can_attach(&self, parent: usize, child: usize) -> (r: bool)
        requires
            self.wf(),
        ensures
            r == self.shape().attachable(parent, child),
    {
        if parent >= self.parents.len() || child >= self.parents.len() {
            return false;
        }
        if self.parents[child].is_some() {
            return false;
        }
        let mut cur = parent;
        loop
            invariant
                self.wf(),
                cur < self@.len(),
                child < self@.len(),
                parent < self@.len(),
                self.shape().parent[child as int] is None,
                self.shape().within(child, parent) == self.shape().within(child, cur),
            decreases self.shape().depth[cur as int],
        {
            if cur == child {
                return false;
            }
            match self.parents[cur] {
                None => {
                    return true;
                },
                Some(p) => {
                    cur = p;
                },
            }
        }
    }

    /// Appends `child` to the children of `parent` and places the whole
    /// subtree of `child` below it: the world transform of `child` becomes
    /// the composition of `parent`'s world transform with `child`'s frame, and
    /// so on down to every descendant. Nodes outside that subtree keep their
    /// placement.
    ///
    /// Returns `false`, and changes nothing, if `child` cannot be attached
    /// there (see [`Self::can_attach`]).
    pub fn attach_child(&mut self, parent: usize, child: usize) -> (attached: bool)
        requires
            old(self).wf(),
        ensures
            attached == old(self).shape().attachable(parent, child),
            !attached ==> *final(self) == *old(self),
            attached ==> final(self).attached_from(*old(self), parent, child),
    {
        if !self.can_attach(parent, child) {
            return false;
        }
        self.parents[child] = Some(parent);
        self.children[parent].push(child);
        proof {
            let before = old(self).shape();
            let after = before.attach(parent, child);
            self.depth@ = after.depth;
            self.limit@ = after.limit;
            before.lemma_attach_wf(parent, child);
            assert(self.shape().children =~= after.children);
            assert(self.shape() == after);
            assert(self.composition() == old(self).composition());
            assert(self@ == old(self)@);
        }
        self.rebake(child);
        proof {
            let before = old(self).shape();
            let after = self.shape();
            assert(before.within(child, child));
            assert forall|n: usize| before.has(n) implies after.within(child, n) == before.within(
                child,
                n,
            ) by {
                before.lemma_attach_within(parent, child, child, n);
            }
            assert forall|n: int| 0 <= n < self@.len() implies #[trigger] self.placed(n) by {
                before.lemma_attach_within(parent, child, child, n as usize);
                if !before.within(child, n as usize) {
                    assert(old(self).placed(n));
                    assert(self@[n] == old(self)@[n]);
                    assert(after.parent[n] == before.parent[n]);
                    match before.parent[n] {
                        Some(p) => {
                            assert(before.within(child, n as usize) == before.within(child, p));
                            before.lemma_attach_within(parent, child, child, p);
                            assert(self@[p as int] == old(self)@[p as int]);
                        },
                        None => {},
                    }
                }
            }
            assert forall|a: T, b: T| call_requires(self.composition(), (a, b)) by {
                assert(call_requires(old(self).composition(), (a, b)));
            }
            assert(self.wf());
            assert forall|n: int|
                0 <= n < self@.len() && !before.within(child, n as usize) implies #[trigger] self@[n]
                == old(self)@[n] by {
                before.lemma_attach_within(parent, child, child, n as usize);
            }
            assert(self.attached_from(*old(self), parent, child));
        }
        true
    }

    /// How the graph `self` arises from `before` when `child` is attached
    /// below `parent`: one more link, the same nodes with the same names,
    /// kinds and frames, unchanged world transforms outside the subtree of
    /// `child`, and every node placed, those of the subtree included.
    pub open spec fn attached_from(&self, before: Self, parent: usize, child: usize) -> bool {
        &&& self.wf()
        &&& self.composition() == before.composition()
        &&& self.shape() == before.shape().attach(parent, child)
        &&& self@.len() == before@.len()
        &&& forall|n: int|
            0 <= n < self@.len() ==> {
                &&& (#[trigger] self@[n]).name == before@[n].name
                &&& self@[n].kind == before@[n].kind
                &&& self@[n].color == before@[n].color
                &&& self@[n].frame_transform == before@[n].frame_transform
            }
        &&& forall|n: int|
            0 <= n < self@.len() && !before.shape().within(child, n as usize) ==> #[trigger] self@[n]
                == before@[n]
        &&& forall|n: usize|
            before.shape().has(n) ==> self.shape().within(child, n) == before.shape().within(
                child,
                n,
            )
    }

    /// `world` is a result of carrying the transform `start` down the path
    /// from `top` to `n`: of composing it with the frame of `top`, the result
    /// with the frame of the next node on the path, and so on to the frame
    /// of `n`.
    pub open spec fn carried(&self, start: T, top: usize, n: usize, world: T) -> bool
        decreases self.shape().depth[n as int],
        when self.shape().wf() && self.shape().has(n)
    {
        if n == top {
            call_ensures(self.composition(), (start, self@[n as int].frame_transform), world)
        } else {
            match self.shape().parent[n as int] {
                Some(p) => exists|above: T|
                    self.carried(start, top, p, above) && #[trigger] call_ensures(
                        self.composition(),
                        (above, self@[n as int].frame_transform),
                        world,
                    ),
                None => false,
            }
        }
    }

    /// The world transform of every node of a subtree is the world transform
    /// of the subtree's parent carried down the path to the node.
    pub proof fn lemma_world_along_path(&self, top: usize, n: usize)
        requires
            self.wf(),
            self.shape().has(n),
            self.shape().within(top, n),
            self.shape().parent[top as int] is Some,
        ensures
            self.carried(
                self@[self.shape().parent[top as int]->0 as int].world_transform,
                top,
                n,
                self@[n as int].world_transform,
            ),
        decreases self.shape().depth[n as int],
    {
        assert(self.placed(n as int));
        if n != top {
            let p = self.shape().parent[n as int]->0;
            self.lemma_world_along_path(top, p);
        }
    }

    /// Right after `child` was attached below `parent`, the world transform
    /// of every node of the subtree of `child` is the world transform of
    /// `parent`, which the attachment left alone, carried down the path from
    /// `child` to the node.
    pub proof fn lemma_attached_subtree_placed(
        &self,
        before: Self,
        parent: usize,
        child: usize,
        n: usize,
    )
        requires
            before.wf(),
            before.shape().attachable(parent, child),
            self.attached_from(before, parent, child),
            before.shape().has(n),
            before.shape().within(child, n),
        ensures
            self@[parent as int].world_transform == before@[parent as int].world_transform,
            self.carried(
                before@[parent as int].world_transform,
                child,
                n,
                self@[n as int].world_transform,
            ),
    {
        self.lemma_world_along_path(child, n);
    }

    /// Places `node` below its parent and then every node of its subtree,
    /// top down.
    fn rebake(&mut self, node: usize)
        requires
            old(self).shape().wf(),
            old(self).shape().len() == old(self)@.len(),
            forall|a: T, b: T| call_requires(old(self).composition(), (a, b)),
            node < old(self)@.len(),
            old(self).shape().parent[node as int] is Some,
        ensures
            final(self).shape() == old(self).shape(),
            final(self).composition() == old(self).composition(),
            final(self)@.len() == old(self)@.len(),
            forall|n: int|
                0 <= n < final(self)@.len() ==> {
                    &&& (#[trigger] final(self)@[n]).name == old(self)@[n].name
                    &&& final(self)@[n].kind == old(self)@[n].kind
                    &&& final(self)@[n].color == old(self)@[n].color
                    &&& final(self)@[n].frame_transform == old(self)@[n].frame_transform
                },
            forall|n: int|
                0 <= n < final(self)@.len() && !old(self).shape().within(node, n as usize)
                    ==> #[trigger] final(self)@[n] == old(self)@[n],
            forall|n: int|
                0 <= n < final(self)@.len() && old(self).shape().within(node, n as usize)
                    ==> #[trigger] final(self).placed(n),
        decreases old(self).shape().limit - old(self).shape().depth[node as int],
    {
        let ghost shape = self.shape();
        let ghost entry = self@;
        let parent = self.parents[node].unwrap();
        assert(self.composition() == self.compose);
        let world = (self.compose)(
            self.nodes[parent].world_transform,
            self.nodes[node].frame_transform,
        );
        self.nodes[node].world_transform = world;
        let count = self.children[node].len();
        proof {
            shape.lemma_within_depth(node, node);
            assert(shape.within(node, node));
            assert(!shape.within(node, parent)) by {
                if shape.within(node, parent) {
                    shape.lemma_within_depth(node, parent);
                }
            }
        }
        let mut i: usize = 0;
        while i < count
            invariant
                i <= count,
                count == shape.children[node as int].len(),
                shape.wf(),
                self.shape() == shape,
                old(self).shape() == shape,
                self.composition() == old(self).composition(),
                forall|a: T, b: T| call_requires(self.composition(), (a, b)),
                self@.len() == entry.len(),
                shape.len() == entry.len(),
                node < entry.len(),
                shape.parent[node as int] == Some(parent),
                !shape.within(node, parent),
                forall|n: int|
                    0 <= n < self@.len() ==> {
                        &&& (#[trigger] self@[n]).name == entry[n].name
                        &&& self@[n].kind == entry[n].kind
                        &&& self@[n].color == entry[n].color
                        &&& self@[n].frame_transform == entry[n].frame_transform
                    },
                forall|n: int|
                    0 <= n < self@.len() && !shape.within(node, n as usize) ==> #[trigger] self@[n]
                        == entry[n],
                self.placed(node as int),
                forall|n: int, j: int|
                    0 <= n < self@.len() && 0 <= j < i && shape.within(
                        #[trigger] shape.children[node as int][j],
                        n as usize,
                    ) ==> #[trigger] self.placed(n),
            decreases count - i,
        {
            let c = self.children[node][i];
            let ghost snap = *self;
            let ghost mid = self@;
            proof {
                assert(shape.children[node as int][i as int] == c);
                assert(shape.parent[c as int] == Some(node));
            }
            self.rebake(c);
            proof {
                assert(shape.within(node, node));
                assert(shape.within(node, c));
                assert(!shape.within(c, node)) by {
                    if shape.within(c, node) {
                        shape.lemma_within_depth(c, node);
                    }
                }
                assert(!shape.within(c, parent)) by {
                    if shape.within(c, parent) {
                        shape.lemma_within_transitive(node, c, parent);
                    }
                }
                assert forall|n: int|
                    0 <= n < self@.len() && !shape.within(node, n as usize) implies #[trigger] self@[n]
                    == entry[n] by {
                    if shape.within(c, n as usize) {
                        shape.lemma_within_transitive(node, c, n as usize);
                    }
                }
                assert(self@[node as int] == mid[node as int]);
                assert(self@[parent as int] == mid[parent as int]);
                assert(snap.placed(node as int));
                assert forall|n: int, j: int|
                    0 <= n < self@.len() && 0 <= j < i + 1 && shape.within(
                        #[trigger] shape.children[node as int][j],
                        n as usize,
                    ) implies #[trigger] self.placed(n) by {
                    if j < i {
                        let s = shape.children[node as int][j];
                        shape.lemma_siblings_disjoint(node, j, i as int, n as usize);
                        assert(self@[n] == mid[n]);
                        let up = shape.parent[n].unwrap();
                        if n == s {
                            assert(up == node);
                        } else {
                            assert(shape.within(s, up));
                            shape.lemma_siblings_disjoint(node, j, i as int, up);
                        }
                        assert(self@[up as int] == mid[up as int]);
                        assert(snap.placed(n));
                    }
                }
            }
            i += 1;
        }
        proof {
            assert forall|n: int|
                0 <= n < self@.len() && shape.within(node, n as usize) implies #[trigger] self.placed(
                n,
            ) by {
                if n != node {
                    let j = shape.lemma_within_some_child(node, n as usize);
                }
            }
        }
    }
}

} // verus!
