//! A scene: a graph, the node that rendering starts from, and the lights.

use crate::error::RenderError;
use crate::intersector::{closest_along, first_along, hit_at, marked, Hit, RayTest};
use crate::light::{in_light, lit, Light, ShadowProbe};
use crate::node_3d::{NodeKind, SceneGraph};
use crate::render_system::RenderSystem;
use vstd::prelude::*;
use vstd::string::*;

verus! {

/// A scene graph with a chosen root, an ordered collection of lights and the
/// renderer that draws it.
pub struct Scene<T, F> {
    name: String,
    graph: SceneGraph<T, F>,
    root: usize,
    lights: Vec<usize>,
    renderer: RenderSystem,
}

impl<T: Copy, F: Fn(T, T) -> T> Scene<T, F> {
    pub closed spec fn name(&self) -> Seq<char> {
        self.name@
    }

    pub closed spec fn graph(&self) -> SceneGraph<T, F> {
        self.graph
    }

    /// The node whose subtree is rendered.
    pub closed spec fn root(&self) -> usize {
        self.root
    }

    /// The nodes that light the scene, in the order they were added.
    pub closed spec fn lights(&self) -> Seq<usize> {
        self.lights@
    }

    pub closed spec fn renderer(&self) -> RenderSystem {
        self.renderer
    }

    /// The kind of light that node `node` is, if it is a light.
    pub open spec fn light_kind(&self, node: usize) -> Option<Light> {
        if node < self.graph()@.len() {
            match self.graph()@[node as int].kind {
                NodeKind::Light(kind) => Some(kind),
                _ => None,
            }
        } else {
            None
        }
    }

    /// The graph is well formed, the root is one of its nodes and every
    /// light is one of its light nodes.
    pub open spec fn wf(&self) -> bool {
        &&& self.graph().wf()
        &&& self.root() < self.graph()@.len()
        &&& forall|i: int|
            0 <= i < self.lights().len() ==> self.light_kind(#[trigger] self.lights()[i]) is Some
    }

    /// The scene holds nothing to see: the root has no children and no
    /// surface of its own.
    pub open spec fn bare(&self) -> bool {
        &&& self.graph().shape().children[self.root() as int].len() == 0
        &&& !self.graph()@[self.root() as int].kind.geometric()
    }

    /// What a ray sees in the scene, given what was measured of it against
    /// each node: an error if the measurements of a node under the root are
    /// degenerate, and else the closest hit.
    pub open spec fn sight(&self, tests: Seq<RayTest>) -> Result<Option<Hit>, RenderError> {
        self.graph().sight(self.root(), tests)
    }

    /// Whether light number `light` reaches a surface point, given the
    /// separation of the two and what was measured of the shadow ray from
    /// the point towards the light. A directional light reaches the point
    /// if the shadow ray meets nothing; a spherical light also if the
    /// closest hit is no nearer than the light. A light that the scene does
    /// not have reaches nothing. There is no answer if the separation counts
    /// and is not a number, or if the measurements of a node are degenerate.
    pub open spec fn shadow(&self, light: int, separation: i64, tests: Seq<RayTest>) -> Result<
        bool,
        RenderError,
    > {
        if 0 <= light < self.lights().len() {
            match self.light_kind(self.lights()[light]) {
                Some(kind) => if kind.degenerate(separation) {
                    Err(RenderError::DegenerateGeometry { node: self.lights()[light] })
                } else {
                    match self.sight(tests) {
                        Ok(hit) => Ok(lit(hit, kind.reach(separation))),
                        Err(e) => Err(e),
                    }
                },
                None => Ok(false),
            }
        } else {
            Ok(false)
        }
    }

    /// What the probes say of the light numbers below `count`: for each
    /// whether it reaches the point, or the first error. A light without a
    /// probe reaches nothing.
    pub open spec fn shadows(&self, probes: Seq<ShadowProbe>, count: nat) -> Result<
        Seq<bool>,
        RenderError,
    >
        decreases count,
    {
        if count == 0 {
            Ok(Seq::empty())
        } else {
            match self.shadows(probes, (count - 1) as nat) {
                Err(e) => Err(e),
                Ok(seen) => if count - 1 < probes.len() {
                    match self.shadow(
                        count - 1,
                        probes[count - 1].separation,
                        probes[count - 1].tests@,
                    ) {
                        Ok(reached) => Ok(seen.push(reached)),
                        Err(e) => Err(e),
                    }
                } else {
                    Ok(seen.push(false))
                },
            }
        }
    }

    /// A scene over `graph` that is rendered from `root`, without lights and
    /// with a renderer that writes to `output.png`. There is no such scene
    /// if `root` is not a node of the graph.
    pub fn new(name: String, graph: SceneGraph<T, F>, root: usize) -> (scene: Option<Self>)
        requires
            graph.wf(),
        ensures
            scene is Some <==> root < graph@.len(),
            scene matches Some(s) ==> {
                &&& s.wf()
                &&& s.name() == name@
                &&& s.graph() == graph
                &&& s.root() == root
                &&& s.lights().len() == 0
                &&& s.renderer().output_path@ == "output.png"@
            },
    {
        if root < graph.len() {
            Some(
                Scene {
                    name,
                    graph,
                    root,
                    lights: Vec::new(),
                    renderer: RenderSystem { output_path: String::from_str("output.png") },
                },
            )
        } else {
            None
        }
    }

    /// Makes `node` the root. Returns `false`, and changes nothing, if there
    /// is no such node.
    pub fn add_root(&mut self, node: usize) -> (done: bool)
        requires
            old(self).wf(),
        ensures
            done == (node < old(self).graph()@.len()),
            done ==> {
                &&& final(self).wf()
                &&& final(self).root() == node
                &&& final(self).name() == old(self).name()
                &&& final(self).graph() == old(self).graph()
                &&& final(self).lights() == old(self).lights()
                &&& final(self).renderer() == old(self).renderer()
            },
            !done ==> *final(self) == *old(self),
    {
        if node < self.graph.len() {
            self.root = node;
            true
        } else {
            false
        }
    }

    /// Appends `node` to the lights. Returns `false`, and changes nothing,
    /// if `node` is not a light of the graph.
    pub fn add_light(&mut self, node: usize) -> (done: bool)
        requires
            old(self).wf(),
        ensures
            done == (old(self).light_kind(node) is Some),
            done ==> {
                &&& final(self).wf()
                &&& final(self).lights() == old(self).lights().push(node)
                &&& final(self).name() == old(self).name()
                &&& final(self).graph() == old(self).graph()
                &&& final(self).root() == old(self).root()
                &&& final(self).renderer() == old(self).renderer()
            },
            !done ==> *final(self) == *old(self),
    {
        let is_light = match self.graph.node(node) {
            Some(record) => record.kind.is_light(),
            None => false,
        };
        if is_light {
            self.lights.push(node);
            proof {
                assert forall|i: int| 0 <= i < self.lights().len() implies self.light_kind(
                    #[trigger] self.lights()[i],
                ) is Some by {
                    if i < old(self).lights().len() {
                        assert(self.lights()[i] == old(self).lights()[i]);
                    }
                }
            }
        }
        is_light
    }

    pub fn get_name(&self) -> (name: &String)
        ensures
            name@ == self.name(),
    {
        &self.name
    }

    pub fn get_graph(&self) -> (graph: &SceneGraph<T, F>)
        ensures
            *graph == self.graph(),
    {
        &self.graph
    }

    pub fn get_root(&self) -> (root: usize)
        ensures
            root == self.root(),
    {
        self.root
    }

    pub fn get_lights(&self) -> (lights: &Vec<usize>)
        ensures
            lights@ == self.lights(),
    {
        &self.lights
    }

    pub fn get_renderer(&self) -> (renderer: &RenderSystem)
        ensures
            *renderer == self.renderer(),
    {
        &self.renderer
    }

    /// Follows a ray through the scene, given what was measured of it
    /// against each node: fails if the measurements of a node under the root
    /// are degenerate, and else finds the closest hit.
    pub fn closest_hit(&self, tests: &Vec<RayTest>) -> (r: Result<Option<Hit>, RenderError>)
        requires
            self.wf(),
        ensures
            r == self.sight(tests@),
    {
        self.graph.trace(self.root, tests)
    }

    /// Whether light number `light` reaches the surface point that `probe`
    /// was taken for: whether the shadow ray from the point meets no surface
    /// of the scene before the light.
    pub fn light_reaches(&self, light: usize, probe: &ShadowProbe) -> (r: Result<bool, RenderError>)
        requires
            self.wf(),
        ensures
            r == self.shadow(light as int, probe.separation, probe.tests@),
    {
        if light >= self.lights.len() {
            return Ok(false);
        }
        let node = self.lights[light];
        let kind = match self.graph.node(node) {
            Some(record) => match record.kind {
                NodeKind::Light(kind) => kind,
                _ => {
                    return Ok(false);
                },
            },
            None => {
                return Ok(false);
            },
        };
        if kind.is_degenerate(probe.separation) {
            return Err(RenderError::DegenerateGeometry { node });
        }
        match self.closest_hit(&probe.tests) {
            Ok(hit) => Ok(in_light(hit, kind.distance(probe.separation))),
            Err(e) => Err(e),
        }
    }

    /// For each light of the scene, in order, whether it reaches the surface
    /// point that the probes were taken for, or the first error met. Probe
    /// `i` belongs to light `i`; a light without a probe reaches nothing.
    pub fn visible_lights(&self, probes: &Vec<ShadowProbe>) -> (r: Result<Vec<bool>, RenderError>)
        requires
            self.wf(),
        ensures
            match r {
                Ok(seen) => self.shadows(probes@, self.lights().len()) == Ok::<
                    Seq<bool>,
                    RenderError,
                >(seen@),
                Err(e) => self.shadows(probes@, self.lights().len()) == Err::<Seq<bool>, RenderError>(
                    e,
                ),
            },
    {
        let mut seen: Vec<bool> = Vec::new();
        let mut i: usize = 0;
        while i < self.lights.len()
            invariant
                self.wf(),
                i <= self.lights().len(),
                self.shadows(probes@, i as nat) == Ok::<Seq<bool>, RenderError>(seen@),
            decreases self.lights().len() - i,
        {
            let reached = if i < probes.len() {
                match self.light_reaches(i, &probes[i]) {
                    Ok(reached) => reached,
                    Err(e) => {
                        proof {
                            self.lemma_shadows_error(probes@, (i + 1) as nat, self.lights().len());
                        }
                        return Err(e);
                    },
                }
            } else {
                false
            };
            seen.push(reached);
            i += 1;
        }
        Ok(seen)
    }

    /// `total` is a result of adding up, from `dark` on and in the order of
    /// the lights, the terms of those among the first `count` lights that
    /// were seen. A light without a term adds nothing.
    pub open spec fn summed<C, A: Fn(C, C) -> C>(
        blend: A,
        dark: C,
        terms: Seq<C>,
        seen: Seq<bool>,
        count: nat,
        total: C,
    ) -> bool
        decreases count,
    {
        if count == 0 {
            total == dark
        } else if count - 1 < seen.len() && seen[count - 1] && count - 1 < terms.len() {
            exists|before: C|
                Self::summed(blend, dark, terms, seen, (count - 1) as nat, before)
                    && #[trigger] call_ensures(blend, (before, terms[count - 1]), total)
        } else {
            Self::summed(blend, dark, terms, seen, (count - 1) as nat, total)
        }
    }

    /// The light that falls on a surface point: the sum of what each light
    /// of the scene contributes, where a light that does not reach the point
    /// contributes nothing. Probe `i` and term `i` belong to light `i`; the
    /// sum starts from `dark` and is taken with `blend` in the order of the
    /// lights. Fails with the first error that a probe meets.
    pub fn shade<C: Copy, A: Fn(C, C) -> C>(
        &self,
        probes: &Vec<ShadowProbe>,
        terms: &Vec<C>,
        dark: C,
        blend: A,
    ) -> (r: Result<C, RenderError>)
        requires
            self.wf(),
            forall|a: C, b: C| call_requires(blend, (a, b)),
        ensures
            match self.shadows(probes@, self.lights().len()) {
                Ok(seen) => r matches Ok(total) && Self::summed(
                    blend,
                    dark,
                    terms@,
                    seen,
                    seen.len(),
                    total,
                ),
                Err(e) => r == Err::<C, RenderError>(e),
            },
    {
        let seen = match self.visible_lights(probes) {
            Ok(seen) => seen,
            Err(e) => {
                return Err(e);
            },
        };
        let mut total = dark;
        let mut i: usize = 0;
        while i < seen.len()
            invariant
                i <= seen@.len(),
                forall|a: C, b: C| call_requires(blend, (a, b)),
                Self::summed(blend, dark, terms@, seen@, i as nat, total),
            decreases seen@.len() - i,
        {
            if seen[i] && i < terms.len() {
                total = blend(total, terms[i]);
            }
            i += 1;
        }
        Ok(total)
    }

    /// An error among the first lights is the error of all.
    proof fn lemma_shadows_error(&self, probes: Seq<ShadowProbe>, count: nat, total: nat)
        requires
            count <= total,
            self.shadows(probes, count) is Err,
        ensures
            self.shadows(probes, total) == self.shadows(probes, count),
        decreases total - count,
    {
        if count < total {
            self.lemma_shadows_error(probes, count, (total - 1) as nat);
        }
    }

    /// What [`Self::visible_lights`] returns on success, light by light.
    pub proof fn lemma_shadows(&self, probes: Seq<ShadowProbe>, count: nat)
        ensures
            match self.shadows(probes, count) {
                Ok(seen) => {
                    &&& seen.len() == count
                    &&& forall|i: int|
                        0 <= i < count ==> if i < probes.len() {
                            self.shadow(i, probes[i].separation, probes[i].tests@) == Ok::<
                                bool,
                                RenderError,
                            >(#[trigger] seen[i])
                        } else {
                            !seen[i]
                        }
                },
                Err(e) => exists|k: int|
                    {
                        &&& 0 <= k < count
                        &&& k < probes.len()
                        &&& #[trigger] self.shadow(k, probes[k].separation, probes[k].tests@) == Err::<
                            bool,
                            RenderError,
                        >(e)
                        &&& forall|j: int|
                            0 <= j < k ==> #[trigger] self.shadow(
                                j,
                                probes[j].separation,
                                probes[j].tests@,
                            ) is Ok
                    },
            },
        decreases count,
    {
        if count > 0 {
            self.lemma_shadows(probes, (count - 1) as nat);
            match self.shadows(probes, (count - 1) as nat) {
                Ok(seen) => {
                    if count - 1 < probes.len() {
                        match self.shadow(
                            count - 1,
                            probes[count - 1].separation,
                            probes[count - 1].tests@,
                        ) {
                            Ok(reached) => {},
                            Err(e) => {
                                let k = count - 1;
                                assert(self.shadow(k, probes[k].separation, probes[k].tests@) == Err::<
                                    bool,
                                    RenderError,
                                >(e));
                                assert forall|j: int| 0 <= j < k implies #[trigger] self.shadow(
                                    j,
                                    probes[j].separation,
                                    probes[j].tests@,
                                ) is Ok by {
                                    assert(self.shadow(j, probes[j].separation, probes[j].tests@)
                                        == Ok::<bool, RenderError>(seen[j]));
                                }
                            },
                        }
                    }
                },
                Err(e) => {},
            }
        }
    }

    /// A ray through a bare scene sees nothing, whatever was measured: no
    /// hit and no error.
    pub proof fn lemma_bare_sees_nothing(&self, tests: Seq<RayTest>)
        requires
            self.wf(),
            self.bare(),
        ensures
            self.sight(tests) == Ok::<Option<Hit>, RenderError>(None),
    {
        let shape = self.graph().shape();
        let root = self.root();
        assert(shape.post_order_prefix(root, 0) =~= Seq::empty());
        let order = shape.post_order(root);
        assert(order =~= seq![root]);
        assert(order.drop_last() =~= Seq::empty());
        let hits = self.graph().self_hits(tests);
        let marks = self.graph().flaws(tests);
        assert(closest_along(Seq::empty(), hits) is None);
        assert(first_along(Seq::empty(), marks) is None);
        assert(hit_at(hits, root) is None);
        assert(!marked(marks, root));
    }
}

} // verus!
