use raytracer::error::RenderError;
use raytracer::intersector::{Hit, RayTest};
use raytracer::light::{in_light, Light, LightDistance, ShadowProbe};
use raytracer::node_3d::{NodeKind, SceneGraph};
use raytracer::scene_items::Color;
use raytracer::scene::Scene;
use raytracer::sphere_node::SphereTest;

const BLACK: Color = Color { red: 0, green: 0, blue: 0 };

type Sum = fn(i64, i64) -> i64;

fn sum(world: i64, frame: i64) -> i64 {
    world + frame
}

fn key(value: f64) -> i64 {
    let bits = value.to_bits();
    let magnitude = (bits & 0x7FFF_FFFF_FFFF_FFFF) as i64;
    if bits >> 63 == 0 {
        magnitude
    } else {
        -magnitude
    }
}

fn sphere_at(distance: f64) -> RayTest {
    RayTest::Sphere(SphereTest {
        approach_sq: key(0.0),
        radius_sq: key(1.0),
        near: key(distance),
        far: key(distance + 2.0),
    })
}

/// Nodes: 0 root, 1 floor sphere, 2 blocker sphere, 3 point light, 4 sun.
fn lit_scene() -> Scene<i64, Sum> {
    let mut graph = SceneGraph::new(sum as Sum);
    let root = graph.add_node("root".to_string(), NodeKind::Group, 0, BLACK);
    let floor = graph.add_node("floor".to_string(), NodeKind::Sphere, 0, BLACK);
    let blocker = graph.add_node("blocker".to_string(), NodeKind::Sphere, 0, BLACK);
    let lamp = graph.add_node("lamp".to_string(), NodeKind::Light(Light::Spherical), 0, BLACK);
    let sun = graph.add_node("sun".to_string(), NodeKind::Light(Light::Directional), 0, BLACK);
    for n in [floor, blocker, lamp, sun] {
        assert!(graph.attach_child(root, n));
    }
    let mut scene = Scene::new("lit".to_string(), graph, root).unwrap();
    assert!(scene.add_light(lamp));
    assert!(scene.add_light(sun));
    scene
}

fn probe(separation: f64, blocker: RayTest) -> ShadowProbe {
    ShadowProbe {
        separation: key(separation),
        tests: vec![RayTest::Skipped, RayTest::Skipped, blocker, RayTest::Skipped, RayTest::Skipped],
    }
}

#[test]
fn scene_new_needs_a_root_of_the_graph() {
    let mut graph = SceneGraph::new(sum as Sum);
    let root = graph.add_node("root".to_string(), NodeKind::Group, 0, BLACK);
    assert!(Scene::new("none".to_string(), graph, root + 1).is_none());
    let mut graph = SceneGraph::new(sum as Sum);
    let root = graph.add_node("root".to_string(), NodeKind::Group, 0, BLACK);
    let scene = Scene::new("main_scene".to_string(), graph, root).unwrap();
    assert_eq!(scene.get_name(), "main_scene");
    assert_eq!(scene.get_root(), root);
    assert_eq!(scene.get_graph().len(), 1);
    assert!(scene.get_lights().is_empty());
    assert_eq!(scene.get_renderer().output_path, "output.png");
}

#[test]
fn add_root_moves_the_root_to_a_node_of_the_graph() {
    let mut scene = lit_scene();
    assert!(scene.add_root(2));
    assert_eq!(scene.get_root(), 2);
    assert!(!scene.add_root(5));
    assert_eq!(scene.get_root(), 2);
}

#[test]
fn add_light_takes_lights_only() {
    let mut scene = lit_scene();
    assert_eq!(scene.get_lights(), &vec![3, 4]);
    assert!(!scene.add_light(1));
    assert!(!scene.add_light(0));
    assert!(!scene.add_light(17));
    assert_eq!(scene.get_lights(), &vec![3, 4]);
    assert!(scene.add_light(3));
    assert_eq!(scene.get_lights(), &vec![3, 4, 3]);
}

#[test]
fn directional_light_is_infinitely_far_from_every_point() {
    for separation in [0.0, 1.0, 1e6, f64::INFINITY] {
        assert_eq!(Light::Directional.distance(key(separation)), LightDistance::Infinite);
    }
    assert_eq!(Light::Spherical.distance(key(2.5)), LightDistance::Finite(key(2.5)));
}

#[test]
fn point_without_occluder_is_lit() {
    assert!(in_light(None, LightDistance::Infinite));
    assert!(in_light(None, LightDistance::Finite(key(3.0))));
    let scene = lit_scene();
    for separation in [1.0, 10.0, 1000.0] {
        let nothing = probe(separation, RayTest::Skipped);
        assert_eq!(scene.light_reaches(0, &nothing), Ok(true));
        assert_eq!(scene.light_reaches(1, &nothing), Ok(true));
    }
}

#[test]
fn occluder_counts_only_before_the_light() {
    let near = Some(Hit { node: 2, distance: key(2.0) });
    assert!(!in_light(near, LightDistance::Finite(key(5.0))));
    assert!(in_light(near, LightDistance::Finite(key(2.0))));
    assert!(in_light(near, LightDistance::Finite(key(1.5))));
    assert!(!in_light(near, LightDistance::Infinite));
    assert!(!in_light(Some(Hit { node: 2, distance: key(1e300) }), LightDistance::Infinite));
}

#[test]
fn sphere_between_point_and_point_light_blocks_it() {
    let scene = lit_scene();
    let blocked = probe(5.0, sphere_at(2.0));
    assert_eq!(scene.light_reaches(0, &blocked), Ok(false));
    let open = probe(5.0, RayTest::Skipped);
    assert_eq!(scene.light_reaches(0, &open), Ok(true));
    let beyond = probe(5.0, sphere_at(8.0));
    assert_eq!(scene.light_reaches(0, &beyond), Ok(true));
    assert_eq!(scene.light_reaches(1, &beyond), Ok(false));
}

#[test]
fn visible_lights_answers_light_by_light() {
    let scene = lit_scene();
    let probes = vec![probe(5.0, sphere_at(8.0)), probe(5.0, sphere_at(8.0))];
    assert_eq!(scene.visible_lights(&probes), Ok(vec![true, false]));
    let probes = vec![probe(5.0, sphere_at(2.0)), probe(5.0, RayTest::Skipped)];
    assert_eq!(scene.visible_lights(&probes), Ok(vec![false, true]));
    let probes = vec![probe(5.0, RayTest::Skipped)];
    assert_eq!(scene.visible_lights(&probes), Ok(vec![true, false]));
    assert_eq!(scene.visible_lights(&vec![]), Ok(vec![false, false]));
}

#[test]
fn scene_without_lights_has_no_visible_lights() {
    let mut graph = SceneGraph::new(sum as Sum);
    let root = graph.add_node("root".to_string(), NodeKind::Group, 0, BLACK);
    let scene = Scene::new("dark".to_string(), graph, root).unwrap();
    assert_eq!(scene.visible_lights(&vec![probe(1.0, RayTest::Skipped)]), Ok(vec![]));
    assert_eq!(scene.light_reaches(0, &probe(1.0, RayTest::Skipped)), Ok(false));
}

#[test]
fn separation_that_is_not_a_number_fails_for_point_lights() {
    let scene = lit_scene();
    let broken = probe(f64::NAN, RayTest::Skipped);
    assert_eq!(scene.light_reaches(0, &broken), Err(RenderError::DegenerateGeometry { node: 3 }));
    assert_eq!(scene.light_reaches(1, &broken), Ok(true));
    assert!(Light::Spherical.is_degenerate(key(f64::NAN)));
    assert!(!Light::Directional.is_degenerate(key(f64::NAN)));
    assert!(!Light::Spherical.is_degenerate(key(4.0)));
    let probes = vec![probe(2.0, RayTest::Skipped), probe(2.0, RayTest::Skipped), broken];
    assert_eq!(scene.visible_lights(&probes), Ok(vec![true, true]));
}

#[test]
fn degenerate_shadow_ray_fails_with_its_node() {
    let scene = lit_scene();
    let broken = RayTest::Sphere(SphereTest {
        approach_sq: key(0.0),
        radius_sq: key(1.0),
        near: key(f64::NAN),
        far: key(2.0),
    });
    assert_eq!(
        scene.light_reaches(1, &probe(1.0, broken)),
        Err(RenderError::DegenerateGeometry { node: 2 })
    );
    let probes = vec![probe(5.0, RayTest::Skipped), probe(5.0, broken)];
    assert_eq!(scene.visible_lights(&probes), Err(RenderError::DegenerateGeometry { node: 2 }));
    let probes = vec![probe(f64::NAN, broken), probe(5.0, RayTest::Skipped)];
    assert_eq!(scene.visible_lights(&probes), Err(RenderError::DegenerateGeometry { node: 3 }));
}

#[test]
fn light_bulb_can_be_hit_only_if_the_light_is_somewhere() {
    let hit = SphereTest { approach_sq: key(0.1), radius_sq: key(0.25), near: key(2.0), far: key(3.0) };
    let miss = SphereTest { approach_sq: key(0.3), radius_sq: key(0.25), near: key(2.0), far: key(3.0) };
    assert!(Light::Spherical.intersect(&hit));
    assert!(!Light::Spherical.intersect(&miss));
    assert!(!Light::Directional.intersect(&hit));
    assert!(!Light::Directional.intersect(&miss));
}

#[test]
fn scene_closest_hit_starts_at_the_root() {
    let mut scene = lit_scene();
    let tests = vec![RayTest::Skipped, sphere_at(4.0), sphere_at(6.0), sphere_at(1.0), sphere_at(1.0)];
    assert_eq!(scene.closest_hit(&tests), Ok(Some(Hit { node: 1, distance: key(4.0) })));
    assert!(scene.add_root(2));
    assert_eq!(scene.closest_hit(&tests), Ok(Some(Hit { node: 2, distance: key(6.0) })));
    assert!(scene.add_root(3));
    assert_eq!(scene.closest_hit(&tests), Ok(None));
}

#[test]
fn shade_sums_what_the_lights_that_reach_the_point_contribute() {
    let scene = lit_scene();
    let plus = |a: i64, b: i64| a + b;
    let open = || probe(5.0, RayTest::Skipped);
    let blocked = || probe(5.0, sphere_at(2.0));
    let beyond = || probe(5.0, sphere_at(8.0));
    assert_eq!(scene.shade(&vec![open(), open()], &vec![10, 100], 1, plus), Ok(111));
    assert_eq!(scene.shade(&vec![blocked(), open()], &vec![10, 100], 1, plus), Ok(101));
    assert_eq!(scene.shade(&vec![open(), blocked()], &vec![10, 100], 1, plus), Ok(11));
    assert_eq!(scene.shade(&vec![blocked(), blocked()], &vec![10, 100], 1, plus), Ok(1));
    assert_eq!(scene.shade(&vec![beyond(), beyond()], &vec![10, 100], 0, plus), Ok(10));
    assert_eq!(scene.shade(&vec![open(), open()], &vec![10], 0, plus), Ok(10));
    assert_eq!(scene.shade(&vec![open()], &vec![10, 100], 0, plus), Ok(10));
    assert_eq!(scene.shade(&vec![], &vec![10, 100], 7, plus), Ok(7));
}

#[test]
fn shade_adds_in_the_order_of_the_lights() {
    let scene = lit_scene();
    let append = |a: i64, b: i64| a * 10 + b;
    let open = || probe(5.0, RayTest::Skipped);
    assert_eq!(scene.shade(&vec![open(), open()], &vec![2, 3], 1, append), Ok(123));
}

#[test]
fn shade_fails_with_the_first_error() {
    let scene = lit_scene();
    let plus = |a: i64, b: i64| a + b;
    let probes = vec![probe(f64::NAN, RayTest::Skipped), probe(5.0, RayTest::Skipped)];
    assert_eq!(
        scene.shade(&probes, &vec![10, 100], 0, plus),
        Err(RenderError::DegenerateGeometry { node: 3 })
    );
}

#[test]
fn occluder_drives_a_light_to_nothing_and_its_removal_restores_it() {
    let scene = lit_scene();
    let mix = |a: (u32, u32, u32), b: (u32, u32, u32)| (a.0 + b.0, a.1 + b.1, a.2 + b.2);
    let terms = vec![(200, 120, 40), (0, 0, 0)];
    let lit = scene.shade(&vec![probe(5.0, RayTest::Skipped)], &terms, (0, 0, 0), mix);
    assert_eq!(lit, Ok((200, 120, 40)));
    let shadowed = scene.shade(&vec![probe(5.0, sphere_at(2.0))], &terms, (0, 0, 0), mix);
    assert_eq!(shadowed, Ok((0, 0, 0)));
    let again = scene.shade(&vec![probe(5.0, RayTest::Skipped)], &terms, (0, 0, 0), mix);
    assert_eq!(again, lit);
}
