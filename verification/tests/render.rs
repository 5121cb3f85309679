use cgmath::{InnerSpace, Point3, Vector3};
use image::GenericImageView;
use raytracer::camera_node::CameraNode;
use raytracer::error::RenderError;
use raytracer::intersector::{Hit, RayTest};
use raytracer::node_3d::{NodeKind, SceneGraph};
use raytracer::render_system::RenderSystem;
use raytracer::scene::Scene;
use raytracer::scene_items::Color;
use raytracer::sphere_node::SphereTest;

const BLACK: Color = Color { red: 0, green: 0, blue: 0 };

type Sum = fn(i64, i64) -> i64;

fn sum(world: i64, frame: i64) -> i64 {
    world + frame
}

fn key(value: f64) -> i64 {
    let bits = value.to_bits();
    let magnitude = (bits & 0x7FFF_FFFF_FFFF_FFFF) as i64;
    if bits >> 63 == 0 {
        magnitude
    } else {
        -magnitude
    }
}

fn prime_direction(x: u32, y: u32, width: u32, height: u32) -> Vector3<f64> {
    let fov_adjustment = (3.1415926 * 0.5 * 45.0 / 180.0f64).tan();
    let aspect = width as f64 / height as f64;
    let sx = (((x as f64 + 0.5) / width as f64) * 2.0 - 1.0) * aspect * fov_adjustment;
    let sy = (1.0 - ((y as f64 + 0.5) / height as f64) * 2.0) * fov_adjustment;
    Vector3::new(sx, sy, -1.0).normalize()
}

fn measure_sphere(direction: Vector3<f64>, center: Point3<f64>, radius: f64) -> RayTest {
    let l = center - Point3::new(0.0, 0.0, 0.0);
    let tca = l.dot(direction);
    let d2 = l.dot(l) - tca * tca;
    let r2 = radius * radius;
    let thc = (r2 - d2).sqrt();
    RayTest::Sphere(SphereTest {
        approach_sq: key(d2),
        radius_sq: key(r2),
        near: key(tca - thc),
        far: key(tca + thc),
    })
}

fn empty_scene() -> Scene<i64, Sum> {
    let mut graph = SceneGraph::new(sum as Sum);
    let root = graph.add_node("root".to_string(), NodeKind::Group, 0, BLACK);
    Scene::new("empty".to_string(), graph, root).unwrap()
}

/// Nodes: 0 root, 1 a sphere.
fn one_sphere_scene() -> Scene<i64, Sum> {
    let mut graph = SceneGraph::new(sum as Sum);
    let root = graph.add_node("root".to_string(), NodeKind::Group, 0, BLACK);
    let ball = graph.add_node("ball".to_string(), NodeKind::Sphere, 0, BLACK);
    assert!(graph.attach_child(root, ball));
    Scene::new("one".to_string(), graph, root).unwrap()
}

fn rgb(img: &image::DynamicImage, x: u32, y: u32) -> [u8; 3] {
    img.as_rgb8().unwrap().get_pixel(x, y).0
}

#[test]
fn color_keeps_its_channels() {
    let c = Color::new_rgb(51, 255, 52);
    assert_eq!(c.red(), 51);
    assert_eq!(c.green(), 255);
    assert_eq!(c.blue(), 52);
    assert_eq!(c.copy(), c);
    assert_eq!(c, Color { red: 51, green: 255, blue: 52 });
    assert_eq!(Color::background(), Color::new_rgb(135, 206, 255));
}

#[test]
fn color_to_rgba_is_opaque() {
    assert_eq!(Color::new_rgb(1, 2, 3).to_rgba(), image::Rgba([1, 2, 3, 255]));
    assert_eq!(Color::new_rgb(255, 0, 9).to_rgba().0, [255, 0, 9, 255]);
}

#[test]
fn camera_keeps_its_image_size() {
    let camera = CameraNode::new("main_camera".to_string(), 858, 480);
    assert_eq!(camera.name, "main_camera");
    assert_eq!(camera.image_width, 858);
    assert_eq!(camera.image_height, 480);
}

#[test]
fn render_system_keeps_its_path() {
    assert_eq!(RenderSystem::new("out.png".to_string()).output_path, "out.png");
}

#[test]
fn empty_scene_renders_as_background() {
    let scene = empty_scene();
    let renderer = RenderSystem::new("unused.png".to_string());
    for (width, height) in [(1usize, 1usize), (4, 3), (3, 4), (17, 1), (1, 9), (32, 24)] {
        let camera = CameraNode::new("camera".to_string(), width, height);
        let img = renderer
            .render(
                &scene,
                &camera,
                |_x: u32, _y: u32| vec![RayTest::Skipped],
                |_x: u32, _y: u32, _hit: Hit| Ok(Color::new_rgb(0, 0, 0)),
            )
            .unwrap();
        assert_eq!(img.dimensions(), (width as u32, height as u32));
        let buffer = img.as_rgb8().unwrap();
        assert_eq!(buffer.pixels().count(), width * height);
        for pixel in buffer.pixels() {
            assert_eq!(pixel.0, [135, 206, 255]);
        }
    }
}

#[test]
fn empty_scene_renders_as_background_whatever_is_measured() {
    let scene = empty_scene();
    let renderer = RenderSystem::new("unused.png".to_string());
    let camera = CameraNode::new("camera".to_string(), 5, 2);
    let broken = RayTest::Sphere(SphereTest {
        approach_sq: key(f64::NAN),
        radius_sq: key(f64::NAN),
        near: key(1.0),
        far: key(1.0),
    });
    let img = renderer
        .render(
            &scene,
            &camera,
            |_x: u32, _y: u32| vec![broken, broken],
            |_x: u32, _y: u32, _hit: Hit| Err(RenderError::DegenerateGeometry { node: 0 }),
        )
        .unwrap();
    for y in 0..2 {
        for x in 0..5 {
            assert_eq!(rgb(&img, x, y), [135, 206, 255]);
        }
    }
}

#[test]
fn image_without_pixels_is_rendered() {
    let scene = one_sphere_scene();
    let renderer = RenderSystem::new("unused.png".to_string());
    for (width, height) in [(0usize, 0usize), (0, 7), (7, 0)] {
        let camera = CameraNode::new("camera".to_string(), width, height);
        let img = renderer
            .render(
                &scene,
                &camera,
                |_x: u32, _y: u32| vec![],
                |_x: u32, _y: u32, _hit: Hit| Ok(Color::new_rgb(0, 0, 0)),
            )
            .unwrap();
        assert_eq!(img.dimensions(), (width as u32, height as u32));
    }
}

#[test]
fn render_puts_each_pixel_at_its_coordinates() {
    let scene = one_sphere_scene();
    let renderer = RenderSystem::new("unused.png".to_string());
    let camera = CameraNode::new("camera".to_string(), 4, 3);
    let img = renderer
        .render(
            &scene,
            &camera,
            |x: u32, y: u32| {
                vec![
                    RayTest::Skipped,
                    RayTest::Sphere(SphereTest {
                        approach_sq: if (x + y) % 2 == 0 { 0 } else { 2 },
                        radius_sq: 1,
                        near: 10,
                        far: 20,
                    }),
                ]
            },
            |x: u32, y: u32, hit: Hit| {
                assert_eq!(hit, Hit { node: 1, distance: 10 });
                Ok(Color::new_rgb(x as u8, y as u8, 7))
            },
        )
        .unwrap();
    assert_eq!(img.dimensions(), (4, 3));
    for y in 0..3 {
        for x in 0..4 {
            if (x + y) % 2 == 0 {
                assert_eq!(rgb(&img, x, y), [x as u8, y as u8, 7]);
            } else {
                assert_eq!(rgb(&img, x, y), [135, 206, 255]);
            }
        }
    }
}

#[test]
fn render_of_a_sphere_ahead_of_the_camera() {
    let scene = one_sphere_scene();
    let renderer = RenderSystem::new("unused.png".to_string());
    let (width, height) = (40u32, 30u32);
    let camera = CameraNode::new("camera".to_string(), width as usize, height as usize);
    let center = Point3::new(0.0, 0.0, -5.0);
    let green = Color::new_rgb(51, 255, 51);
    let img = renderer
        .render(
            &scene,
            &camera,
            |x: u32, y: u32| {
                vec![RayTest::Skipped, measure_sphere(prime_direction(x, y, width, height), center, 1.0)]
            },
            |_x: u32, _y: u32, hit: Hit| {
                assert_eq!(hit.node, 1);
                let distance = f64::from_bits(hit.distance as u64);
                assert!(distance >= 4.0 - 1e-9 && distance <= 5.0);
                Ok(green)
            },
        )
        .unwrap();
    assert_eq!(img.dimensions(), (width, height));
    assert_eq!(rgb(&img, 20, 15), [51, 255, 51]);
    assert_eq!(rgb(&img, 19, 14), [51, 255, 51]);
    assert_eq!(rgb(&img, 0, 0), [135, 206, 255]);
    assert_eq!(rgb(&img, 39, 29), [135, 206, 255]);
    assert_eq!(rgb(&img, 0, 15), [135, 206, 255]);
    let covered = img.as_rgb8().unwrap().pixels().filter(|p| p.0 == [51, 255, 51]).count();
    assert!(covered > 50 && covered < 600);
    for y in 0..height {
        for x in 0..width {
            assert_eq!(rgb(&img, x, y), rgb(&img, width - 1 - x, height - 1 - y));
        }
    }
}

#[test]
fn render_stops_at_degenerate_geometry() {
    let scene = one_sphere_scene();
    let renderer = RenderSystem::new("unused.png".to_string());
    let camera = CameraNode::new("camera".to_string(), 3, 3);
    let out = renderer.render(
        &scene,
        &camera,
        |x: u32, y: u32| {
            vec![
                RayTest::Skipped,
                RayTest::Sphere(SphereTest {
                    approach_sq: if x == 1 && y == 2 { key(f64::NAN) } else { 0 },
                    radius_sq: 1,
                    near: 10,
                    far: 20,
                }),
            ]
        },
        |_x: u32, _y: u32, _hit: Hit| Ok(Color::new_rgb(1, 1, 1)),
    );
    assert_eq!(out.err(), Some(RenderError::DegenerateGeometry { node: 1 }));
}

#[test]
fn render_stops_where_shading_fails() {
    let scene = one_sphere_scene();
    let renderer = RenderSystem::new("unused.png".to_string());
    let camera = CameraNode::new("camera".to_string(), 2, 2);
    let out = renderer.render(
        &scene,
        &camera,
        |_x: u32, _y: u32| {
            vec![
                RayTest::Skipped,
                RayTest::Sphere(SphereTest { approach_sq: 0, radius_sq: 1, near: 10, far: 20 }),
            ]
        },
        |x: u32, y: u32, _hit: Hit| {
            if x == 1 && y == 1 {
                Err(RenderError::DegenerateGeometry { node: 42 })
            } else {
                Ok(Color::new_rgb(1, 1, 1))
            }
        },
    );
    assert_eq!(out.err(), Some(RenderError::DegenerateGeometry { node: 42 }));
}

#[test]
fn render_refuses_an_image_too_large() {
    let scene = empty_scene();
    let renderer = RenderSystem::new("unused.png".to_string());
    for (width, height) in [(usize::MAX, 1usize), (1, usize::MAX), (usize::MAX, 0), (usize::MAX / 2, 3)] {
        let camera = CameraNode::new("camera".to_string(), width, height);
        let out = renderer.render(
            &scene,
            &camera,
            |_x: u32, _y: u32| vec![],
            |_x: u32, _y: u32, _hit: Hit| Ok(Color::new_rgb(0, 0, 0)),
        );
        assert_eq!(out.err(), Some(RenderError::ImageTooLarge));
    }
}
