//! The render loop: one ray per pixel, the closest hit of each, one colour
//! per pixel.
//!
//! The loop does no arithmetic on rays. Two operations of the caller stand
//! for it: `probe` follows the ray through a pixel and measures it against
//! each node, and `shade` gives the colour of the surface that was hit.

use crate::camera_node::CameraNode;
use crate::error::RenderError;
use crate::intersector::{Hit, RayTest};
use crate::raster::{new_rgb8, put_pixel, raster};
use crate::scene::Scene;
use crate::scene_items::Color;
use vstd::prelude::*;

verus! {

/// Where a finished image goes.
pub struct RenderSystem {
    pub output_path: String,
}

/// What a render makes of the pixel at `(x, y)`: for some measurements of
/// the ray through that pixel, the error of the ray if it has one, the
/// background colour if it hits nothing, and else what `shade` gives for
/// its closest hit.
pub open spec fn pixel_is<T: Copy, F: Fn(T, T) -> T, P: Fn(u32, u32) -> Vec<RayTest>, S: Fn(
    u32,
    u32,
    Hit,
) -> Result<Color, RenderError>>(
    scene: Scene<T, F>,
    probe: P,
    shade: S,
    x: u32,
    y: u32,
    outcome: Result<Color, RenderError>,
) -> bool {
    exists|tests: Vec<RayTest>|
        {
            &&& #[trigger] call_ensures(probe, (x, y), tests)
            &&& match scene.sight(tests@) {
                Err(e) => outcome == Err::<Color, RenderError>(e),
                Ok(None) => outcome == Ok::<Color, RenderError>(Color::sky()),
                Ok(Some(hit)) => call_ensures(shade, (x, y, hit), outcome),
            }
        }
}

/// The render makes a colour of the pixel at `(x, y)`, and `rgb` are its
/// channels.
pub open spec fn traced<T: Copy, F: Fn(T, T) -> T, P: Fn(u32, u32) -> Vec<RayTest>, S: Fn(
    u32,
    u32,
    Hit,
) -> Result<Color, RenderError>>(
    scene: Scene<T, F>,
    probe: P,
    shade: S,
    x: u32,
    y: u32,
    rgb: (u8, u8, u8),
) -> bool {
    exists|color: Color|
        {
            &&& #[trigger] pixel_is(scene, probe, shade, x, y, Ok(color))
            &&& rgb == color.channels()
        }
}

/// The grid has a pixel at every coordinate of the camera's image and
/// nowhere else, and every pixel holds the colour that the render makes of
/// it.
pub open spec fn rendered<T: Copy, F: Fn(T, T) -> T, P: Fn(u32, u32) -> Vec<RayTest>, S: Fn(
    u32,
    u32,
    Hit,
) -> Result<Color, RenderError>>(
    scene: Scene<T, F>,
    camera: CameraNode,
    probe: P,
    shade: S,
    grid: Map<(u32, u32), (u8, u8, u8)>,
) -> bool {
    &&& forall|x: u32, y: u32| #[trigger]
        grid.dom().contains((x, y)) <==> x < camera.image_width && y < camera.image_height
    &&& forall|x: u32, y: u32|
        x < camera.image_width && y < camera.image_height ==> traced(
            scene,
            probe,
            shade,
            x,
            y,
            #[trigger] grid[(x, y)],
        )
}

/// The render fails with `error` at some pixel of the camera's image.
pub open spec fn fails<T: Copy, F: Fn(T, T) -> T, P: Fn(u32, u32) -> Vec<RayTest>, S: Fn(
    u32,
    u32,
    Hit,
) -> Result<Color, RenderError>>(
    scene: Scene<T, F>,
    camera: CameraNode,
    probe: P,
    shade: S,
    error: RenderError,
) -> bool {
    exists|x: u32, y: u32|
        {
            &&& x < camera.image_width
            &&& y < camera.image_height
            &&& #[trigger] pixel_is(scene, probe, shade, x, y, Err(error))
        }
}

/// Every pixel of the camera's image is the background colour.
pub open spec fn all_background(camera: CameraNode, grid: Map<(u32, u32), (u8, u8, u8)>) -> bool {
    forall|x: u32, y: u32|
        x < camera.image_width && y < camera.image_height ==> #[trigger] grid[(x, y)]
            == Color::sky().channels()
}

impl RenderSystem {
    pub fn new(output_path: String) -> (renderer: RenderSystem)
        ensures
            renderer.output_path == output_path,
    {
        RenderSystem { output_path }
    }

    /// Renders the scene as the camera sees it: an 8-bit RGB image of the
    /// camera's size in which the pixel at column `x` and row `y`, counted
    /// from the top left, is the background colour if the ray through it
    /// hits nothing, and else the colour that `shade` gives for its closest
    /// hit.
    ///
    /// There is no image if the camera's is too large to be stored, or if a
    /// ray meets degenerate geometry or `shade` fails: the render stops at
    /// the first such pixel with its error. A bare scene always gives an
    /// image, of the background colour alone.
    pub fn render<T: Copy, F: Fn(T, T) -> T, P: Fn(u32, u32) -> Vec<RayTest>, S: Fn(
        u32,
        u32,
        Hit,
    ) -> Result<Color, RenderError>>(
        &self,
        scene: &Scene<T, F>,
        camera: &CameraNode,
        probe: P,
        shade: S,
    ) -> (out: Result<image::DynamicImage, RenderError>)
        requires
            scene.wf(),
            forall|x: u32, y: u32| call_requires(probe, (x, y)),
            forall|x: u32, y: u32, hit: Hit| call_requires(shade, (x, y, hit)),
        ensures
            !camera.storable() ==> out == Err::<image::DynamicImage, RenderError>(
                RenderError::ImageTooLarge,
            ),
            camera.storable() ==> match out {
                Ok(img) => rendered(*scene, *camera, probe, shade, raster(img)),
                Err(e) => fails(*scene, *camera, probe, shade, e),
            },
            camera.storable() && scene.bare() ==> out is Ok && all_background(
                *camera,
                raster(out->Ok_0),
            ),
    {
        if camera.image_width > u32::MAX as usize || camera.image_height > u32::MAX as usize {
            return Err(RenderError::ImageTooLarge);
        }
        let width = camera.image_width as u32;
        let height = camera.image_height as u32;
        let row_bytes = match 3usize.checked_mul(camera.image_width) {
            Some(n) => n,
            None => {
                return Err(RenderError::ImageTooLarge);
            },
        };
        if row_bytes.checked_mul(camera.image_height).is_none() {
            return Err(RenderError::ImageTooLarge);
        }
        let mut img = new_rgb8(width, height);
        let mut x: u32 = 0;
        while x < width
            invariant
                scene.wf(),
                forall|x: u32, y: u32| call_requires(probe, (x, y)),
                forall|x: u32, y: u32, hit: Hit| call_requires(shade, (x, y, hit)),
                camera.storable(),
                width == camera.image_width,
                height == camera.image_height,
                x <= width,
                forall|i: u32, j: u32| #[trigger]
                    raster(img).dom().contains((i, j)) <==> i < width && j < height,
                forall|i: u32, j: u32|
                    i < x && j < height ==> traced(
                        *scene,
                        probe,
                        shade,
                        i,
                        j,
                        #[trigger] raster(img)[(i, j)],
                    ),
                scene.bare() ==> forall|i: u32, j: u32|
                    i < x && j < height ==> #[trigger] raster(img)[(i, j)] == Color::sky().channels(),
            decreases width - x,
        {
            let mut y: u32 = 0;
            while y < height
                invariant
                    scene.wf(),
                    forall|x: u32, y: u32| call_requires(probe, (x, y)),
                    forall|x: u32, y: u32, hit: Hit| call_requires(shade, (x, y, hit)),
                    camera.storable(),
                    width == camera.image_width,
                    height == camera.image_height,
                    x < width,
                    y <= height,
                    forall|i: u32, j: u32| #[trigger]
                        raster(img).dom().contains((i, j)) <==> i < width && j < height,
                    forall|i: u32, j: u32|
                        (i < x && j < height) || (i == x && j < y) ==> traced(
                            *scene,
                            probe,
                            shade,
                            i,
                            j,
                            #[trigger] raster(img)[(i, j)],
                        ),
                    scene.bare() ==> forall|i: u32, j: u32|
                        (i < x && j < height) || (i == x && j < y) ==> #[trigger] raster(img)[(i, j)]
                            == Color::sky().channels(),
                decreases height - y,
            {
                let tests = probe(x, y);
                proof {
                    if scene.bare() {
                        scene.lemma_bare_sees_nothing(tests@);
                    }
                }
                let outcome = match scene.closest_hit(&tests) {
                    Err(e) => Err(e),
                    Ok(None) => Ok(Color::background()),
                    Ok(Some(hit)) => shade(x, y, hit),
                };
                assert(pixel_is(*scene, probe, shade, x, y, outcome));
                let color = match outcome {
                    Ok(color) => color,
                    Err(e) => {
                        return Err(e);
                    },
                };
                let ghost before = raster(img);
                put_pixel(&mut img, x, y, color.to_rgba());
                proof {
                    let after = raster(img);
                    assert(after[(x, y)] == color.channels());
                    assert forall|i: u32, j: u32| #[trigger]
                        after.dom().contains((i, j)) <==> i < width && j < height by {
                        assert(before.dom().contains((i, j)) <==> i < width && j < height);
                    }
                    assert forall|i: u32, j: u32|
                        (i < x && j < height) || (i == x && j < y + 1) implies traced(
                        *scene,
                        probe,
                        shade,
                        i,
                        j,
                        #[trigger] after[(i, j)],
                    ) by {
                        if i == x && j == y {
                            assert(pixel_is(*scene, probe, shade, i, j, Ok(color)));
                        } else {
                            assert(after[(i, j)] == before[(i, j)]);
                        }
                    }
                    if scene.bare() {
                        assert forall|i: u32, j: u32|
                            (i < x && j < height) || (i == x && j < y + 1) implies #[trigger] after[(
                            i,
                            j,
                        )] == Color::sky().channels() by {
                            if !(i == x && j == y) {
                                assert(after[(i, j)] == before[(i, j)]);
                            }
                        }
                    }
                }
                y += 1;
            }
            x += 1;
        }
        Ok(img)
    }
}

} // verus!
