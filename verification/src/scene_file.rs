//! Scenes and views that are described in full: gaussians, camera and background with all their
//! numbers.

use vstd::prelude::*;

use crate::scene::{gaussians_model, transposed, Background, Camera, Gaussian, GaussianModel};

verus! {

/// A camera: its rotation from world to camera row by row, its translation and its projection.
#[derive(Clone, Copy, Debug, PartialEq, Eq)]
pub struct CameraEntry {
    pub r_v: [u32; 9],
    pub t_v: [u32; 3],
    pub fx: u32,
    pub fy: u32,
    pub cx: u32,
    pub cy: u32,
}

/// A gaussian without higher color coefficients.
#[derive(Clone, Copy, Debug, PartialEq, Eq)]
pub struct GaussianEntry {
    pub mean: [u32; 3],
    pub log_scale: [u32; 3],
    pub quat: [u32; 4],
    pub color_dc: [u32; 3],
    pub opacity_raw: u32,
}

/// An image's size, camera and background.
#[derive(Clone, Copy, Debug, PartialEq, Eq)]
pub struct ViewFile {
    pub width: u32,
    pub height: u32,
    pub camera: CameraEntry,
    pub background: Background,
}

/// A view and the gaussians that are seen.
pub struct SceneFile {
    pub view: ViewFile,
    pub gaussians: Vec<GaussianEntry>,
}

/// The gaussian of an entry.
pub open spec fn entry_gaussian(entry: GaussianEntry) -> GaussianModel {
    GaussianModel {
        mean: entry.mean@,
        log_scale: entry.log_scale@,
        quat: entry.quat@,
        color_dc: entry.color_dc@,
        opacity_raw: entry.opacity_raw,
        sh: None,
    }
}

/// Whether `cam` is the camera of a view.
pub open spec fn is_camera_of(cam: Camera, view: ViewFile) -> bool {
    &&& cam.r_v@ == transposed(view.camera.r_v@)
    &&& cam.t_v@ == view.camera.t_v@
    &&& cam.fx == view.camera.fx
    &&& cam.fy == view.camera.fy
    &&& cam.cx == view.camera.cx
    &&& cam.cy == view.camera.cy
    &&& cam.width == view.width
    &&& cam.height == view.height
}

/// The background and the camera of a view.
pub fn load_view_json(view: &ViewFile) -> (parts: (Background, Camera))
    ensures
        parts.0 == view.background,
        is_camera_of(parts.1, *view),
        forall|row: int, col: int|
            0 <= row < 3 && 0 <= col < 3 ==> #[trigger] parts.1.r_v@[col * 3 + row]
                == view.camera.r_v@[row * 3 + col],
        parts.1.t_v@ == view.camera.t_v@,
        parts.1.fx == view.camera.fx,
        parts.1.fy == view.camera.fy,
        parts.1.cx == view.camera.cx,
        parts.1.cy == view.camera.cy,
        parts.1.width == view.width,
        parts.1.height == view.height,
{
    let c = view.camera;
    (
        view.background,
        Camera::from_rt(c.r_v, c.t_v, c.fx, c.fy, c.cx, c.cy, view.width, view.height),
    )
}

/// The gaussians, the background and the camera of a scene.
pub fn load_scene_json(scene: &SceneFile) -> (parts: (Vec<Gaussian>, Background, Camera))
    ensures
        gaussians_model(parts.0@) == scene.gaussians@.map_values(
            |entry: GaussianEntry| entry_gaussian(entry),
        ),
        parts.0@.len() == scene.gaussians@.len(),
        forall|i: int|
            0 <= i < parts.0@.len() ==> {
                &&& (#[trigger] parts.0@[i]).mean@ == scene.gaussians@[i].mean@
                &&& parts.0@[i].log_scale@ == scene.gaussians@[i].log_scale@
                &&& parts.0@[i].quat@ == scene.gaussians@[i].quat@
                &&& parts.0@[i].color_dc@ == scene.gaussians@[i].color_dc@
                &&& parts.0@[i].opacity_raw == scene.gaussians@[i].opacity_raw
                &&& parts.0@[i].sh is None
            },
        parts.1 == scene.view.background,
        is_camera_of(parts.2, scene.view),
{
    let (background, camera) = load_view_json(&scene.view);
    let mut gaussians: Vec<Gaussian> = Vec::new();
    let mut i: usize = 0;
    while i < scene.gaussians.len()
        invariant
            i <= scene.gaussians@.len(),
            gaussians@.len() == i,
            forall|k: int|
                0 <= k < i ==> (#[trigger] gaussians@[k])@ == entry_gaussian(
                    scene.gaussians@[k],
                ),
        decreases scene.gaussians@.len() - i,
    {
        let entry = scene.gaussians[i];
        gaussians.push(
            Gaussian {
                mean: entry.mean,
                log_scale: entry.log_scale,
                quat: entry.quat,
                color_dc: entry.color_dc,
                opacity_raw: entry.opacity_raw,
                sh: None,
            },
        );
        i += 1;
    }
    assert forall|i: int| 0 <= i < gaussians@.len() implies {
        &&& (#[trigger] gaussians@[i]).mean@ == scene.gaussians@[i].mean@
        &&& gaussians@[i].log_scale@ == scene.gaussians@[i].log_scale@
        &&& gaussians@[i].quat@ == scene.gaussians@[i].quat@
        &&& gaussians@[i].color_dc@ == scene.gaussians@[i].color_dc@
        &&& gaussians@[i].opacity_raw == scene.gaussians@[i].opacity_raw
        &&& gaussians@[i].sh is None
    } by {
        assert(gaussians@[i]@ == entry_gaussian(scene.gaussians@[i]));
    }
    assert(gaussians_model(gaussians@) =~= scene.gaussians@.map_values(
        |entry: GaussianEntry| entry_gaussian(entry),
    ));
    (gaussians, background, camera)
}

/// Loading keeps every number of a gaussian bit for bit, and adds no higher coefficients.
pub proof fn lemma_entry_is_kept(gaussians: Seq<Gaussian>, entries: Seq<GaussianEntry>, i: int)
    requires
        gaussians_model(gaussians) == entries.map_values(
            |entry: GaussianEntry| entry_gaussian(entry),
        ),
        0 <= i < entries.len(),
    ensures
        gaussians.len() == entries.len(),
        gaussians[i].mean@ == entries[i].mean@,
        gaussians[i].log_scale@ == entries[i].log_scale@,
        gaussians[i].quat@ == entries[i].quat@,
        gaussians[i].color_dc@ == entries[i].color_dc@,
        gaussians[i].opacity_raw == entries[i].opacity_raw,
        gaussians[i].sh is None,
{
    assert(gaussians_model(gaussians).len() == entries.len());
    assert(gaussians_model(gaussians)[i] == gaussians[i]@);
    assert(gaussians[i]@ == entry_gaussian(entries[i]));
}

/// The camera of a view has all its numbers, bit for bit: the entry of the rotation in row `row`
/// and column `col` is that entry of the view's, which stands there row by row.
pub proof fn lemma_view_is_kept(cam: Camera, view: ViewFile, row: int, col: int)
    requires
        is_camera_of(cam, view),
        0 <= row < 3,
        0 <= col < 3,
    ensures
        cam.r_v@[col * 3 + row] == view.camera.r_v@[row * 3 + col],
        cam.t_v@ == view.camera.t_v@,
        cam.fx == view.camera.fx,
        cam.fy == view.camera.fy,
        cam.cx == view.camera.cx,
        cam.cy == view.camera.cy,
        cam.width == view.width,
        cam.height == view.height,
{
}

} // verus!
