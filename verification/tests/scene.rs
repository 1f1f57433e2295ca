//! Scenes: packing, culling, drawing order.

use tt_splat_viewer::bits::{culled, total_key, BLUR_EPS, NEAR};
use tt_splat_viewer::order::far_to_near;
use tt_splat_viewer::scene::{
    cam_uniform, default_background, preprocess, preprocess_sorted, sorted_raw, to_raw, Camera,
    ColorSource, Draw, Gaussian,
};
use tt_splat_viewer::scene_file::{
    load_scene_json, load_view_json, CameraEntry, GaussianEntry, SceneFile, ViewFile,
};

fn bits(number: f32) -> u32 {
    number.to_bits()
}

fn depths(numbers: &[f32]) -> Vec<u32> {
    numbers.iter().map(|number| number.to_bits()).collect()
}

fn gaussian(x: u32, with_sh: bool) -> Gaussian {
    Gaussian {
        mean: [x, 2, 3],
        log_scale: [4, 5, 6],
        quat: [7, 8, 9, 10],
        color_dc: [11, 12, 13],
        opacity_raw: 14,
        sh: if with_sh { Some([1; 45]) } else { None },
    }
}

const SAMPLES: [f32; 16] = [
    f32::NEG_INFINITY, -3.5, -1.0, -0.2, -1e-40, -0.0, 0.0, 1e-40, 0.19999999, 0.2, 0.20000002, 1.0,
    1e30, f32::INFINITY, f32::NAN, 7.25,
];

#[test]
fn constants_are_those_of_their_numbers() {
    assert_eq!(NEAR, bits(0.2));
    assert_eq!(BLUR_EPS, bits(0.3));
    assert_eq!(default_background().w_b, bits(0.02));
    assert_eq!(default_background().c_b, [bits(0.0); 3]);
}

#[test]
fn keys_order_numbers_totally() {
    for a in SAMPLES {
        for b in SAMPLES {
            assert_eq!(total_key(bits(a)).cmp(&total_key(bits(b))), a.total_cmp(&b), "{a} {b}");
        }
    }
    assert!(total_key(bits(-0.0)) < total_key(bits(0.0)));
    assert!(total_key(0xffc0_0000) < total_key(bits(f32::NEG_INFINITY)));
}

#[test]
fn the_near_plane_culls() {
    for depth in SAMPLES {
        assert_eq!(culled(bits(depth)), depth <= 0.2, "{depth}");
    }
    assert!(!culled(bits(f32::NAN)));
    assert!(!culled(bits(-f32::NAN)));
}

#[test]
fn the_farthest_comes_first() {
    assert_eq!(far_to_near(&depths(&[1.0, 3.0, 2.0, -1.0])), vec![1, 2, 0, 3]);
    assert_eq!(far_to_near(&[]), Vec::<usize>::new());
}

#[test]
fn items_of_the_same_depth_stay_as_they_come() {
    assert_eq!(far_to_near(&depths(&[1.0, 2.0, 1.0, 2.0, 1.0])), vec![1, 3, 0, 2, 4]);
}

#[test]
fn the_drawing_order_is_that_of_a_stable_sort() {
    let numbers: Vec<f32> =
        (0..1000u32).map(|i| ((i.wrapping_mul(2_654_435_761) >> 24) as f32) - 100.0).collect();
    let mut expected: Vec<usize> = (0..numbers.len()).collect();
    expected.sort_by(|a, b| numbers[*b].total_cmp(&numbers[*a]));
    assert_eq!(far_to_near(&depths(&numbers)), expected);
}

#[test]
fn gaussians_are_packed() {
    let raws = to_raw(&[gaussian(1, true), gaussian(21, false)]);
    assert_eq!(raws.len(), 2);
    assert_eq!(raws[0].mean_opacity, [1, 2, 3, 14]);
    assert_eq!(raws[0].log_scale, [4, 5, 6, 0]);
    assert_eq!(raws[0].quat, [7, 8, 9, 10]);
    assert_eq!(raws[0].color_dc, [11, 12, 13, 0]);
    assert_eq!(raws[1].mean_opacity, [21, 2, 3, 14]);
}

#[test]
fn packed_gaussians_can_be_sorted() {
    let scene = [gaussian(0, false), gaussian(1, false), gaussian(2, false)];
    let raws = sorted_raw(&scene, &depths(&[0.1, 5.0, -2.0]));
    let order: Vec<u32> = raws.iter().map(|raw| raw.mean_opacity[0]).collect();
    assert_eq!(order, vec![1, 0, 2]);
}

#[test]
fn sorting_packed_gaussians_loses_none() {
    let scene: Vec<Gaussian> = (0..50).map(|i| gaussian(i, false)).collect();
    let keys: Vec<u32> = (0..50u32).map(|i| bits(((i * 7) % 13) as f32)).collect();
    let mut sorted: Vec<u32> =
        sorted_raw(&scene, &keys).iter().map(|raw| raw.mean_opacity[0]).collect();
    sorted.sort();
    assert_eq!(sorted, (0..50).collect::<Vec<u32>>());
}

#[test]
fn culled_gaussians_are_not_drawn() {
    let scene = [gaussian(0, true), gaussian(1, true), gaussian(2, false), gaussian(3, true)];
    let keys = depths(&[1.0, 0.2, 4.0, 0.3]);
    let draws = preprocess(&scene, &keys, true);
    assert_eq!(
        draws,
        vec![
            Draw { index: 0, color: ColorSource::Sh },
            Draw { index: 2, color: ColorSource::Dc },
            Draw { index: 3, color: ColorSource::Sh },
        ]
    );
    let plain = preprocess(&scene, &keys, false);
    assert!(plain.iter().all(|draw| draw.color == ColorSource::Dc));
    assert_eq!(plain.len(), 3);
}

#[test]
fn sorted_draws_are_the_same_draws() {
    let scene = [gaussian(0, true), gaussian(1, true), gaussian(2, false), gaussian(3, true)];
    let draws = preprocess_sorted(&scene, &depths(&[1.0, -0.2, 4.0, 0.3]), true);
    assert_eq!(
        draws,
        vec![
            Draw { index: 2, color: ColorSource::Dc },
            Draw { index: 0, color: ColorSource::Sh },
            Draw { index: 3, color: ColorSource::Sh },
        ]
    );
}

#[test]
fn a_scene_without_coefficients_is_drawn_alike() {
    let scene = [gaussian(0, false), gaussian(1, false)];
    let keys = depths(&[1.0, 2.0]);
    assert_eq!(preprocess(&scene, &keys, true), preprocess(&scene, &keys, false));
}

#[test]
fn a_rotation_by_rows_becomes_one_by_columns() {
    let cam = Camera::from_rt([0, 1, 2, 3, 4, 5, 6, 7, 8], [20, 21, 22], 30, 31, 32, 33, 40, 41);
    assert_eq!(cam.r_v, [0, 3, 6, 1, 4, 7, 2, 5, 8]);
    assert_eq!(cam.t_v, [20, 21, 22]);
    assert_eq!((cam.fx, cam.fy, cam.cx, cam.cy), (30, 31, 32, 33));
    assert_eq!((cam.width, cam.height), (40, 41));
    let back = Camera::from_rt(cam.r_v, [0; 3], 0, 0, 0, 0, 0, 0);
    assert_eq!(back.r_v, [0, 1, 2, 3, 4, 5, 6, 7, 8]);
}

#[test]
fn a_camera_is_packed() {
    let cam = Camera::from_rt([0, 1, 2, 3, 4, 5, 6, 7, 8], [20, 21, 22], 30, 31, 32, 33, 40, 41);
    let uniform = cam_uniform(&cam, [bits(40.0), bits(41.0)], bits(4.0));
    assert_eq!(uniform.r_v0, [0, 3, 6, 0]);
    assert_eq!(uniform.r_v1, [1, 4, 7, 0]);
    assert_eq!(uniform.r_v2, [2, 5, 8, 0]);
    assert_eq!(uniform.t_v_near, [20, 21, 22, bits(0.2)]);
    assert_eq!(uniform.intr, [30, 31, 32, 33]);
    assert_eq!(uniform.misc, [bits(40.0), bits(41.0), bits(4.0), bits(0.3)]);
}

fn view() -> ViewFile {
    ViewFile {
        width: 64,
        height: 48,
        camera: CameraEntry {
            r_v: [0, 1, 2, 3, 4, 5, 6, 7, 8],
            t_v: [9, 10, 11],
            fx: 12,
            fy: 13,
            cx: 14,
            cy: 15,
        },
        background: default_background(),
    }
}

#[test]
fn a_view_has_a_background_and_a_camera() {
    let (bg, cam) = load_view_json(&view());
    assert_eq!(bg, default_background());
    assert_eq!(cam, Camera::from_rt([0, 1, 2, 3, 4, 5, 6, 7, 8], [9, 10, 11], 12, 13, 14, 15, 64, 48));
}

#[test]
fn a_scene_has_gaussians_too() {
    let entry = GaussianEntry {
        mean: [1, 2, 3],
        log_scale: [4, 5, 6],
        quat: [7, 8, 9, 10],
        color_dc: [11, 12, 13],
        opacity_raw: 14,
    };
    let scene = SceneFile { view: view(), gaussians: vec![entry, entry] };
    let (found, bg, cam) = load_scene_json(&scene);
    assert_eq!(found, vec![gaussian(1, false), gaussian(1, false)]);
    assert_eq!(bg, default_background());
    assert_eq!(cam.r_v[1], 3);
}

#[test]
fn a_joined_scene_is_drawn_like_its_parts() {
    let scene = [gaussian(0, true), gaussian(1, false), gaussian(2, true), gaussian(3, true)];
    let keys = depths(&[1.0, 0.1, 2.0, 3.0]);
    let mut parts = preprocess(&scene[..2], &keys[..2], true);
    for draw in preprocess(&scene[2..], &keys[2..], true) {
        parts.push(Draw { index: draw.index + 2, color: draw.color });
    }
    assert_eq!(preprocess(&scene, &keys, true), parts);
}

#[test]
fn higher_coefficients_do_not_matter_without_a_view() {
    let keys = depths(&[1.0, 2.0]);
    let with = [gaussian(0, true), gaussian(1, true)];
    let without = [gaussian(0, false), gaussian(1, false)];
    assert_eq!(preprocess(&with, &keys, false), preprocess(&without, &keys, false));
    assert_eq!(to_raw(&with), to_raw(&without));
}

#[test]
fn the_order_of_a_scene_does_not_matter_to_sorted_draws() {
    let scene: Vec<Gaussian> = (0..20).map(|i| gaussian(i, i % 3 == 0)).collect();
    let keys: Vec<u32> = (0..20u32).map(|i| bits((i * 7 % 20) as f32 - 4.0)).collect();
    let places: Vec<usize> = (0..20).map(|i| (i * 13 + 6) % 20).collect();
    let other: Vec<Gaussian> = places.iter().map(|i| scene[*i]).collect();
    let other_keys: Vec<u32> = places.iter().map(|i| keys[*i]).collect();
    let shown = |scene: &[Gaussian], keys: &[u32]| -> Vec<(Gaussian, ColorSource)> {
        preprocess_sorted(scene, keys, true).iter().map(|d| (scene[d.index], d.color)).collect()
    };
    assert_eq!(shown(&other, &other_keys), shown(&scene, &keys));
    assert_eq!(shown(&scene, &keys).len(), 15);
}
