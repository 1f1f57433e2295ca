//! The interactive viewer.

use tt_splat_viewer::ply::error::PlyError;
use tt_splat_viewer::scene::{ColorSource, Gaussian};
use tt_splat_viewer::viewer::{
    pick_format, preset, split_widths, Action, Button, Controls, Cursor, Event, Method, Pane,
    Panes, Pending, SurfaceFailure, PRESETS,
};

fn bits(number: f32) -> u32 {
    number.to_bits()
}

fn cursor(x: f64, y: f64) -> Cursor {
    Cursor { x: x.to_bits(), y: y.to_bits(), column: x.floor() as i64 }
}

fn gaussian(with_sh: bool) -> Gaussian {
    Gaussian {
        mean: [0; 3],
        log_scale: [0; 3],
        quat: [0; 4],
        color_dc: [0; 3],
        opacity_raw: 0,
        sh: if with_sh { Some([0; 45]) } else { None },
    }
}

fn mouse(button: Button, pressed: bool) -> Event {
    Event::Mouse { button, pressed }
}

fn moved(x: f64, y: f64) -> Event {
    Event::CursorMoved { cursor: cursor(x, y) }
}

fn key(text: &str, pressed: bool) -> Event {
    Event::Key { pressed, text: Some(text.to_string()) }
}

fn dropped(extension: &str) -> Event {
    Event::DroppedFile { extension: Some(extension.to_string()) }
}

#[test]
fn panes_share_the_width() {
    assert_eq!(split_widths(1280), (640, 640));
    assert_eq!(split_widths(641), (320, 321));
    assert_eq!(split_widths(2), (1, 1));
    assert_eq!(split_widths(1), (1, 1));
    assert_eq!(split_widths(0), (1, 1));
    assert_eq!(split_widths(u32::MAX), (0x7fff_ffff, 0x8000_0000));
}

#[test]
fn presets_are_those_of_their_numbers() {
    assert_eq!((preset(0).w_b, preset(0).c_b), (bits(0.02), [bits(0.0); 3]));
    assert_eq!((preset(1).w_b, preset(1).c_b), (bits(0.0486), [bits(1.0); 3]));
    assert_eq!((preset(2).w_b, preset(2).c_b), (bits(0.02), [bits(0.10), bits(0.10), bits(0.12)]));
    assert_eq!(PRESETS, 3);
}

#[test]
fn quads_reach_as_far_as_their_method_needs() {
    assert_eq!(Method::Wsr.radius_sigma(), bits(2.0));
    assert_eq!(Method::Gs.radius_sigma(), bits(3.0));
}

#[test]
fn the_first_srgb_format_is_picked() {
    assert_eq!(pick_format(&[false, true, true]), 1);
    assert_eq!(pick_format(&[false, false]), 0);
    assert_eq!(pick_format(&[true]), 0);
}

#[test]
fn panes_draw_by_their_method() {
    let scene = vec![gaussian(true), gaussian(true), gaussian(false)];
    let depths = [bits(1.0), bits(3.0), bits(2.0)];
    let left = Pane::new(Method::Wsr, scene.clone()).instances_for(&depths);
    assert_eq!(left.iter().map(|d| d.index).collect::<Vec<usize>>(), vec![0, 1, 2]);
    assert!(left.iter().all(|d| d.color == ColorSource::Dc));
    let right = Pane::new(Method::Gs, scene).instances_for(&depths);
    assert_eq!(right.iter().map(|d| d.index).collect::<Vec<usize>>(), vec![1, 2, 0]);
    assert_eq!(right[0].color, ColorSource::Sh);
    assert_eq!(right[1].color, ColorSource::Dc);
}

#[test]
fn one_pane_gets_another_scene() {
    let mut panes = Panes::new(vec![gaussian(false)], vec![gaussian(false); 2]);
    assert_eq!(panes.pane_a.method, Method::Wsr);
    assert_eq!(panes.pane_b.method, Method::Gs);
    panes.set_scene_pane(0, vec![gaussian(true); 3]);
    assert_eq!((panes.pane_a.gaussians.len(), panes.pane_b.gaussians.len()), (3, 2));
    panes.set_scene_pane(1, vec![gaussian(true); 4]);
    assert_eq!((panes.pane_a.gaussians.len(), panes.pane_b.gaussians.len()), (3, 4));
    assert_eq!(panes.pane_a.method, Method::Wsr);
    assert_eq!(panes.pane_b.method, Method::Gs);
}

#[test]
fn the_left_button_orbits() {
    let mut controls = Controls::new(800, 600);
    assert_eq!(controls.step(&moved(10.0, 10.0)), Action::Nothing);
    assert_eq!(controls.step(&mouse(Button::Left, true)), Action::Nothing);
    assert_eq!(
        controls.step(&moved(12.5, 9.0)),
        Action::Drag { orbit: true, pan: false, from: cursor(10.0, 10.0), to: cursor(12.5, 9.0) }
    );
    assert_eq!(
        controls.step(&moved(13.0, 9.0)),
        Action::Drag { orbit: true, pan: false, from: cursor(12.5, 9.0), to: cursor(13.0, 9.0) }
    );
    assert_eq!(controls.step(&mouse(Button::Left, false)), Action::Nothing);
    assert_eq!(controls.step(&moved(20.0, 20.0)), Action::Nothing);
    assert_eq!(controls.step(&moved(30.0, 20.0)), Action::Nothing);
}

#[test]
fn the_right_button_pans() {
    let mut controls = Controls::new(800, 600);
    controls.step(&mouse(Button::Right, true));
    assert_eq!(controls.step(&moved(1.0, 1.0)), Action::Nothing);
    assert_eq!(
        controls.step(&moved(2.0, 2.0)),
        Action::Drag { orbit: false, pan: true, from: cursor(1.0, 1.0), to: cursor(2.0, 2.0) }
    );
    controls.step(&mouse(Button::Left, true));
    assert_eq!(
        controls.step(&moved(3.0, 2.0)),
        Action::Drag { orbit: true, pan: true, from: cursor(2.0, 2.0), to: cursor(3.0, 2.0) }
    );
    controls.step(&mouse(Button::Right, false));
    assert_eq!(
        controls.step(&moved(4.0, 2.0)),
        Action::Drag { orbit: true, pan: false, from: cursor(3.0, 2.0), to: cursor(4.0, 2.0) }
    );
}

#[test]
fn the_left_button_does_not_disturb_panning() {
    let mut controls = Controls::new(800, 600);
    controls.step(&moved(1.0, 1.0));
    controls.step(&mouse(Button::Right, true));
    controls.step(&mouse(Button::Left, true));
    controls.step(&mouse(Button::Left, false));
    assert_eq!(
        controls.step(&moved(2.0, 1.0)),
        Action::Drag { orbit: false, pan: true, from: cursor(1.0, 1.0), to: cursor(2.0, 1.0) }
    );
    controls.step(&mouse(Button::Right, false));
    assert_eq!(controls.step(&moved(3.0, 1.0)), Action::Nothing);
}

#[test]
fn the_first_move_after_a_left_release_does_not_turn() {
    let mut controls = Controls::new(800, 600);
    controls.step(&moved(1.0, 1.0));
    controls.step(&mouse(Button::Left, true));
    controls.step(&mouse(Button::Left, false));
    controls.step(&mouse(Button::Left, true));
    assert_eq!(controls.step(&moved(2.0, 1.0)), Action::Nothing);
    assert_eq!(
        controls.step(&moved(3.0, 1.0)),
        Action::Drag { orbit: true, pan: false, from: cursor(2.0, 1.0), to: cursor(3.0, 1.0) }
    );
}

#[test]
fn clicks_do_not_move_a_dropped_file() {
    for button in [Button::Left, Button::Right, Button::Other] {
        let mut controls = Controls::new(800, 600);
        controls.step(&moved(700.0, 5.0));
        controls.step(&mouse(button, true));
        controls.step(&mouse(button, false));
        assert_eq!(controls.step(&dropped("ply")), Action::Load { pane: 1 });
    }
}

#[test]
fn other_buttons_do_nothing() {
    let mut controls = Controls::new(800, 600);
    controls.step(&moved(1.0, 1.0));
    let before = controls;
    assert_eq!(controls.step(&mouse(Button::Other, true)), Action::Nothing);
    assert_eq!(controls.step(&mouse(Button::Other, false)), Action::Nothing);
    assert_eq!(controls, before);
}

#[test]
fn the_key_b_cycles_the_background() {
    let mut controls = Controls::new(800, 600);
    assert_eq!(controls.current_bg(), preset(0));
    assert_eq!(controls.step(&key("b", true)), Action::SetBackground { preset: 1 });
    assert_eq!(controls.current_bg(), preset(1));
    assert_eq!(controls.step(&key("b", false)), Action::Nothing);
    assert_eq!(controls.step(&key("B", true)), Action::Nothing);
    assert_eq!(controls.step(&key("bb", true)), Action::Nothing);
    assert_eq!(controls.step(&Event::Key { pressed: true, text: None }), Action::Nothing);
    assert_eq!(controls.step(&key("b", true)), Action::SetBackground { preset: 2 });
    assert_eq!(controls.cycle_background(), Action::SetBackground { preset: 0 });
    assert_eq!(controls, Controls::new(800, 600));
}

#[test]
fn a_window_of_no_size_is_ignored() {
    let mut controls = Controls::new(800, 600);
    assert_eq!(controls.step(&Event::Resized { width: 0, height: 5 }), Action::Nothing);
    assert_eq!(controls.step(&Event::Resized { width: 5, height: 0 }), Action::Nothing);
    assert_eq!(controls.surface_size(), (800, 600));
    assert_eq!(
        controls.step(&Event::Resized { width: 5, height: 7 }),
        Action::Resize { width: 5, height: 7 }
    );
    assert_eq!(controls.surface_size(), (5, 7));
    assert_eq!(Controls::new(0, 0).surface_size(), (1, 1));
    assert_eq!(controls.resize(9, 9), Action::Resize { width: 9, height: 9 });
}

#[test]
fn a_dropped_file_goes_to_the_pane_under_the_cursor() {
    let mut controls = Controls::new(801, 600);
    assert_eq!(controls.step(&dropped("ply")), Action::Load { pane: 0 });
    controls.step(&moved(399.9, 5.0));
    assert_eq!(controls.step(&dropped("ply")), Action::Load { pane: 0 });
    controls.step(&moved(400.0, 5.0));
    assert_eq!(controls.step(&dropped("ply")), Action::Load { pane: 1 });
    assert_eq!(controls.step(&dropped("PLY")), Action::Nothing);
    assert_eq!(controls.step(&dropped("json")), Action::Nothing);
    assert_eq!(controls.step(&Event::DroppedFile { extension: None }), Action::Nothing);
    assert_eq!(controls.pane_at_x(-3), 0);
    assert_eq!(controls.pane_at_x(10_000), 1);
}

#[test]
fn an_empty_scene_is_not_shown() {
    let mut controls = Controls::new(800, 600);
    assert_eq!(controls.step(&Event::Loaded { pane: 1, gaussians: 0 }), Action::Nothing);
    assert_eq!(
        controls.step(&Event::Loaded { pane: 1, gaussians: 9 }),
        Action::SetScene { pane: 1 }
    );
}

#[test]
fn failures_of_the_surface() {
    let mut controls = Controls::new(800, 600);
    let failed = |failure| Event::DrawFailed { failure };
    let again = Action::Resize { width: 800, height: 600 };
    assert_eq!(controls.step(&failed(SurfaceFailure::Lost)), again);
    assert_eq!(controls.step(&failed(SurfaceFailure::Outdated)), again);
    assert_eq!(controls.step(&failed(SurfaceFailure::OutOfMemory)), Action::Exit);
    assert_eq!(controls.step(&failed(SurfaceFailure::Other)), Action::Nothing);
    assert_eq!(Controls::new(0, 600).step(&failed(SurfaceFailure::Lost)), Action::Nothing);
}

#[test]
fn plain_events() {
    let mut controls = Controls::new(800, 600);
    let before = controls;
    assert_eq!(controls.step(&Event::CloseRequested), Action::Exit);
    assert_eq!(controls.step(&Event::Wheel), Action::Zoom);
    assert_eq!(controls.step(&Event::RedrawRequested), Action::Draw);
    assert_eq!(controls, before);
}

#[test]
fn a_page_can_ask_for_scenes_and_backgrounds() {
    let mut pending = Pending::new();
    assert!(!pending.load_ply_into(0, vec![]));
    assert!(pending.load_ply_into(0, vec![gaussian(false)]));
    assert!(pending.load_ply_into(7, vec![gaussian(true); 2]));
    assert!(!pending.load_ply_into(0, vec![]));
    pending.cycle_background();
    let (scene, cycle) = pending.take();
    assert_eq!(scene, Some((1, vec![gaussian(true); 2])));
    assert!(cycle);
    assert_eq!(pending.take(), (None, false));
}

#[test]
fn a_file_that_cannot_be_read_is_not_taken() {
    let mut pending = Pending::new();
    assert!(!pending.load_parsed(0, Err(PlyError::NoEndHeader)));
    assert_eq!(pending.scene, None);
    pending.cycle_background();
    assert!(pending.load_parsed(2, Ok(vec![gaussian(true)])));
    assert!(!pending.load_parsed(0, Err(PlyError::BigEndian)));
    assert!(!pending.load_parsed(0, Ok(vec![])));
    assert_eq!(pending.take(), (Some((1, vec![gaussian(true)])), true));
    assert!(pending.load_parsed(0, Ok(vec![gaussian(false); 2])));
    assert_eq!(pending.take(), (Some((0, vec![gaussian(false); 2])), false));
}
