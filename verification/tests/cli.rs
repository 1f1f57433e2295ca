//! Command lines.

use tt_splat_viewer::cli::{first_scene, load_scene, parse_args, FirstScene, Input, Job};
use tt_splat_viewer::viewer::Method;

fn job(args: &[&str]) -> Option<Job> {
    let args: Vec<String> = args.iter().map(|arg| arg.to_string()).collect();
    parse_args(&args)
}

fn asked(args: &[&str]) -> Job {
    job(args).expect("a job")
}

#[test]
fn input_and_output_are_needed() {
    assert!(job(&[]).is_none());
    assert!(job(&["scene.json"]).is_none());
    assert!(job(&["--gs"]).is_none());
    assert!(job(&["--gs", "scene.json"]).is_none());
    assert!(job(&["scene.json", "out.png"]).is_some());
}

#[test]
fn a_full_scene() {
    let job = asked(&["validation/scene.json", "out.png", "ignored"]);
    assert!(!job.gs);
    assert_eq!(job.out_path, "out.png");
    assert_eq!(job.image_size(), None);
    assert_eq!(job.method(), Method::Wsr);
    match job.input {
        Input::Scene { path } => assert_eq!(path, "validation/scene.json"),
        _ => panic!("another input"),
    }
}

#[test]
fn a_file_with_a_view() {
    let job = asked(&["model.ply", "out.png", "view.json"]);
    assert_eq!(job.image_size(), None);
    match job.input {
        Input::PlyView { path, view } => {
            assert_eq!((path.as_str(), view.as_str()), ("model.ply", "view.json"));
        }
        _ => panic!("another input"),
    }
}

#[test]
fn a_file_that_is_framed() {
    let job = asked(&["model.ply", "out.png", "--orbit", "30", "15"]);
    assert_eq!(job.image_size(), Some((800, 800)));
    match job.input {
        Input::PlyOrbit { path, yaw, pitch } => {
            assert_eq!(path, "model.ply");
            assert_eq!((yaw.as_deref(), pitch.as_deref()), (Some("30"), Some("15")));
        }
        _ => panic!("another input"),
    }
    match asked(&["model.ply", "out.png"]).input {
        Input::PlyOrbit { yaw, pitch, .. } => assert_eq!((yaw, pitch), (None, None)),
        _ => panic!("another input"),
    }
    match asked(&["model.ply", "out.png", "--orbit", "30"]).input {
        Input::PlyOrbit { yaw, pitch, .. } => {
            assert_eq!((yaw.as_deref(), pitch), (Some("30"), None));
        }
        _ => panic!("another input"),
    }
}

#[test]
fn the_demo() {
    let job = asked(&["--demo", "out.png", "40", "-5"]);
    assert_eq!(job.image_size(), Some((800, 800)));
    match job.input {
        Input::Demo { yaw, pitch } => {
            assert_eq!((yaw.as_deref(), pitch.as_deref()), (Some("40"), Some("-5")));
        }
        _ => panic!("another input"),
    }
}

#[test]
fn both_panes() {
    let job = asked(&["--dual", "out.png"]);
    assert_eq!(job.image_size(), Some((1280, 720)));
    assert!(matches!(job.input, Input::Dual));
}

#[test]
fn a_leading_flag_chooses_the_method() {
    let job = asked(&["--gs", "model.ply", "out.png", "--orbit", "1", "2"]);
    assert!(job.gs);
    assert_eq!(job.method(), Method::Gs);
    assert_eq!(job.out_path, "out.png");
    match job.input {
        Input::PlyOrbit { path, yaw, pitch } => {
            assert_eq!(path, "model.ply");
            assert_eq!((yaw.as_deref(), pitch.as_deref()), (Some("1"), Some("2")));
        }
        _ => panic!("another input"),
    }
    match asked(&["--gs", "--gs", "out.png"]).input {
        Input::Scene { path } => assert_eq!(path, "--gs"),
        _ => panic!("another input"),
    }
}

#[test]
fn the_viewer_shows_a_file_by_its_ending() {
    assert!(load_scene(&Some("path/to/model.ply".to_string())));
    assert!(load_scene(&Some(".ply".to_string())));
    assert!(!load_scene(&Some("ply".to_string())));
    assert!(!load_scene(&Some("model.PLY".to_string())));
    assert!(!load_scene(&None));
}

#[test]
fn the_viewer_begins_with_a_file_or_the_synthetic_scene() {
    assert_eq!(first_scene(&None), FirstScene::Synthetic);
    assert_eq!(first_scene(&Some("scene.json".to_string())), FirstScene::Synthetic);
    assert_eq!(first_scene(&Some("model.ply".to_string())), FirstScene::File);
    assert_eq!(FirstScene::File.without_file(), FirstScene::Demo);
    assert_eq!(FirstScene::Synthetic.without_file(), FirstScene::Synthetic);
}
