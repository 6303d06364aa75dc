use cove_image_viewer::keys::{plan_keys, DisplayFlags, KeyInput, ViewAction};
use cove_image_viewer::viewer::{cycle_fit_mode, FitMode, Orientation};

fn no_keys() -> KeyInput {
    KeyInput {
        right: false,
        left: false,
        home: false,
        end: false,
        f11: false,
        escape: false,
        minus: false,
        ctrl_o: false,
        ctrl_shift_s: false,
        ctrl_y: false,
        ctrl_k: false,
        ctrl_c: false,
        ctrl_z: false,
        delete: false,
        texts: Vec::new(),
    }
}

fn flags(fullscreen: bool, show_info: bool, slideshow_active: bool) -> DisplayFlags {
    DisplayFlags { fullscreen, show_info, slideshow_active }
}

#[test]
fn fit_mode_cycle() {
    assert_eq!(cycle_fit_mode(FitMode::FitWindow), FitMode::ActualSize);
    assert_eq!(cycle_fit_mode(FitMode::ActualSize), FitMode::FitWindow);
    assert_eq!(cycle_fit_mode(FitMode::FitWidth), FitMode::FitWindow);
    assert_eq!(cycle_fit_mode(FitMode::FitHeight), FitMode::FitWindow);
}

#[test]
fn rotation_and_flips() {
    let mut o = Orientation::new();
    assert_eq!(o.effective_size(40, 30), (40, 30));
    o.rotate_cw();
    assert_eq!(o.rotation, 90);
    assert_eq!(o.effective_size(40, 30), (30, 40));
    assert_eq!(o.uv_corners(), ((0, 1), (0, 0), (1, 0), (1, 1)));
    o.rotate_ccw();
    assert_eq!(o.rotation, 0);
    o.rotate_ccw();
    assert_eq!(o.rotation, 270);
    assert!(o.swaps_sides());
    for _ in 0..4 {
        o.rotate_cw();
    }
    assert_eq!(o.rotation, 270);
    let mut p = Orientation::new();
    p.flip_horizontal();
    assert_eq!(p.uv_corners(), ((1, 0), (0, 0), (0, 1), (1, 1)));
    p.flip_vertical();
    assert_eq!(p.uv_corners(), ((1, 1), (0, 1), (0, 0), (1, 0)));
    p.flip_horizontal();
    p.flip_vertical();
    assert_eq!(p.uv_corners(), ((0, 0), (1, 0), (1, 1), (0, 1)));
}

#[test]
fn named_keys_give_actions_in_order() {
    let mut f = flags(false, false, false);
    let mut k = no_keys();
    k.right = true;
    k.end = true;
    k.minus = true;
    k.ctrl_o = true;
    k.left = true;
    k.home = true;
    let a = plan_keys(&mut f, &k);
    assert_eq!(
        a,
        vec![ViewAction::Next, ViewAction::Prev, ViewAction::First, ViewAction::Last, ViewAction::ZoomOut, ViewAction::OpenDialog]
    );
    assert_eq!(f, flags(false, false, false));
}

#[test]
fn typed_characters() {
    let mut f = flags(false, false, false);
    let mut k = no_keys();
    k.texts = ["+", "=", "0", "1", "f", "r", "l", "h", "v", "x", "ii", "i"].iter().map(|s| s.to_string()).collect();
    let a = plan_keys(&mut f, &k);
    assert_eq!(
        a,
        vec![
            ViewAction::ZoomIn,
            ViewAction::ZoomIn,
            ViewAction::FitWindow,
            ViewAction::ActualSize,
            ViewAction::CycleFit,
            ViewAction::RotateCw,
            ViewAction::RotateCcw,
            ViewAction::FlipH,
            ViewAction::FlipV
        ]
    );
    assert_eq!(f, flags(false, true, false));
}

#[test]
fn slideshow_and_escape() {
    let mut f = flags(false, false, false);
    let mut k = no_keys();
    k.texts = vec!["s".to_string()];
    assert_eq!(plan_keys(&mut f, &k), vec![ViewAction::RestartSlideshowTimer]);
    assert_eq!(f, flags(true, false, true));
    let mut esc = no_keys();
    esc.escape = true;
    assert_eq!(plan_keys(&mut f, &esc), vec![ViewAction::ClearSelection, ViewAction::ExitCompare]);
    assert_eq!(f, flags(true, false, false));
    plan_keys(&mut f, &esc);
    assert_eq!(f, flags(false, false, false));
    plan_keys(&mut f, &esc);
    assert_eq!(f, flags(false, false, false));
    let mut f11 = no_keys();
    f11.f11 = true;
    plan_keys(&mut f, &f11);
    assert_eq!(f, flags(true, false, false));
    f11.escape = true;
    plan_keys(&mut f, &f11);
    assert_eq!(f, flags(false, false, false));
    let mut stop = no_keys();
    stop.texts = vec!["s".to_string()];
    let mut g = flags(true, false, true);
    plan_keys(&mut g, &stop);
    assert_eq!(g, flags(true, false, false));
}

#[test]
fn editing_shortcuts_give_their_actions_in_order() {
    let mut f = flags(false, true, false);
    let mut k = no_keys();
    k.delete = true;
    k.ctrl_z = true;
    k.ctrl_c = true;
    k.ctrl_k = true;
    k.ctrl_y = true;
    k.ctrl_shift_s = true;
    k.ctrl_o = true;
    let a = plan_keys(&mut f, &k);
    assert_eq!(
        a,
        vec![
            ViewAction::OpenDialog,
            ViewAction::SaveAs,
            ViewAction::CropToSelection,
            ViewAction::Compare,
            ViewAction::CopyImage,
            ViewAction::UndoCrop,
            ViewAction::ConfirmDelete
        ]
    );
    assert_eq!(f, flags(false, true, false));
    let mut del = no_keys();
    del.delete = true;
    del.texts = vec!["x".to_string()];
    assert_eq!(plan_keys(&mut f, &del), vec![ViewAction::ConfirmDelete]);
    let mut esc = no_keys();
    esc.escape = true;
    esc.ctrl_k = true;
    assert_eq!(
        plan_keys(&mut f, &esc),
        vec![ViewAction::ClearSelection, ViewAction::ExitCompare, ViewAction::Compare]
    );
}
