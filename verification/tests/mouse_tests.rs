use blit::mouse::{button_report, motion_report, wheel_reports, wheel_scroll, MouseButton, MouseReport};

fn rep(kind: u8, button: u8, col: u16, row: u16) -> MouseReport {
    MouseReport { kind, button, col, row }
}

#[test]
fn motion_reports_drags_and_any_motion() {
    assert_eq!(motion_report(3, 1, Some((4, 7))), Some(rep(2, 32, 7, 4)));
    assert_eq!(motion_report(3, 3, Some((4, 7))), Some(rep(2, 34, 7, 4)));
    assert_eq!(motion_report(3, 0, Some((4, 7))), None);
    assert_eq!(motion_report(4, 0, Some((4, 7))), Some(rep(2, 35, 7, 4)));
    assert_eq!(motion_report(4, 2, None), None);
    assert_eq!(motion_report(2, 1, Some((0, 0))), None);
}

#[test]
fn buttons_press_and_release() {
    assert_eq!(button_report(false, 1, MouseButton::Right, true, Some((1, 2)), 0), (3, Some(rep(0, 2, 2, 1))));
    assert_eq!(button_report(false, 1, MouseButton::Right, false, Some((1, 2)), 3), (0, None));
    assert_eq!(button_report(false, 2, MouseButton::Left, false, Some((1, 2)), 1), (0, Some(rep(1, 0, 2, 1))));
    assert_eq!(button_report(true, 2, MouseButton::Left, true, Some((1, 2)), 0), (0, None));
    assert_eq!(button_report(false, 0, MouseButton::Left, true, Some((1, 2)), 0), (0, None));
    assert_eq!(button_report(false, 2, MouseButton::Other, true, Some((1, 2)), 2), (2, None));
    assert_eq!(button_report(false, 2, MouseButton::Middle, true, None, 0), (0, None));
}

#[test]
fn wheel_ticks_and_scrolling() {
    assert_eq!(wheel_reports(true, 2, Some((3, 4))), vec![rep(0, 64, 4, 3), rep(0, 64, 4, 3)]);
    assert_eq!(wheel_reports(false, 9, Some((0, 0))).len(), 5);
    assert_eq!(wheel_reports(false, 9, Some((0, 0)))[0].button, 65);
    assert!(wheel_reports(true, 3, None).is_empty());
    assert_eq!(wheel_scroll(10, 3, true, 100), 13);
    assert_eq!(wheel_scroll(98, 3, true, 100), 100);
    assert_eq!(wheel_scroll(10, 3, false, 100), 7);
    assert_eq!(wheel_scroll(2, 3, false, 100), 0);
}
