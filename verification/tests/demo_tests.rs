use blit::demo::{env_u64_value, parse_input, parse_mouse_params, push_dec, Burst, Rng};

#[test]
fn rng_seed_mixes_constant() {
    let r = Rng::from_seed(1);
    assert_eq!(r.state, 0xdeadbeefcafe1235);
}

#[test]
fn rng_xorshift_sequence() {
    let mut r = Rng::from_seed(1);
    assert_eq!(r.next(), 2872300872577827665);
    assert_eq!(r.next(), 4086544836266762391);
    let mut one = Rng { state: 1 };
    assert_eq!(one.next(), 1082269761);
    assert_ne!(one.state, 0);
}

#[test]
fn push_dec_digit_counts() {
    let mut b = Vec::new();
    push_dec(&mut b, 7);
    assert_eq!(b, b"7".to_vec());
    push_dec(&mut b, 42);
    assert_eq!(b, b"742".to_vec());
    push_dec(&mut b, 999);
    assert_eq!(b, b"742999".to_vec());
    let mut c = Vec::new();
    push_dec(&mut c, 100);
    assert_eq!(c, b"100".to_vec());
    push_dec(&mut c, 0);
    assert_eq!(c, b"1000".to_vec());
}

#[test]
fn env_value_clamps_and_defaults() {
    assert_eq!(env_u64_value(None, 5, 1, 10), 5);
    assert_eq!(env_u64_value(Some("7"), 5, 1, 10), 7);
    assert_eq!(env_u64_value(Some("70"), 5, 1, 10), 10);
    assert_eq!(env_u64_value(Some("0"), 5, 1, 10), 1);
    assert_eq!(env_u64_value(Some("+3"), 5, 1, 10), 3);
    assert_eq!(env_u64_value(Some("abc"), 5, 1, 10), 5);
    assert_eq!(env_u64_value(Some("-3"), 5, 1, 10), 5);
    assert_eq!(env_u64_value(Some(""), 5, 1, 10), 5);
    assert_eq!(env_u64_value(Some("18446744073709551616"), 5, 1, 10), 5);
}

#[test]
fn mouse_params_three_numbers() {
    assert_eq!(parse_mouse_params(b"0;12;5"), Some((0, 12, 5)));
    assert_eq!(parse_mouse_params(b"35;1;1;9"), Some((35, 1, 1)));
    assert_eq!(parse_mouse_params(b"0;12"), None);
    assert_eq!(parse_mouse_params(b"0;x;5"), None);
    assert_eq!(parse_mouse_params(b"0;70000;5"), None);
    assert_eq!(parse_mouse_params(&[0xff, b';', b'1', b';', b'2']), None);
}

#[test]
fn input_quit_keys() {
    let (mut c, mut r) = (1u16, 1u16);
    let mut bursts = Vec::new();
    assert!(parse_input(b"abq", &mut c, &mut r, &mut bursts, 80, 24));
    assert!(parse_input(&[3], &mut c, &mut r, &mut bursts, 80, 24));
    assert!(parse_input(&[4], &mut c, &mut r, &mut bursts, 80, 24));
    assert!(parse_input(&[27], &mut c, &mut r, &mut bursts, 80, 24));
    assert!(!parse_input(b"hello", &mut c, &mut r, &mut bursts, 80, 24));
    assert!(bursts.is_empty());
}

#[test]
fn input_mouse_press_adds_burst() {
    let (mut c, mut r) = (1u16, 1u16);
    let mut bursts = Vec::new();
    let quit = parse_input(b"\x1b[<0;10;5M", &mut c, &mut r, &mut bursts, 80, 24);
    assert!(!quit);
    assert_eq!((c, r), (10, 5));
    assert_eq!(bursts, vec![Burst { col: 10, row: 5, age: 0 }]);
}

#[test]
fn input_mouse_motion_and_release_move_only() {
    let (mut c, mut r) = (1u16, 1u16);
    let mut bursts = Vec::new();
    assert!(!parse_input(b"\x1b[<35;20;7M", &mut c, &mut r, &mut bursts, 80, 24));
    assert_eq!((c, r), (20, 7));
    assert!(!parse_input(b"\x1b[<0;30;8m", &mut c, &mut r, &mut bursts, 80, 24));
    assert_eq!((c, r), (30, 8));
    assert!(!parse_input(b"\x1b[<3;31;9M", &mut c, &mut r, &mut bursts, 80, 24));
    assert!(bursts.is_empty());
}

#[test]
fn input_mouse_clamped_to_screen() {
    let (mut c, mut r) = (1u16, 1u16);
    let mut bursts = Vec::new();
    assert!(!parse_input(b"\x1b[<2;500;0M", &mut c, &mut r, &mut bursts, 80, 24));
    assert_eq!((c, r), (80, 1));
    assert_eq!(bursts, vec![Burst { col: 80, row: 1, age: 0 }]);
}

#[test]
fn input_other_csi_skipped_then_quit() {
    let (mut c, mut r) = (3u16, 4u16);
    let mut bursts = Vec::new();
    assert!(parse_input(b"\x1b[1;2Aq", &mut c, &mut r, &mut bursts, 80, 24));
    assert_eq!((c, r), (3, 4));
    // An unfinished control sequence ends the input without quitting.
    assert!(!parse_input(b"\x1b[12", &mut c, &mut r, &mut bursts, 80, 24));
}
