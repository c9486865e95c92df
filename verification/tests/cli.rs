use asseteer::cli::{parse, parse_size, CliArgs};

fn p(args: &[&str]) -> CliArgs {
    parse(args.iter().map(|s| s.to_string()).collect())
}

#[test]
fn empty() {
    assert_eq!(p(&[]), CliArgs::default());
    assert!(!p(&[]).isolated());
}

#[test]
fn both_forms() {
    let a = p(&["--data-dir", "C:/x", "--profile-dir=C:/y", "--window-size", "1400x900"]);
    assert_eq!(a.data_dir.as_deref(), Some("C:/x"));
    assert_eq!(a.profile_dir.as_deref(), Some("C:/y"));
    assert_eq!(a.window_size, Some((1400, 900)));
    assert!(a.isolated());
}

#[test]
fn offscreen_and_unknown() {
    let a = p(&["--whatever", "--offscreen", "--window-size=bad"]);
    assert!(a.offscreen);
    assert_eq!(a.window_size, None);
}

#[test]
fn missing_value_does_not_eat_next_flag() {
    let a = p(&["--data-dir", "--offscreen"]);
    assert_eq!(a.data_dir, None);
    assert!(a.offscreen);
}

#[test]
fn sizes_take_either_x_and_trim_spaces() {
    assert_eq!(parse_size("800X600"), Some((800, 600)));
    assert_eq!(parse_size(" 800 x 600 "), Some((800, 600)));
    assert_eq!(parse_size("800x"), None);
    assert_eq!(parse_size("x600"), None);
    assert_eq!(parse_size("-1x600"), None);
    assert_eq!(parse_size("99999999999x1"), None);
}

#[test]
fn later_flags_win() {
    let a = p(&["--data-dir=a", "--data-dir", "b"]);
    assert_eq!(a.data_dir.as_deref(), Some("b"));
}
