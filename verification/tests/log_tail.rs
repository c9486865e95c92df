use asseteer::log_tail::last_meaningful_line;

#[test]
fn prefers_the_last_progress_line() {
    let log = "Using Python 3.11\nResolved 10 packages in 2s\nsome chatter\n\n";
    assert_eq!(last_meaningful_line(log), Some("Resolved 10 packages in 2s".to_string()));
    let log = "Downloading torch (2.1GiB)\n   Installing numpy   \nplain\n";
    assert_eq!(last_meaningful_line(log), Some("Installing numpy".to_string()));
}

#[test]
fn falls_back_to_the_last_non_blank_line() {
    assert_eq!(last_meaningful_line("first\n  second line  \n \t\n"), Some("second line".to_string()));
}

#[test]
fn blank_tails_have_no_line() {
    assert_eq!(last_meaningful_line(""), None);
    assert_eq!(last_meaningful_line("\n \n\t\r\n"), None);
}

#[test]
fn windows_line_endings_are_trimmed() {
    assert_eq!(last_meaningful_line("Installing x\r\nok\r\n"), Some("Installing x".to_string()));
    assert_eq!(last_meaningful_line("error: boom\r"), Some("error: boom".to_string()));
}

#[test]
fn long_lines_are_cut_at_eighty_bytes() {
    let long = format!("Downloading {}", "x".repeat(100));
    let shown = last_meaningful_line(&long).unwrap();
    assert_eq!(shown, format!("{}\u{2026}", &long[..80]));

    let exact = "y".repeat(80);
    assert_eq!(last_meaningful_line(&exact), Some(exact.clone()));

    let wide = "\u{e9}".repeat(50);
    assert_eq!(last_meaningful_line(&wide), Some(format!("{}\u{2026}", "\u{e9}".repeat(40))));
}
