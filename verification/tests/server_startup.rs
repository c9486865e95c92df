use asseteer::server_startup::{
    decimal_text, exit_log_section, progress_due, ready_after_ms, uv_run_args, venv_server_args, MAX_READY_POLLS,
};

#[test]
fn numbers_in_decimal() {
    assert_eq!(decimal_text(0), "0");
    assert_eq!(decimal_text(7), "7");
    assert_eq!(decimal_text(5555), "5555");
    assert_eq!(decimal_text(u64::MAX), u64::MAX.to_string());
}

#[test]
fn uv_command_line() {
    assert_eq!(uv_run_args(None, 5555), vec!["run", "--python", "3.13", "clap_server.py", "--port", "5555"]);
    assert_eq!(
        uv_run_args(Some("https://download.pytorch.org/whl/cu128"), 5556),
        vec![
            "run",
            "--python",
            "3.13",
            "--index",
            "https://download.pytorch.org/whl/cu128",
            "clap_server.py",
            "--port",
            "5556"
        ]
    );
}

#[test]
fn venv_command_line() {
    assert_eq!(
        venv_server_args(5557),
        vec!["-m", "uvicorn", "clap_server:app", "--host", "127.0.0.1", "--port", "5557"]
    );
}

#[test]
fn wait_schedule() {
    assert_eq!(MAX_READY_POLLS, 3600);
    assert!(!progress_due(0));
    assert!(progress_due(19));
    assert!(!progress_due(20));
    assert!(progress_due(39));
    assert_eq!(ready_after_ms(0), 500);
    assert_eq!(ready_after_ms(3599), 1_800_000);
}

#[test]
fn exit_log_sections() {
    assert_eq!(exit_log_section("  \n"), "");
    assert_eq!(exit_log_section("\nTraceback: boom\n"), "\n\nLast log output:\nTraceback: boom");
}
