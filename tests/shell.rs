use filen_cli::path::RemotePath;
use filen_cli::shell::{
    command_result, confirm_answer, confirm_choices, confirm_trimmed, read_line, read_trimmed_line,
    CommandResult, Commands, ShellLine,
};

#[test]
fn cd_moves_working_path() {
    let here = RemotePath::new("/root/dir");
    let r = command_result(&here, &Commands::Cd { directory: "../x".to_string() });
    assert_eq!(r.working_path.unwrap().0, "/root/x");
    assert!(!r.exit);
}

#[test]
fn exit_ends_shell() {
    let here = RemotePath::new("/");
    let r = command_result(&here, &Commands::Exit);
    assert!(r.working_path.is_none());
    assert!(r.exit);
}

#[test]
fn ls_changes_nothing() {
    let here = RemotePath::new("/");
    let r = command_result(&here, &Commands::Ls { directory: None });
    assert!(r.working_path.is_none());
    assert!(!r.exit);
}

#[test]
fn command_result_default() {
    let r = CommandResult::default();
    assert!(r.working_path.is_none());
    assert!(!r.exit);
}

#[test]
fn confirm_answers() {
    assert!(confirm_answer("\n", true));
    assert!(!confirm_answer("  \n", false));
    assert!(confirm_answer(" y\n", false));
    assert!(confirm_answer("Y", false));
    assert!(!confirm_answer("n\n", true));
    assert!(!confirm_answer("yes\n", true));
    assert!(confirm_trimmed("", true));
    assert!(!confirm_trimmed("no", true));
}

#[test]
fn confirm_choice_labels() {
    assert_eq!(confirm_choices(true), "Y/n");
    assert_eq!(confirm_choices(false), "y/N");
}

#[test]
fn blank_line_is_blank() {
    assert!(matches!(read_line("   \n"), ShellLine::Blank));
    assert!(matches!(read_trimmed_line("", Some(vec![])), ShellLine::Blank));
}

#[test]
fn bad_quoting_is_reported() {
    assert!(matches!(read_line("cd \"unclosed\n"), ShellLine::BadQuoting));
    assert!(matches!(read_trimmed_line("x", None), ShellLine::BadQuoting));
}

#[test]
fn line_words_follow_program_name() {
    match read_line("  cd \"my dir\"/sub  \n") {
        ShellLine::Args(a) => assert_eq!(a, vec!["filen", "cd", "my dir/sub"]),
        _ => panic!("expected words"),
    }
    match read_trimmed_line("ls", Some(vec!["ls".to_string()])) {
        ShellLine::Args(a) => assert_eq!(a, vec!["filen", "ls"]),
        _ => panic!("expected words"),
    }
}
