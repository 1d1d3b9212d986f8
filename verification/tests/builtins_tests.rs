use shell::builtins::{cd_target, dispatch, echo_text, parse_job_id, text_eq, Action};
use shell::parser::parse;

#[test]
fn job_ids_read_like_std() {
    let samples = [
        "1", "+3", "007", "-1", "", "+", "-", "12a", " 1", "1 ", "++1", "٣",
        "18446744073709551615", "18446744073709551616", "99999999999999999999x",
    ];
    for s in samples {
        assert_eq!(parse_job_id(s), s.parse::<usize>().ok(), "{:?}", s);
    }
    assert_eq!(parse_job_id("42"), Some(42));
    assert_eq!(parse_job_id("+0"), Some(0));
    assert_eq!(parse_job_id("x"), None);
}

#[test]
fn echo_text_joins_the_arguments() {
    let c = parse("echo  hello   world > f");
    assert_eq!(echo_text(&c.command[0]), "hello world");
    let e = parse("echo");
    assert_eq!(echo_text(&e.command[0]), "");
}

#[test]
fn cd_target_is_the_first_argument() {
    assert_eq!(cd_target(&parse("cd /tmp extra").command[0]), Some("/tmp".to_string()));
    assert_eq!(cd_target(&parse("cd").command[0]), None);
}

#[test]
fn text_eq_compares_characters() {
    assert!(text_eq("fg", "fg"));
    assert!(!text_eq("fg", "f"));
    assert!(!text_eq("ab", "ac"));
    assert!(text_eq("", ""));
}

#[test]
fn dispatch_recognises_builtins_of_single_commands() {
    assert_eq!(dispatch(&parse("")), Action::Skip);
    assert_eq!(dispatch(&parse("| ls")), Action::Skip);
    assert_eq!(dispatch(&parse("exit")), Action::Exit);
    assert_eq!(dispatch(&parse("pwd")), Action::Pwd);
    assert_eq!(dispatch(&parse("cd /")), Action::Cd);
    assert_eq!(dispatch(&parse("echo hi")), Action::Echo);
    assert_eq!(dispatch(&parse("jobs")), Action::Jobs);
    assert_eq!(dispatch(&parse("fg 2")), Action::Fg(Some(2)));
    assert_eq!(dispatch(&parse("fg")), Action::Fg(None));
    assert_eq!(dispatch(&parse("bg x")), Action::Bg(None));
    assert_eq!(dispatch(&parse("bg +1")), Action::Bg(Some(1)));
    assert_eq!(dispatch(&parse("ls -l")), Action::Run);
    assert_eq!(dispatch(&parse("exit | cat")), Action::RunPipeline);
    assert_eq!(dispatch(&parse("\"exit\"")), Action::Exit);
    assert_eq!(dispatch(&parse("exit2")), Action::Run);
}
