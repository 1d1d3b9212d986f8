use shell::parser::parse;
use shell::plan::{pipe_count, wire_command, wire_pipeline, Sink, Source, Wiring};
use shell::text::{push_decimal, push_signed_decimal};

#[test]
fn single_command_uses_its_files() {
    let c = parse("sort < a > b");
    assert_eq!(wire_command(&c.command[0]), Wiring { input: Source::File, output: Sink::File });
    let c = parse("ls");
    assert_eq!(wire_command(&c.command[0]), Wiring { input: Source::Terminal, output: Sink::Terminal });
}

#[test]
fn pipeline_stages_share_pipes_with_neighbours() {
    let c = parse("cat < in | grep x > ignored | sort >> out");
    let w = wire_pipeline(&c.command);
    assert_eq!(
        w,
        vec![
            Wiring { input: Source::File, output: Sink::Pipe(0) },
            Wiring { input: Source::Pipe(0), output: Sink::Pipe(1) },
            Wiring { input: Source::Pipe(1), output: Sink::File },
        ]
    );
    assert_eq!(pipe_count(c.command.len()), 2);
}

#[test]
fn two_stage_pipeline_without_files() {
    let c = parse("ls | wc");
    assert_eq!(
        wire_pipeline(&c.command),
        vec![
            Wiring { input: Source::Terminal, output: Sink::Pipe(0) },
            Wiring { input: Source::Pipe(0), output: Sink::Terminal },
        ]
    );
}

#[test]
fn decimal_formatting() {
    let mut s = String::new();
    push_decimal(&mut s, 0);
    s.push(' ');
    push_decimal(&mut s, 1234567890);
    s.push(' ');
    push_signed_decimal(&mut s, i32::MIN);
    s.push(' ');
    push_signed_decimal(&mut s, 42);
    assert_eq!(s, format!("0 1234567890 {} 42", i32::MIN));
}
