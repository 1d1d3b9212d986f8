use shell::parser::{construct_string, parse, Command};
use shell::text::{chars_of, is_whitespace, split_words, string_of, strip_quotes};

fn words_of(c: &Command) -> Vec<&str> {
    c.args.iter().map(|s| s.as_str()).collect()
}

#[test]
fn parse_simple_command() {
    let c = parse("ls -l /tmp");
    assert_eq!(c.command.len(), 1);
    assert_eq!(words_of(&c.command[0]), vec!["ls", "-l", "/tmp"]);
    assert_eq!(c.command[0].stdin, None);
    assert_eq!(c.command[0].stdout, None);
    assert!(!c.command[0].append);
    assert!(!c.bg);
}

#[test]
fn parse_pipeline_with_output_and_background() {
    let c = parse("ls -l | grep foo > out.txt &");
    assert_eq!(c.command.len(), 2);
    assert_eq!(words_of(&c.command[0]), vec!["ls", "-l"]);
    assert_eq!(words_of(&c.command[1]), vec!["grep", "foo"]);
    assert_eq!(c.command[1].stdout.as_deref(), Some("out.txt"));
    assert!(!c.command[1].append);
    assert!(c.bg);
}

#[test]
fn parse_input_and_append_redirection() {
    let c = parse("sort < in.txt >> log.txt");
    assert_eq!(c.command.len(), 1);
    assert_eq!(words_of(&c.command[0]), vec!["sort"]);
    assert_eq!(c.command[0].stdin.as_deref(), Some("in.txt"));
    assert_eq!(c.command[0].stdout.as_deref(), Some("log.txt"));
    assert!(c.command[0].append);
}

#[test]
fn parse_later_output_redirection_wins() {
    let c = parse("cmd >> a > b");
    assert_eq!(c.command[0].stdout.as_deref(), Some("b"));
    assert!(!c.command[0].append);
}

#[test]
fn parse_strips_surrounding_quotes() {
    let c = parse("echo \"hello\" \"\"x\"\" \"");
    assert_eq!(words_of(&c.command[0]), vec!["echo", "hello", "x", ""]);
}

#[test]
fn parse_quoted_operator_is_an_operator() {
    let c = parse("a \"|\" b");
    assert_eq!(c.command.len(), 2);
    assert_eq!(words_of(&c.command[0]), vec!["a"]);
    assert_eq!(words_of(&c.command[1]), vec!["b"]);
}

#[test]
fn parse_empty_and_blank_lines() {
    assert!(parse("").command.is_empty());
    let c = parse("  \t \n");
    assert!(c.command.is_empty());
    assert!(!c.bg);
}

#[test]
fn parse_trailing_pipe_drops_empty_command() {
    let c = parse("ls |");
    assert_eq!(c.command.len(), 1);
    assert_eq!(words_of(&c.command[0]), vec!["ls"]);
}

#[test]
fn parse_leading_pipe_keeps_empty_command() {
    let c = parse("| ls");
    assert_eq!(c.command.len(), 2);
    assert!(c.command[0].args.is_empty());
    assert_eq!(words_of(&c.command[1]), vec!["ls"]);
}

#[test]
fn parse_dangling_redirection_is_ignored() {
    let c = parse("ls >");
    assert_eq!(c.command.len(), 1);
    assert_eq!(c.command[0].stdout, None);
}

#[test]
fn parse_redirection_target_is_not_an_operator() {
    let c = parse("ls > & x");
    assert!(!c.bg);
    assert_eq!(c.command[0].stdout.as_deref(), Some("&"));
    assert_eq!(words_of(&c.command[0]), vec!["ls", "x"]);
}

#[test]
fn parse_redirection_only_command_is_dropped() {
    let c = parse("> out");
    assert!(c.command.is_empty());
}

#[test]
fn parse_unicode_whitespace_separates_words() {
    let c = parse("a\u{3000}b\u{00a0}c\u{2029}d\u{200b}e");
    assert_eq!(words_of(&c.command[0]), vec!["a", "b", "c", "d\u{200b}e"]);
}

#[test]
fn whitespace_matches_std() {
    for u in 0u32..0x11000 {
        if let Some(c) = char::from_u32(u) {
            assert_eq!(is_whitespace(c), c.is_whitespace(), "{:x}", u);
        }
    }
}

#[test]
fn split_words_matches_std() {
    let samples = ["", " ", "a", " a  b\tc\n", "x\u{85}y\u{1680}z", "é ü\u{2028}ß"];
    for s in samples {
        let got: Vec<String> = split_words(&chars_of(s)).iter().map(|w| string_of(w)).collect();
        let want: Vec<String> = s.split_whitespace().map(|w| w.to_string()).collect();
        assert_eq!(got, want);
    }
}

#[test]
fn strip_quotes_matches_std() {
    let samples = ["", "\"", "\"\"", "\"a\"", "a\"b", "\"\"ab\"", "ab\"\"\"", "x"];
    for s in samples {
        let got = string_of(&strip_quotes(&chars_of(s)));
        assert_eq!(got, s.trim_matches('"'));
    }
}

#[test]
fn construct_string_joins_words_and_commands() {
    let c = parse("ls   -l |  grep  foo | wc");
    assert_eq!(construct_string(&c.command), "ls -l | grep foo | wc");
    let one = parse("sleep 10 &");
    assert_eq!(construct_string(&one.command), "sleep 10");
    assert_eq!(construct_string(&[]), "");
}

#[test]
fn construct_string_reads_back() {
    let c = parse("cat  file |grep x | sort -r");
    let line = construct_string(&c.command);
    let again = parse(&line);
    assert_eq!(again.command.len(), c.command.len());
    for (a, b) in again.command.iter().zip(c.command.iter()) {
        assert_eq!(a.args, b.args);
        assert_eq!(a.stdin, None);
        assert_eq!(a.stdout, None);
    }
    assert!(!again.bg);
}

#[test]
fn parsed_words_hold_no_whitespace() {
    let c = parse(" a\tb | c\u{3000}d > e ");
    for cmd in &c.command {
        for w in &cmd.args {
            assert!(!w.chars().any(|ch| ch.is_whitespace()));
        }
    }
    assert_eq!(c.command[1].stdout.as_deref(), Some("e"));
}

#[test]
fn background_only_with_ampersand() {
    assert!(!parse("sleep 5").bg);
    assert!(parse("sleep 5 &").bg);
    assert!(parse("& sleep 5").bg);
    assert!(parse("a & | b").bg);
    assert!(!parse("sleep 5&").bg);
    assert_eq!(words_of(&parse("sleep 5&").command[0]), vec!["sleep", "5&"]);
}

#[test]
fn printing_a_parsed_plain_line_normalises_it() {
    let samples = ["ls", "  ls   -l\t|grep  x |  wc -l  ", "a|b", "cat f | sort | uniq -c"];
    for s in samples {
        let want = s.split_whitespace().collect::<Vec<_>>().join(" ");
        if s == "a|b" {
            // `a|b` is one word, not a pipeline.
            assert_eq!(parse(s).command.len(), 1);
        }
        assert_eq!(construct_string(&parse(s).command), want);
    }
}

#[test]
fn parsed_words_are_bare() {
    let c = parse("\"echo\" \"a\" \"\"b < \"in\" >> \"out\"\"");
    assert_eq!(words_of(&c.command[0]), vec!["echo", "a", "b"]);
    assert_eq!(c.command[0].stdin.as_deref(), Some("in"));
    assert_eq!(c.command[0].stdout.as_deref(), Some("out"));
    for w in &c.command[0].args {
        assert!(!w.starts_with('"') && !w.ends_with('"'));
        assert!(!["|", "<", ">", ">>", "&"].contains(&w.as_str()));
    }
}

#[test]
fn trailing_ampersand_only_sets_background() {
    for line in ["ls -l | wc", "cat < in > out", "", "a b c"] {
        let plain = parse(line);
        let amp = parse(&format!("{} &", line));
        assert!(amp.bg);
        assert_eq!(amp.command.len(), plain.command.len());
        for (a, b) in amp.command.iter().zip(plain.command.iter()) {
            assert_eq!(a.args, b.args);
            assert_eq!(a.stdin, b.stdin);
            assert_eq!(a.stdout, b.stdout);
            assert_eq!(a.append, b.append);
        }
    }
    // A dangling redirection takes the `&` as its file.
    let c = parse("ls > &");
    assert!(!c.bg);
}
