use vstd::prelude::*;
use crate::text::{
    char_seqs, chars_of, is_ws, lemma_trim_keeps_no_ws, lemma_trim_unquoted,
    lemma_words_append_word, lemma_words_are_nonblank, lemma_words_push_ws, no_ws, push_char,
    split_words, string_of, strip_quotes, trim_end_quotes, trim_quotes, trim_start_quotes,
    unquoted, words,
};

verus! {

/// One command of a pipeline: its words and its redirections.
#[derive(Debug, Clone)]
pub struct Command {
    pub args: Vec<String>,
    pub stdin: Option<String>,
    pub stdout: Option<String>,
    pub append: bool,
}

/// A parsed input line: the commands of a pipeline and whether it runs in the background.
#[derive(Debug)]
pub struct Commands {
    pub command: Vec<Command>,
    pub bg: bool,
}

/// The mathematical value of a [`Command`].
pub struct CommandView {
    pub args: Seq<Seq<char>>,
    pub stdin: Option<Seq<char>>,
    pub stdout: Option<Seq<char>>,
    pub append: bool,
}

/// The mathematical value of [`Commands`].
pub struct CommandsView {
    pub command: Seq<CommandView>,
    pub bg: bool,
}

impl View for Command {
    type V = CommandView;

    open spec fn view(&self) -> CommandView {
        CommandView {
            args: self.args.deep_view(),
            stdin: self.stdin.deep_view(),
            stdout: self.stdout.deep_view(),
            append: self.append,
        }
    }
}

/// The values of a sequence of commands.
pub open spec fn command_views(cs: Seq<Command>) -> Seq<CommandView> {
    cs.map_values(|c: Command| c@)
}

impl View for Commands {
    type V = CommandsView;

    open spec fn view(&self) -> CommandsView {
        CommandsView { command: command_views(self.command@), bg: self.bg }
    }
}

/// What a token means to the parser.
#[derive(PartialEq, Eq, Debug, Clone, Copy)]
pub enum TokenKind {
    Pipe,
    Input,
    Output,
    AppendOutput,
    Background,
    Word,
}

/// The kind of token `t`: `|`, `<`, `>`, `>>`, `&`, or an ordinary word.
pub open spec fn token_kind(t: Seq<char>) -> TokenKind {
    if t == seq!['|'] {
        TokenKind::Pipe
    } else if t == seq!['<'] {
        TokenKind::Input
    } else if t == seq!['>'] {
        TokenKind::Output
    } else if t == seq!['>', '>'] {
        TokenKind::AppendOutput
    } else if t == seq!['&'] {
        TokenKind::Background
    } else {
        TokenKind::Word
    }
}

/// Classifies a token.
pub fn classify(t: &Vec<char>) -> (k: TokenKind)
    ensures
        k == token_kind(t@),
{
    if t.len() == 1 {
        let c = t[0];
        assert(t@ =~= seq![c]);
        if c == '|' {
            TokenKind::Pipe
        } else if c == '<' {
            TokenKind::Input
        } else if c == '>' {
            TokenKind::Output
        } else if c == '&' {
            TokenKind::Background
        } else {
            assert(t@ != seq!['|'] && t@ != seq!['<'] && t@ != seq!['>'] && t@ != seq!['&']) by {
                assert(seq!['|'][0] == '|');
                assert(seq!['<'][0] == '<');
                assert(seq!['>'][0] == '>');
                assert(seq!['&'][0] == '&');
            }
            TokenKind::Word
        }
    } else if t.len() == 2 && t[0] == '>' && t[1] == '>' {
        assert(t@ =~= seq!['>', '>']);
        TokenKind::AppendOutput
    } else {
        assert(t@ != seq!['>', '>']) by {
            if t@ == seq!['>', '>'] {
                assert(t@[0] == '>' && t@[1] == '>');
            }
        }
        TokenKind::Word
    }
}

/// The tokens of an input line: its words with surrounding double quotes removed.
pub open spec fn tokens(s: Seq<char>) -> Seq<Seq<char>> {
    words(s).map_values(|w: Seq<char>| trim_quotes(w))
}

/// A command with no words and no redirections.
pub open spec fn empty_command() -> CommandView {
    CommandView { args: seq![], stdin: None, stdout: None, append: false }
}

/// The parser's state between tokens: the commands closed by `|`, the command
/// being built, and whether `&` was seen.
pub struct ParseState {
    pub done: Seq<CommandView>,
    pub current: CommandView,
    pub bg: bool,
}

/// The state before the first token.
pub open spec fn initial_state() -> ParseState {
    ParseState { done: seq![], current: empty_command(), bg: false }
}

/// The state after a redirection operator of kind `k` followed by the word `target`.
pub open spec fn redirect(st: ParseState, k: TokenKind, target: Seq<char>) -> ParseState {
    let c = st.current;
    ParseState {
        current: match k {
            TokenKind::Input => CommandView { stdin: Some(target), ..c },
            TokenKind::Output => CommandView { stdout: Some(target), append: false, ..c },
            _ => CommandView { stdout: Some(target), append: true, ..c },
        },
        ..st
    }
}

/// The state after a token `t` that is not a redirection operator.
pub open spec fn simple_step(st: ParseState, t: Seq<char>) -> ParseState {
    match token_kind(t) {
        TokenKind::Pipe => ParseState {
            done: st.done.push(st.current),
            current: empty_command(),
            bg: st.bg,
        },
        TokenKind::Background => ParseState { bg: true, ..st },
        _ => ParseState {
            current: CommandView { args: st.current.args.push(t), ..st.current },
            ..st
        },
    }
}

/// Whether `k` is a redirection operator, which takes the next token as its target.
pub open spec fn is_redirect(k: TokenKind) -> bool {
    k == TokenKind::Input || k == TokenKind::Output || k == TokenKind::AppendOutput
}

/// The state after reading tokens `i..` of `toks`, starting from `st`.
/// A redirection operator consumes the token after it; one at the very end is ignored.
pub open spec fn parse_from(toks: Seq<Seq<char>>, i: nat, st: ParseState) -> ParseState
    decreases toks.len() + 1 - i,
{
    if i >= toks.len() {
        st
    } else if is_redirect(token_kind(toks[i as int])) {
        let st2 = if i + 1 < toks.len() {
            redirect(st, token_kind(toks[i as int]), toks[(i + 1) as int])
        } else {
            st
        };
        parse_from(toks, i + 2, st2)
    } else {
        parse_from(toks, i + 1, simple_step(st, toks[i as int]))
    }
}

/// The commands read from a token sequence: the command still open at the end
/// is kept only if it has words.
pub open spec fn parse_tokens(toks: Seq<Seq<char>>) -> CommandsView {
    let st = parse_from(toks, 0, initial_state());
    CommandsView {
        command: if st.current.args.len() > 0 {
            st.done.push(st.current)
        } else {
            st.done
        },
        bg: st.bg,
    }
}

/// The value that [`parse`] gives for an input line.
pub open spec fn spec_parse(s: Seq<char>) -> CommandsView {
    parse_tokens(tokens(s))
}

fn new_command() -> (c: Command)
    ensures
        c@ == empty_command(),
{
    let c = Command { args: Vec::new(), stdin: None, stdout: None, append: false };
    assert(c@.args =~= Seq::<Seq<char>>::empty());
    c
}

/// Splits an input line into tokens and reads the pipeline it describes.
pub fn parse(input: &str) -> (res: Commands)
    ensures
        res@ == spec_parse(input@),
{
    let chars = chars_of(input);
    let ws = split_words(&chars);
    let mut toks: Vec<Vec<char>> = Vec::new();
    let mut w: usize = 0;
    while w < ws.len()
        invariant
            w <= ws.len(),
            char_seqs(ws@) == words(input@),
            char_seqs(toks@) == char_seqs(ws@).take(w as int).map_values(
                |x: Seq<char>| trim_quotes(x),
            ),
        decreases ws.len() - w,
    {
        let t = strip_quotes(&ws[w]);
        let ghost before = char_seqs(toks@);
        assert(ws@[w as int]@ == char_seqs(ws@)[w as int]);
        toks.push(t);
        assert(char_seqs(toks@) =~= before.push(trim_quotes(char_seqs(ws@)[w as int])));
        w = w + 1;
        assert(char_seqs(toks@) =~= char_seqs(ws@).take(w as int).map_values(
            |x: Seq<char>| trim_quotes(x),
        ));
    }
    assert(char_seqs(ws@).take(ws.len() as int) =~= char_seqs(ws@));
    let ghost tk = char_seqs(toks@);
    assert(tk == tokens(input@));
    let mut commands: Vec<Command> = Vec::new();
    let mut bg = false;
    let mut current = new_command();
    let mut i: usize = 0;
    assert(command_views(commands@) =~= Seq::<CommandView>::empty());
    while i < toks.len()
        invariant
            i <= toks.len(),
            tk == char_seqs(toks@),
            parse_from(tk, i as nat, ParseState { done: command_views(commands@), current: current@, bg }) == parse_from(tk, 0, initial_state()),
        decreases toks.len() + 1 - i,
    {
        let k = classify(&toks[i]);
        let ghost st = ParseState { done: command_views(commands@), current: current@, bg };
        let ghost i0 = i as nat;
        assert(toks@[i as int]@ == tk[i as int]);
        if i + 1 < toks.len() {
            assert(toks@[i + 1]@ == tk[i + 1]);
        }
        match k {
            TokenKind::Pipe => {
                commands.push(current);
                current = new_command();
                assert(command_views(commands@) =~= st.done.push(st.current));
                i = i + 1;
                assert(ParseState { done: command_views(commands@), current: current@, bg } == simple_step(st, tk[i0 as int]));
            },
            TokenKind::Background => {
                bg = true;
                i = i + 1;
                assert(ParseState { done: command_views(commands@), current: current@, bg } == simple_step(st, tk[i0 as int]));
            },
            TokenKind::Word => {
                let a = string_of(&toks[i]);
                let ghost old_args = current@.args;
                current.args.push(a);
                assert(current@.args =~= old_args.push(tk[i as int]));
                i = i + 1;
                assert(ParseState { done: command_views(commands@), current: current@, bg } == simple_step(st, tk[i0 as int]));
            },
            TokenKind::Input => {
                if i + 1 < toks.len() {
                    current.stdin = Some(string_of(&toks[i + 1]));
                    i = i + 2;
                    assert(ParseState { done: command_views(commands@), current: current@, bg } == redirect(st, k, tk[(i0 + 1) as int]));
                } else {
                    i = toks.len();
                    assert(parse_from(tk, i0, st) == st) by {
                        reveal_with_fuel(parse_from, 2);
                    }
                    assert(parse_from(tk, i as nat, st) == st);
                }
            },
            TokenKind::Output => {
                if i + 1 < toks.len() {
                    current.stdout = Some(string_of(&toks[i + 1]));
                    current.append = false;
                    i = i + 2;
                    assert(ParseState { done: command_views(commands@), current: current@, bg } == redirect(st, k, tk[(i0 + 1) as int]));
                } else {
                    i = toks.len();
                    assert(parse_from(tk, i0, st) == st) by {
                        reveal_with_fuel(parse_from, 2);
                    }
                    assert(parse_from(tk, i as nat, st) == st);
                }
            },
            TokenKind::AppendOutput => {
                if i + 1 < toks.len() {
                    current.stdout = Some(string_of(&toks[i + 1]));
                    current.append = true;
                    i = i + 2;
                    assert(ParseState { done: command_views(commands@), current: current@, bg } == redirect(st, k, tk[(i0 + 1) as int]));
                } else {
                    i = toks.len();
                    assert(parse_from(tk, i0, st) == st) by {
                        reveal_with_fuel(parse_from, 2);
                    }
                    assert(parse_from(tk, i as nat, st) == st);
                }
            },
        }
    }
    if current.args.len() > 0 {
        let ghost d = command_views(commands@);
        commands.push(current);
        assert(command_views(commands@) =~= d.push(current@));
    }
    Commands { command: commands, bg }
}

/// The parts joined with `sep` between neighbours.
pub open spec fn join(parts: Seq<Seq<char>>, sep: Seq<char>) -> Seq<char>
    decreases parts.len(),
{
    if parts.len() == 0 {
        seq![]
    } else if parts.len() == 1 {
        parts[0]
    } else {
        join(parts.drop_last(), sep) + sep + parts.last()
    }
}

/// The text of a pipeline: each command's words joined by single spaces,
/// the commands joined by ` | `.
pub open spec fn command_line(cs: Seq<CommandView>) -> Seq<char> {
    join(cs.map_values(|c: CommandView| join(c.args, seq![' '])), seq![' ', '|', ' '])
}

/// The words of a command from index `start` on, joined by single spaces.
pub(crate) fn join_words_from(args: &Vec<String>, start: usize) -> (s: String)
    requires
        start <= args.len(),
    ensures
        s@ == join(args.deep_view().skip(start as int), seq![' ']),
{
    let mut s = String::new();
    let mut i: usize = start;
    let ghost parts = args.deep_view().skip(start as int);
    while i < args.len()
        invariant
            start <= i <= args.len(),
            parts == args.deep_view().skip(start as int),
            s@ == join(parts.take(i - start), seq![' ']),
        decreases args.len() - i,
    {
        assert(parts.take(i - start + 1).drop_last() =~= parts.take(i - start));
        assert(parts.take(i - start + 1).last() == args@[i as int]@);
        if i > start {
            push_char(&mut s, ' ');
        }
        s.append(args[i].as_str());
        i = i + 1;
        assert(s@ =~= join(parts.take(i - start), seq![' ']));
    }
    assert(parts.take(args.len() - start) =~= parts);
    s
}

/// The text of a pipeline, as shown in the job list: each command's words
/// joined by spaces, the commands joined by ` | `.
pub fn construct_string(args: &[Command]) -> (s: String)
    ensures
        s@ == command_line(command_views(args@)),
{
    let mut s = String::new();
    let mut i: usize = 0;
    let ghost parts = command_views(args@).map_values(|c: CommandView| join(c.args, seq![' ']));
    while i < args.len()
        invariant
            i <= args.len(),
            parts == command_views(args@).map_values(|c: CommandView| join(c.args, seq![' '])),
            s@ == join(parts.take(i as int), seq![' ', '|', ' ']),
        decreases args.len() - i,
    {
        assert(parts.take(i + 1).drop_last() =~= parts.take(i as int));
        let w = join_words_from(&args[i].args, 0);
        assert(args@[i as int].args.deep_view().skip(0) =~= args@[i as int].args.deep_view());
        assert(parts.take(i + 1).last() == w@);
        if i > 0 {
            push_char(&mut s, ' ');
            push_char(&mut s, '|');
            push_char(&mut s, ' ');
        }
        s.append(w.as_str());
        i = i + 1;
        assert(s@ =~= join(parts.take(i as int), seq![' ', '|', ' ']));
    }
    assert(parts.take(args.len() as int) =~= parts);
    s
}

/// Whether no word of `c`, and no file it redirects to, holds whitespace.
pub open spec fn nonblank_words(c: CommandView) -> bool {
    &&& forall|j: int| 0 <= j < c.args.len() ==> #[trigger] no_ws(c.args[j])
    &&& (c.stdin matches Some(f) ==> no_ws(f))
    &&& (c.stdout matches Some(f) ==> no_ws(f))
}

/// Whether every command of a parser state is [`nonblank_words`].
pub open spec fn nonblank_state(st: ParseState) -> bool {
    &&& forall|k: int| 0 <= k < st.done.len() ==> #[trigger] nonblank_words(st.done[k])
    &&& nonblank_words(st.current)
}

proof fn lemma_parse_from_nonblank(toks: Seq<Seq<char>>, i: nat, st: ParseState)
    requires
        forall|k: int| 0 <= k < toks.len() ==> #[trigger] no_ws(toks[k]),
        nonblank_state(st),
    ensures
        nonblank_state(parse_from(toks, i, st)),
    decreases toks.len() + 1 - i,
{
    if i < toks.len() {
        let k = token_kind(toks[i as int]);
        if is_redirect(k) {
            if i + 1 < toks.len() {
                assert(no_ws(toks[(i + 1) as int]));
            }
            let st2 = if i + 1 < toks.len() {
                redirect(st, k, toks[(i + 1) as int])
            } else {
                st
            };
            lemma_parse_from_nonblank(toks, i + 2, st2);
        } else {
            let st2 = simple_step(st, toks[i as int]);
            assert(no_ws(toks[i as int]));
            assert(nonblank_words(empty_command()));
            if k == TokenKind::Pipe {
                assert(forall|j: int| 0 <= j < st2.done.len() ==> #[trigger] st2.done[j] == if j
                    < st.done.len() {
                    st.done[j]
                } else {
                    st.current
                });
            } else if k != TokenKind::Background {
                let a = st2.current.args;
                assert(forall|j: int| 0 <= j < a.len() ==> #[trigger] a[j] == if j < st.current.args.len() {
                    st.current.args[j]
                } else {
                    toks[i as int]
                });
            }
            lemma_parse_from_nonblank(toks, i + 1, st2);
        }
    }
}

/// No word of a parsed command, and no file it redirects to, holds whitespace.
pub proof fn lemma_parsed_words_are_nonblank(s: Seq<char>)
    ensures
        forall|k: int|
            0 <= k < spec_parse(s).command.len() ==> #[trigger] nonblank_words(
                spec_parse(s).command[k],
            ),
{
    lemma_words_are_nonblank(s);
    let toks = tokens(s);
    assert forall|k: int| 0 <= k < toks.len() implies #[trigger] no_ws(toks[k]) by {
        assert(no_ws(words(s)[k]));
        lemma_trim_keeps_no_ws(words(s)[k]);
    }
    assert(nonblank_words(empty_command()));
    lemma_parse_from_nonblank(toks, 0, initial_state());
    let st = parse_from(toks, 0, initial_state());
    let cs = spec_parse(s).command;
    assert forall|k: int| 0 <= k < cs.len() implies #[trigger] nonblank_words(cs[k]) by {
        if k < st.done.len() {
            assert(cs[k] == st.done[k]);
        }
    }
}

proof fn lemma_parse_from_bg(toks: Seq<Seq<char>>, i: nat, st: ParseState)
    ensures
        parse_from(toks, i, st).bg ==> st.bg || exists|j: int|
            i <= j < toks.len() && #[trigger] toks[j] == seq!['&'],
    decreases toks.len() + 1 - i,
{
    if i < toks.len() {
        let k = token_kind(toks[i as int]);
        if is_redirect(k) {
            let st2 = if i + 1 < toks.len() {
                redirect(st, k, toks[(i + 1) as int])
            } else {
                st
            };
            lemma_parse_from_bg(toks, i + 2, st2);
        } else {
            lemma_parse_from_bg(toks, i + 1, simple_step(st, toks[i as int]));
            if k == TokenKind::Background {
                assert(toks[i as int] == seq!['&']);
            }
        }
    }
}

/// A line runs in the background only if one of its tokens is `&`.
pub proof fn lemma_background_needs_ampersand(s: Seq<char>)
    ensures
        spec_parse(s).bg ==> tokens(s).contains(seq!['&']),
{
    lemma_parse_from_bg(tokens(s), 0, initial_state());
}

/// Words joined by single spaces, after whitespace (or at the start), add
/// exactly those words.
proof fn lemma_words_append_join(p: Seq<char>, ws: Seq<Seq<char>>)
    requires
        p.len() == 0 || is_ws(p.last()),
        ws.len() > 0,
        forall|k: int| 0 <= k < ws.len() ==> #[trigger] no_ws(ws[k]) && ws[k].len() > 0,
    ensures
        words(p + join(ws, seq![' '])) == words(p) + ws,
    decreases ws.len(),
{
    if ws.len() == 1 {
        assert(no_ws(ws[0]));
        lemma_words_append_word(p, ws[0]);
        assert(words(p).push(ws[0]) =~= words(p) + ws);
    } else {
        let dl = ws.drop_last();
        assert forall|k: int| 0 <= k < dl.len() implies #[trigger] no_ws(dl[k]) && dl[k].len()
            > 0 by {
            assert(dl[k] == ws[k]);
        }
        lemma_words_append_join(p, dl);
        let q = p + join(dl, seq![' ']);
        assert(ws.last() == ws[ws.len() - 1]);
        assert(no_ws(ws.last()));
        assert(is_ws(' '));
        lemma_words_push_ws(q, ' ');
        assert(q + seq![' '] =~= q.push(' '));
        lemma_words_append_word(q.push(' '), ws.last());
        assert(p + join(ws, seq![' ']) =~= q.push(' ') + ws.last());
        assert((words(p) + dl).push(ws.last()) =~= words(p) + ws);
    }
}

/// The tokens of the text of a pipeline: each command's words, with `|`
/// between neighbouring commands.
pub open spec fn line_tokens(cs: Seq<CommandView>) -> Seq<Seq<char>>
    decreases cs.len(),
{
    if cs.len() == 0 {
        seq![]
    } else if cs.len() == 1 {
        cs[0].args
    } else {
        line_tokens(cs.drop_last()) + seq![seq!['|']] + cs.last().args
    }
}

/// Whether `w` reads back as the word it is: nonempty, free of whitespace, not
/// starting or ending with a double quote, and not an operator.
pub open spec fn plain_word(w: Seq<char>) -> bool {
    &&& w.len() > 0
    &&& no_ws(w)
    &&& w[0] != '"'
    &&& w.last() != '"'
    &&& token_kind(w) == TokenKind::Word
}

/// Whether `c` is a command with at least one word, every word plain, and no
/// redirection.
pub open spec fn plain_command(c: CommandView) -> bool {
    &&& c.args.len() > 0
    &&& forall|j: int| 0 <= j < c.args.len() ==> #[trigger] plain_word(c.args[j])
    &&& c.stdin is None
    &&& c.stdout is None
    &&& !c.append
}

proof fn lemma_words_of_command_line(cs: Seq<CommandView>)
    requires
        forall|k: int| 0 <= k < cs.len() ==> #[trigger] plain_command(cs[k]),
    ensures
        words(command_line(cs)) == line_tokens(cs),
    decreases cs.len(),
{
    let parts = cs.map_values(|c: CommandView| join(c.args, seq![' ']));
    let bar = seq![' ', '|', ' '];
    if cs.len() == 0 {
        assert(command_line(cs) =~= Seq::<char>::empty());
    } else {
        let last = cs.last();
        assert(plain_command(cs[cs.len() - 1]));
        assert forall|j: int| 0 <= j < last.args.len() implies #[trigger] no_ws(last.args[j])
            && last.args[j].len() > 0 by {
            assert(plain_word(last.args[j]));
        }
        if cs.len() == 1 {
            assert(command_line(cs) == parts[0]);
            lemma_words_append_join(Seq::<char>::empty(), last.args);
            assert(Seq::<char>::empty() + parts[0] =~= parts[0]);
            assert(words(Seq::<char>::empty()) =~= Seq::<Seq<char>>::empty());
            assert(Seq::<Seq<char>>::empty() + last.args =~= last.args);
        } else {
            let dl = cs.drop_last();
            assert forall|k: int| 0 <= k < dl.len() implies #[trigger] plain_command(dl[k]) by {
                assert(dl[k] == cs[k]);
            }
            lemma_words_of_command_line(dl);
            assert(parts.drop_last() =~= dl.map_values(|c: CommandView| join(c.args, seq![' '])));
            let x = command_line(dl);
            assert(command_line(cs) == x + bar + parts.last());
            assert(is_ws(' '));
            lemma_words_push_ws(x, ' ');
            let x1 = x.push(' ');
            lemma_words_append_word(x1, seq!['|']);
            let x2 = x1 + seq!['|'];
            lemma_words_push_ws(x2, ' ');
            let x3 = x2.push(' ');
            lemma_words_append_join(x3, last.args);
            assert(x + bar + parts.last() =~= x3 + join(last.args, seq![' ']));
            assert(words(x3) =~= line_tokens(dl).push(seq!['|']));
            assert(line_tokens(dl).push(seq!['|']) + last.args =~= line_tokens(dl) + seq![
                seq!['|'],
            ] + last.args);
        }
    }
}

/// The state after reading the tokens `toks` one by one, none of them a redirection.
pub open spec fn fold_simple(toks: Seq<Seq<char>>, st: ParseState) -> ParseState
    decreases toks.len(),
{
    if toks.len() == 0 {
        st
    } else {
        fold_simple(toks.drop_first(), simple_step(st, toks[0]))
    }
}

proof fn lemma_parse_from_fold(toks: Seq<Seq<char>>, i: nat, st: ParseState)
    requires
        i <= toks.len(),
        forall|k: int| 0 <= k < toks.len() ==> !is_redirect(#[trigger] token_kind(toks[k])),
    ensures
        parse_from(toks, i, st) == fold_simple(toks.skip(i as int), st),
    decreases toks.len() - i,
{
    if i < toks.len() {
        assert(!is_redirect(token_kind(toks[i as int])));
        assert(toks.skip(i as int).drop_first() =~= toks.skip((i + 1) as int));
        assert(toks.skip(i as int)[0] == toks[i as int]);
        lemma_parse_from_fold(toks, i + 1, simple_step(st, toks[i as int]));
    } else {
        assert(toks.skip(i as int).len() == 0);
    }
}

proof fn lemma_fold_concat(a: Seq<Seq<char>>, b: Seq<Seq<char>>, st: ParseState)
    ensures
        fold_simple(a + b, st) == fold_simple(b, fold_simple(a, st)),
    decreases a.len(),
{
    if a.len() == 0 {
        assert(a + b =~= b);
    } else {
        assert((a + b).drop_first() =~= a.drop_first() + b);
        assert((a + b)[0] == a[0]);
        lemma_fold_concat(a.drop_first(), b, simple_step(st, a[0]));
    }
}

proof fn lemma_fold_words(args: Seq<Seq<char>>, st: ParseState)
    requires
        forall|j: int| 0 <= j < args.len() ==> #[trigger] token_kind(args[j]) == TokenKind::Word,
    ensures
        fold_simple(args, st) == (ParseState {
            current: CommandView { args: st.current.args + args, ..st.current },
            ..st
        }),
    decreases args.len(),
{
    if args.len() == 0 {
        assert(st.current.args + args =~= st.current.args);
    } else {
        assert(token_kind(args[0]) == TokenKind::Word);
        let st2 = simple_step(st, args[0]);
        assert forall|j: int| 0 <= j < args.drop_first().len() implies #[trigger] token_kind(
            args.drop_first()[j],
        ) == TokenKind::Word by {
            assert(args.drop_first()[j] == args[j + 1]);
        }
        lemma_fold_words(args.drop_first(), st2);
        assert(st.current.args.push(args[0]) + args.drop_first() =~= st.current.args + args);
    }
}

proof fn lemma_fold_line(cs: Seq<CommandView>)
    requires
        cs.len() > 0,
        forall|k: int| 0 <= k < cs.len() ==> #[trigger] plain_command(cs[k]),
    ensures
        fold_simple(line_tokens(cs), initial_state()) == (ParseState {
            done: cs.drop_last(),
            current: cs.last(),
            bg: false,
        }),
    decreases cs.len(),
{
    let last = cs.last();
    assert(plain_command(cs[cs.len() - 1]));
    assert forall|j: int| 0 <= j < last.args.len() implies #[trigger] token_kind(last.args[j])
        == TokenKind::Word by {
        assert(plain_word(last.args[j]));
    }
    if cs.len() == 1 {
        lemma_fold_words(last.args, initial_state());
        assert(Seq::<Seq<char>>::empty() + last.args =~= last.args);
        assert(cs.drop_last() =~= Seq::<CommandView>::empty());
    } else {
        let dl = cs.drop_last();
        assert forall|k: int| 0 <= k < dl.len() implies #[trigger] plain_command(dl[k]) by {
            assert(dl[k] == cs[k]);
        }
        lemma_fold_line(dl);
        let a = line_tokens(dl);
        let bar = seq![seq!['|']];
        lemma_fold_concat(a + bar, last.args, initial_state());
        lemma_fold_concat(a, bar, initial_state());
        let st1 = fold_simple(a, initial_state());
        assert(bar.drop_first() =~= Seq::<Seq<char>>::empty());
        assert(token_kind(seq!['|']) == TokenKind::Pipe);
        let st2 = fold_simple(bar, st1);
        assert(bar[0] == seq!['|']);
        assert(fold_simple(bar.drop_first(), simple_step(st1, bar[0])) == simple_step(st1, bar[0]));
        assert(st2 == simple_step(st1, seq!['|']));
        assert(st2.done =~= dl);
        lemma_fold_words(last.args, st2);
        assert(Seq::<Seq<char>>::empty() + last.args =~= last.args);
    }
}

proof fn lemma_trim_plain(w: Seq<char>)
    requires
        w.len() > 0,
        w[0] != '"',
        w.last() != '"',
    ensures
        trim_quotes(w) == w,
{
    assert(trim_start_quotes(w) == w);
    assert(trim_end_quotes(w) == w);
}

/// The text of a pipeline of plain commands reads back as the same pipeline,
/// in the foreground.
pub proof fn lemma_command_line_reads_back(cs: Seq<CommandView>)
    requires
        forall|k: int| 0 <= k < cs.len() ==> #[trigger] plain_command(cs[k]),
    ensures
        spec_parse(command_line(cs)) == (CommandsView { command: cs, bg: false }),
{
    lemma_words_of_command_line(cs);
    let lt = line_tokens(cs);
    let s = command_line(cs);
    lemma_line_tokens_plain(cs);
    assert(tokens(s) =~= lt) by {
        assert forall|k: int| 0 <= k < lt.len() implies #[trigger] trim_quotes(lt[k]) == lt[k] by {
            lemma_trim_plain(lt[k]);
        }
    }
    if cs.len() == 0 {
        assert(lt.len() == 0);
        assert(cs =~= Seq::<CommandView>::empty());
        assert(parse_tokens(lt).command =~= cs);
    } else {
        lemma_parse_from_fold(lt, 0, initial_state());
        assert(lt.skip(0) =~= lt);
        lemma_fold_line(cs);
        assert(plain_command(cs[cs.len() - 1]));
        let st = parse_from(lt, 0, initial_state());
        assert(st.current == cs.last());
        assert(st.done == cs.drop_last());
        assert(st.current.args.len() > 0);
        assert(cs.drop_last().push(cs.last()) =~= cs);
        assert(parse_tokens(lt).command == cs);
        assert(parse_tokens(lt).bg == false);
    }
}

/// Every token of the text of a plain pipeline is a plain word or `|`.
proof fn lemma_line_tokens_plain(cs: Seq<CommandView>)
    requires
        forall|k: int| 0 <= k < cs.len() ==> #[trigger] plain_command(cs[k]),
    ensures
        forall|k: int| 0 <= k < line_tokens(cs).len() ==> {
            &&& (#[trigger] line_tokens(cs)[k]).len() > 0
            &&& line_tokens(cs)[k][0] != '"'
            &&& line_tokens(cs)[k].last() != '"'
            &&& !is_redirect(token_kind(line_tokens(cs)[k]))
        },
    decreases cs.len(),
{
    if cs.len() > 0 {
        let last = cs.last();
        assert(plain_command(cs[cs.len() - 1]));
        if cs.len() == 1 {
            assert forall|k: int| 0 <= k < line_tokens(cs).len() implies {
                &&& (#[trigger] line_tokens(cs)[k]).len() > 0
                &&& line_tokens(cs)[k][0] != '"'
                &&& line_tokens(cs)[k].last() != '"'
                &&& !is_redirect(token_kind(line_tokens(cs)[k]))
            } by {
                assert(plain_word(last.args[k]));
            }
        } else {
            let dl = cs.drop_last();
            assert forall|k: int| 0 <= k < dl.len() implies #[trigger] plain_command(dl[k]) by {
                assert(dl[k] == cs[k]);
            }
            lemma_line_tokens_plain(dl);
            let a = line_tokens(dl);
            assert(token_kind(seq!['|']) == TokenKind::Pipe);
            assert(seq!['|'][0] == '|');
            assert forall|k: int| 0 <= k < line_tokens(cs).len() implies {
                &&& (#[trigger] line_tokens(cs)[k]).len() > 0
                &&& line_tokens(cs)[k][0] != '"'
                &&& line_tokens(cs)[k].last() != '"'
                &&& !is_redirect(token_kind(line_tokens(cs)[k]))
            } by {
                if k < a.len() {
                    assert(line_tokens(cs)[k] == a[k]);
                } else if k == a.len() {
                    assert(line_tokens(cs)[k] == seq!['|']);
                } else {
                    assert(line_tokens(cs)[k] == last.args[k - a.len() - 1]);
                    assert(plain_word(last.args[k - a.len() - 1]));
                }
            }
        }
    }
}

/// Whether every word of `c` is an ordinary word (no operator), and no word of
/// `c` nor file it redirects to starts or ends with a double quote.
pub open spec fn bare_words(c: CommandView) -> bool {
    &&& forall|j: int|
        0 <= j < c.args.len() ==> #[trigger] token_kind(c.args[j]) == TokenKind::Word
            && unquoted(c.args[j])
    &&& (c.stdin matches Some(f) ==> unquoted(f))
    &&& (c.stdout matches Some(f) ==> unquoted(f))
}

/// Whether every command of a parser state is [`bare_words`].
pub open spec fn bare_state(st: ParseState) -> bool {
    &&& forall|k: int| 0 <= k < st.done.len() ==> #[trigger] bare_words(st.done[k])
    &&& bare_words(st.current)
}

proof fn lemma_parse_from_bare(toks: Seq<Seq<char>>, i: nat, st: ParseState)
    requires
        forall|k: int| 0 <= k < toks.len() ==> #[trigger] unquoted(toks[k]),
        bare_state(st),
    ensures
        bare_state(parse_from(toks, i, st)),
    decreases toks.len() + 1 - i,
{
    if i < toks.len() {
        let k = token_kind(toks[i as int]);
        if is_redirect(k) {
            if i + 1 < toks.len() {
                assert(unquoted(toks[(i + 1) as int]));
            }
            let st2 = if i + 1 < toks.len() {
                redirect(st, k, toks[(i + 1) as int])
            } else {
                st
            };
            lemma_parse_from_bare(toks, i + 2, st2);
        } else {
            let st2 = simple_step(st, toks[i as int]);
            assert(unquoted(toks[i as int]));
            assert(bare_words(empty_command()));
            if k == TokenKind::Pipe {
                assert(forall|j: int| 0 <= j < st2.done.len() ==> #[trigger] st2.done[j] == if j
                    < st.done.len() {
                    st.done[j]
                } else {
                    st.current
                });
            } else if k != TokenKind::Background {
                let a = st2.current.args;
                assert(forall|j: int| 0 <= j < a.len() ==> #[trigger] a[j] == if j < st.current.args.len() {
                    st.current.args[j]
                } else {
                    toks[i as int]
                });
            }
            lemma_parse_from_bare(toks, i + 1, st2);
        }
    }
}

/// No word of a parsed command is an operator, and no word nor redirection
/// file starts or ends with a double quote.
pub proof fn lemma_parsed_words_are_bare(s: Seq<char>)
    ensures
        forall|k: int|
            0 <= k < spec_parse(s).command.len() ==> #[trigger] bare_words(
                spec_parse(s).command[k],
            ),
{
    let toks = tokens(s);
    assert forall|k: int| 0 <= k < toks.len() implies #[trigger] unquoted(toks[k]) by {
        lemma_trim_unquoted(words(s)[k]);
    }
    assert(bare_words(empty_command()));
    lemma_parse_from_bare(toks, 0, initial_state());
    let st = parse_from(toks, 0, initial_state());
    let cs = spec_parse(s).command;
    assert forall|k: int| 0 <= k < cs.len() implies #[trigger] bare_words(cs[k]) by {
        if k < st.done.len() {
            assert(cs[k] == st.done[k]);
        }
    }
}

/// Joining two nonempty lists joins their joins.
proof fn lemma_join_concat(a: Seq<Seq<char>>, b: Seq<Seq<char>>, sep: Seq<char>)
    requires
        a.len() > 0,
        b.len() > 0,
    ensures
        join(a + b, sep) == join(a, sep) + sep + join(b, sep),
    decreases b.len(),
{
    assert((a + b).drop_last() =~= a + b.drop_last());
    assert((a + b).last() == b.last());
    if b.len() == 1 {
        assert(a + b.drop_last() =~= a);
        assert(join(b, sep) == b[0]);
    } else {
        lemma_join_concat(a, b.drop_last(), sep);
        assert(join(a + b, sep) =~= join(a, sep) + sep + join(b, sep));
    }
}

/// The tokens of a pipeline whose commands all have words are not empty when
/// the pipeline is not.
proof fn lemma_line_tokens_nonempty(cs: Seq<CommandView>)
    requires
        cs.len() > 0,
        forall|k: int| 0 <= k < cs.len() ==> (#[trigger] cs[k]).args.len() > 0,
    ensures
        line_tokens(cs).len() > 0,
{
    if cs.len() == 1 {
        assert(cs[0].args.len() > 0);
    }
}

/// The text of a pipeline whose commands all have words is its tokens joined
/// by single spaces.
proof fn lemma_command_line_joins_tokens(cs: Seq<CommandView>)
    requires
        forall|k: int| 0 <= k < cs.len() ==> (#[trigger] cs[k]).args.len() > 0,
    ensures
        command_line(cs) == join(line_tokens(cs), seq![' ']),
    decreases cs.len(),
{
    let parts = cs.map_values(|c: CommandView| join(c.args, seq![' ']));
    if cs.len() == 0 {
        assert(command_line(cs) =~= Seq::<char>::empty());
    } else if cs.len() == 1 {
        assert(command_line(cs) == parts[0]);
    } else {
        let dl = cs.drop_last();
        let last = cs.last();
        assert(cs[cs.len() - 1].args.len() > 0);
        assert forall|k: int| 0 <= k < dl.len() implies (#[trigger] dl[k]).args.len() > 0 by {
            assert(dl[k] == cs[k]);
        }
        lemma_command_line_joins_tokens(dl);
        lemma_line_tokens_nonempty(dl);
        assert(parts.drop_last() =~= dl.map_values(|c: CommandView| join(c.args, seq![' '])));
        assert(command_line(cs) == command_line(dl) + seq![' ', '|', ' '] + parts.last());
        let a = line_tokens(dl) + seq![seq!['|']];
        lemma_join_concat(a, last.args, seq![' ']);
        assert(a.drop_last() =~= line_tokens(dl));
        assert(join(a, seq![' ']) == join(line_tokens(dl), seq![' ']) + seq![' '] + seq!['|']);
        assert(command_line(cs) =~= join(line_tokens(cs), seq![' ']));
    }
}

/// Whether `w` is the token `|`.
pub open spec fn is_bar(w: Seq<char>) -> bool {
    w == seq!['|']
}

/// Whether a token sequence is a plain pipeline: every token is `|` or a plain
/// word, it neither starts nor ends with `|`, and no two `|` are neighbours.
pub open spec fn plain_line(t: Seq<Seq<char>>) -> bool {
    &&& forall|i: int| 0 <= i < t.len() ==> is_bar(#[trigger] t[i]) || plain_word(t[i])
    &&& t.len() > 0 ==> !is_bar(t[0]) && !is_bar(t.last())
    &&& forall|i: int|
        #![trigger t[i], t[i + 1]]
        0 <= i < t.len() - 1 ==> !(is_bar(t[i]) && is_bar(t[i + 1]))
}

/// The state after reading a prefix of a plain pipeline.
proof fn lemma_fold_plain_prefix(t: Seq<Seq<char>>, k: int)
    requires
        plain_line(t),
        1 <= k <= t.len(),
    ensures
        ({
            let p = t.take(k);
            let st = fold_simple(p, initial_state());
            &&& !st.bg
            &&& forall|j: int| 0 <= j < st.done.len() ==> #[trigger] plain_command(st.done[j])
            &&& st.current.stdin is None
            &&& st.current.stdout is None
            &&& !st.current.append
            &&& forall|j: int|
                0 <= j < st.current.args.len() ==> #[trigger] plain_word(st.current.args[j])
            &&& if is_bar(p.last()) {
                &&& st.current.args.len() == 0
                &&& st.done.len() > 0
                &&& line_tokens(st.done) + seq![seq!['|']] == p
            } else {
                &&& st.current.args.len() > 0
                &&& line_tokens(st.done.push(st.current)) == p
            }
        }),
    decreases k,
{
    let p = t.take(k);
    let x = t[k - 1];
    assert(p.last() == x);
    assert(is_bar(x) || plain_word(x));
    assert(token_kind(seq!['|']) == TokenKind::Pipe);
    if k == 1 {
        assert(!is_bar(t[0]));
        assert(p.drop_first() =~= Seq::<Seq<char>>::empty());
        assert(p[0] == x);
        let st = simple_step(initial_state(), x);
        assert(fold_simple(p.drop_first(), st) == st);
        assert(st.current.args =~= seq![x]);
        assert(line_tokens(st.done.push(st.current)) == st.current.args);
        assert(st.current.args =~= p);
    } else {
        let q = t.take(k - 1);
        lemma_fold_plain_prefix(t, k - 1);
        assert(q.last() == t[k - 2]);
        assert(q + seq![x] =~= p);
        lemma_fold_concat(q, seq![x], initial_state());
        let st0 = fold_simple(q, initial_state());
        assert(seq![x].drop_first() =~= Seq::<Seq<char>>::empty());
        assert(seq![x][0] == x);
        let st = simple_step(st0, x);
        assert(fold_simple(seq![x].drop_first(), st) == st);
        assert(fold_simple(p, initial_state()) == st);
        if is_bar(x) {
            assert(!(is_bar(t[k - 2]) && is_bar(t[k - 1])));
            assert(!is_bar(q.last()));
            let cs = st0.done.push(st0.current);
            assert(st.done == cs);
            assert forall|j: int| 0 <= j < st.done.len() implies #[trigger] plain_command(
                st.done[j],
            ) by {
                if j < st0.done.len() {
                    assert(st.done[j] == st0.done[j]);
                }
            }
            assert(st.current.args =~= Seq::<Seq<char>>::empty());
            assert(line_tokens(st.done) + seq![seq!['|']] =~= p);
        } else {
            assert(token_kind(x) == TokenKind::Word);
            let cur = st.current;
            assert(cur.args == st0.current.args.push(x));
            assert forall|j: int| 0 <= j < cur.args.len() implies #[trigger] plain_word(
                cur.args[j],
            ) by {
                if j < st0.current.args.len() {
                    assert(cur.args[j] == st0.current.args[j]);
                }
            }
            let cs = st.done.push(cur);
            assert(cs.drop_last() =~= st0.done);
            assert(cs.last() == cur);
            if is_bar(q.last()) {
                assert(cur.args =~= seq![x]);
                assert(line_tokens(cs) == line_tokens(st0.done) + seq![seq!['|']] + cur.args);
                assert(line_tokens(cs) =~= p);
            } else {
                let cs0 = st0.done.push(st0.current);
                if st0.done.len() == 0 {
                    assert(line_tokens(cs0) == st0.current.args);
                    assert(line_tokens(cs) == cur.args);
                    assert(line_tokens(cs) =~= p);
                } else {
                    assert(cs0.drop_last() =~= st0.done);
                    assert(cs0.last() == st0.current);
                    assert(line_tokens(cs0) == line_tokens(st0.done) + seq![seq!['|']]
                        + st0.current.args);
                    assert(line_tokens(cs) == line_tokens(st0.done) + seq![seq!['|']] + cur.args);
                    assert(line_tokens(cs) =~= p);
                }
            }
        }
    }
}

/// Printing a parsed plain line gives back its words joined by single spaces:
/// `construct_string(parse(s))` is `s` with its whitespace normalised.
pub proof fn lemma_parse_prints_back_normalised(s: Seq<char>)
    requires
        plain_line(words(s)),
    ensures
        command_line(spec_parse(s).command) == join(words(s), seq![' ']),
{
    let t = words(s);
    assert(tokens(s) =~= t) by {
        assert forall|k: int| 0 <= k < t.len() implies #[trigger] trim_quotes(t[k]) == t[k] by {
            assert(is_bar(t[k]) || plain_word(t[k]));
            if is_bar(t[k]) {
                assert(t[k][0] == '|');
                assert(t[k].last() == '|');
            }
            lemma_trim_plain(t[k]);
        }
    }
    assert(token_kind(seq!['|']) == TokenKind::Pipe);
    assert forall|k: int| 0 <= k < t.len() implies !is_redirect(#[trigger] token_kind(t[k])) by {
        assert(is_bar(t[k]) || plain_word(t[k]));
    }
    lemma_parse_from_fold(t, 0, initial_state());
    assert(t.skip(0) =~= t);
    if t.len() == 0 {
        assert(spec_parse(s).command.len() == 0);
        assert(command_line(spec_parse(s).command) =~= Seq::<char>::empty());
    } else {
        lemma_fold_plain_prefix(t, t.len() as int);
        assert(t.take(t.len() as int) =~= t);
        let st = fold_simple(t, initial_state());
        let cs = st.done.push(st.current);
        assert(spec_parse(s).command == cs);
        assert forall|k: int| 0 <= k < cs.len() implies (#[trigger] cs[k]).args.len() > 0 by {
            if k < st.done.len() {
                assert(cs[k] == st.done[k]);
                assert(plain_command(st.done[k]));
            }
        }
        lemma_command_line_joins_tokens(cs);
    }
}

/// Only the tokens of a line matter: two lines with the same tokens parse alike.
pub proof fn lemma_only_tokens_matter(s1: Seq<char>, s2: Seq<char>)
    requires
        tokens(s1) == tokens(s2),
    ensures
        spec_parse(s1) == spec_parse(s2),
{
}

/// The index at which reading tokens `i..` ends: the number of tokens, or one
/// past it when the last token is a redirection operator left without a target.
pub open spec fn stops_at(toks: Seq<Seq<char>>, i: nat) -> nat
    decreases toks.len() + 1 - i,
{
    if i >= toks.len() {
        i
    } else if is_redirect(token_kind(toks[i as int])) {
        stops_at(toks, i + 2)
    } else {
        stops_at(toks, i + 1)
    }
}

/// Reading one more token after a sequence that ends cleanly is reading that
/// token from where the sequence left off.
proof fn lemma_parse_from_push(toks: Seq<Seq<char>>, x: Seq<char>, i: nat, st: ParseState)
    requires
        i <= toks.len(),
        stops_at(toks, i) == toks.len(),
    ensures
        parse_from(toks.push(x), i, st) == parse_from(seq![x], 0, parse_from(toks, i, st)),
    decreases toks.len() - i,
{
    let t2 = toks.push(x);
    if i == toks.len() {
        assert(t2[i as int] == x);
        assert(seq![x][0] == x);
        let k = token_kind(x);
        if is_redirect(k) {
            assert(parse_from(t2, i + 2, st) == st);
            assert(parse_from(seq![x], 2, st) == st);
        } else {
            let st2 = simple_step(st, x);
            assert(parse_from(t2, i + 1, st2) == st2);
            assert(parse_from(seq![x], 1, st2) == st2);
        }
    } else {
        assert(t2[i as int] == toks[i as int]);
        let k = token_kind(toks[i as int]);
        if is_redirect(k) {
            if i + 1 == toks.len() {
                assert(stops_at(toks, i + 2) == i + 2);
                assert(false);
            }
            assert(t2[(i + 1) as int] == toks[(i + 1) as int]);
            let st2 = redirect(st, k, toks[(i + 1) as int]);
            lemma_parse_from_push(toks, x, i + 2, st2);
        } else {
            lemma_parse_from_push(toks, x, i + 1, simple_step(st, toks[i as int]));
        }
    }
}

/// A trailing ` &` only sends the line to the background: the commands stay
/// as they are, unless the line ends with a redirection operator still waiting
/// for its file (which `&` would then become).
pub proof fn lemma_trailing_ampersand(s: Seq<char>)
    requires
        stops_at(tokens(s), 0) == tokens(s).len(),
    ensures
        spec_parse(s + seq![' ', '&']) == (CommandsView { command: spec_parse(s).command, bg: true }),
{
    let amp = seq!['&'];
    assert(is_ws(' '));
    lemma_words_push_ws(s, ' ');
    assert(no_ws(amp));
    lemma_words_append_word(s.push(' '), amp);
    assert(s.push(' ') + amp =~= s + seq![' ', '&']);
    let t = tokens(s);
    assert(amp[0] == '&');
    assert(trim_start_quotes(amp) == amp);
    assert(trim_end_quotes(amp) == amp);
    assert(tokens(s + seq![' ', '&']) =~= t.push(amp));
    lemma_parse_from_push(t, amp, 0, initial_state());
    let st = parse_from(t, 0, initial_state());
    assert(token_kind(amp) == TokenKind::Background);
    let st2 = simple_step(st, amp);
    assert(seq![amp][0] == amp);
    assert(parse_from(seq![amp], 1, st2) == st2);
}

/// The parser's state after reading all the tokens of `s`.
pub open spec fn final_state(s: Seq<char>) -> ParseState {
    parse_from(tokens(s), 0, initial_state())
}

/// Reading from index `t.len() + j` of `t + u` is reading `u` from `j`.
proof fn lemma_parse_from_shift(t: Seq<Seq<char>>, u: Seq<Seq<char>>, j: nat, st: ParseState)
    ensures
        parse_from(t + u, t.len() + j, st) == parse_from(u, j, st),
    decreases u.len() + 1 - j,
{
    let tu = t + u;
    let i = t.len() + j;
    if j < u.len() {
        assert(tu[i as int] == u[j as int]);
        let k = token_kind(u[j as int]);
        if is_redirect(k) {
            if j + 1 < u.len() {
                assert(tu[(i + 1) as int] == u[(j + 1) as int]);
            }
            let st2 = if j + 1 < u.len() {
                redirect(st, k, u[(j + 1) as int])
            } else {
                st
            };
            lemma_parse_from_shift(t, u, j + 2, st2);
        } else {
            lemma_parse_from_shift(t, u, j + 1, simple_step(st, u[j as int]));
        }
    }
}

/// Reading more tokens after a sequence that ends cleanly is reading them from
/// where the sequence left off.
proof fn lemma_parse_from_concat(t: Seq<Seq<char>>, u: Seq<Seq<char>>, i: nat, st: ParseState)
    requires
        i <= t.len(),
        stops_at(t, i) == t.len(),
    ensures
        parse_from(t + u, i, st) == parse_from(u, 0, parse_from(t, i, st)),
    decreases t.len() - i,
{
    let tu = t + u;
    if i == t.len() {
        lemma_parse_from_shift(t, u, 0, st);
    } else {
        assert(tu[i as int] == t[i as int]);
        let k = token_kind(t[i as int]);
        if is_redirect(k) {
            if i + 1 == t.len() {
                assert(stops_at(t, i + 2) == i + 2);
                assert(false);
            }
            assert(tu[(i + 1) as int] == t[(i + 1) as int]);
            lemma_parse_from_concat(t, u, i + 2, redirect(st, k, t[(i + 1) as int]));
        } else {
            lemma_parse_from_concat(t, u, i + 1, simple_step(st, t[i as int]));
        }
    }
}

/// The tokens of `s` followed by the operator `op` and the file `f`.
proof fn lemma_tokens_after_redirect(s: Seq<char>, op: Seq<char>, f: Seq<char>)
    requires
        op == seq!['<'] || op == seq!['>'] || op == seq!['>', '>'],
        f.len() > 0,
        no_ws(f),
    ensures
        tokens(s + seq![' '] + op + seq![' '] + f) == tokens(s) + seq![op, trim_quotes(f)],
{
    assert(is_ws(' '));
    assert(op.len() > 0 && op[0] != '"' && op.last() != '"');
    assert(no_ws(op));
    lemma_words_push_ws(s, ' ');
    let a = s.push(' ');
    lemma_words_append_word(a, op);
    let b = a + op;
    lemma_words_push_ws(b, ' ');
    let c = b.push(' ');
    lemma_words_append_word(c, f);
    assert(s + seq![' '] + op + seq![' '] + f =~= c + f);
    assert(words(c + f) =~= words(s) + seq![op, f]);
    lemma_trim_plain(op);
    assert(tokens(s + seq![' '] + op + seq![' '] + f) =~= tokens(s) + seq![op, trim_quotes(f)]);
}

/// The state after a line and then a redirection `op f` is the redirection
/// applied to the state after the line.
proof fn lemma_final_state_after_redirect(s: Seq<char>, op: Seq<char>, f: Seq<char>)
    requires
        op == seq!['<'] || op == seq!['>'] || op == seq!['>', '>'],
        f.len() > 0,
        no_ws(f),
        stops_at(tokens(s), 0) == tokens(s).len(),
    ensures
        final_state(s + seq![' '] + op + seq![' '] + f) == redirect(
            final_state(s),
            token_kind(op),
            trim_quotes(f),
        ),
{
    lemma_tokens_after_redirect(s, op, f);
    let u = seq![op, trim_quotes(f)];
    lemma_parse_from_concat(tokens(s), u, 0, initial_state());
    let st = final_state(s);
    assert(u[0] == op);
    assert(u[1] == trim_quotes(f));
    assert(is_redirect(token_kind(op))) by {
        if op == seq!['>'] {
            assert(op != seq!['|'] && op != seq!['<']) by {
                assert(op[0] == '>');
            }
        } else if op == seq!['>', '>'] {
            assert(op.len() == 2);
        }
    }
    let st2 = redirect(st, token_kind(op), trim_quotes(f));
    assert(parse_from(u, 2, st2) == st2);
}

/// A `<` redirection changes only the command's standard input: after
/// `line < f` the command has the words, output file, append flag and
/// neighbours it had after `line`, and reads from `f`.
pub proof fn lemma_input_redirection_changes_only_stdin(s: Seq<char>, f: Seq<char>)
    requires
        f.len() > 0,
        no_ws(f),
        stops_at(tokens(s), 0) == tokens(s).len(),
    ensures
        ({
            let before = final_state(s);
            let after = final_state(s + seq![' ', '<', ' '] + f);
            &&& after.done == before.done
            &&& after.bg == before.bg
            &&& after.current.args == before.current.args
            &&& after.current.stdin == Some(trim_quotes(f))
            &&& after.current.stdout == before.current.stdout
            &&& after.current.append == before.current.append
        }),
        ({
            let c = spec_parse(s).command;
            let c2 = spec_parse(s + seq![' ', '<', ' '] + f);
            &&& c2.bg == spec_parse(s).bg
            &&& final_state(s).current.args.len() > 0 ==> c2.command == c.update(
                c.len() - 1,
                CommandView { stdin: Some(trim_quotes(f)), ..c.last() },
            )
            &&& final_state(s).current.args.len() == 0 ==> c2.command == c
        }),
{
    lemma_final_state_after_redirect(s, seq!['<'], f);
    assert(s + seq![' '] + seq!['<'] + seq![' '] + f =~= s + seq![' ', '<', ' '] + f);
    assert(seq!['<'] != seq!['|']) by {
        assert(seq!['<'][0] != seq!['|'][0]);
    }
    assert(token_kind(seq!['<']) == TokenKind::Input);
}

/// A `>` or `>>` redirection changes only the command's standard output: after
/// `line > f` (or `line >> f`) the command writes to `f`, truncating (or
/// appending), and keeps its words, input file and neighbours.
pub proof fn lemma_output_redirection_changes_only_stdout(s: Seq<char>, f: Seq<char>, append: bool)
    requires
        f.len() > 0,
        no_ws(f),
        stops_at(tokens(s), 0) == tokens(s).len(),
    ensures
        ({
            let op = if append {
                seq![' ', '>', '>', ' ']
            } else {
                seq![' ', '>', ' ']
            };
            let before = final_state(s);
            let after = final_state(s + op + f);
            &&& after.done == before.done
            &&& after.bg == before.bg
            &&& after.current.args == before.current.args
            &&& after.current.stdin == before.current.stdin
            &&& after.current.stdout == Some(trim_quotes(f))
            &&& after.current.append == append
        }),
        ({
            let op = if append {
                seq![' ', '>', '>', ' ']
            } else {
                seq![' ', '>', ' ']
            };
            let c = spec_parse(s).command;
            let c2 = spec_parse(s + op + f);
            &&& c2.bg == spec_parse(s).bg
            &&& final_state(s).current.args.len() > 0 ==> c2.command == c.update(
                c.len() - 1,
                CommandView { stdout: Some(trim_quotes(f)), append, ..c.last() },
            )
            &&& final_state(s).current.args.len() == 0 ==> c2.command == c
        }),
{
    if append {
        lemma_final_state_after_redirect(s, seq!['>', '>'], f);
        assert(s + seq![' '] + seq!['>', '>'] + seq![' '] + f =~= s + seq![' ', '>', '>', ' '] + f);
        assert(seq!['>', '>'] != seq!['|']);
        assert(seq!['>', '>'] != seq!['<']);
        assert(seq!['>', '>'] != seq!['>']);
        assert(token_kind(seq!['>', '>']) == TokenKind::AppendOutput);
    } else {
        lemma_final_state_after_redirect(s, seq!['>'], f);
        assert(s + seq![' '] + seq!['>'] + seq![' '] + f =~= s + seq![' ', '>', ' '] + f);
        assert(seq!['>'] != seq!['|']) by {
            assert(seq!['>'][0] != seq!['|'][0]);
        }
        assert(seq!['>'] != seq!['<']) by {
            assert(seq!['>'][0] != seq!['<'][0]);
        }
        assert(token_kind(seq!['>']) == TokenKind::Output);
    }
}

} // verus!
