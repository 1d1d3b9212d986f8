use vstd::prelude::*;
use crate::parser::{command_views, Command, CommandView};

verus! {

/// Where a process of a command reads its standard input from.
#[derive(Debug, Clone, Copy, PartialEq, Eq, Structural)]
pub enum Source {
    /// The shell's own standard input.
    Terminal,
    /// The file the command names after `<`.
    File,
    /// The read end of pipe `k`.
    Pipe(usize),
}

/// Where a process of a command writes its standard output to.
#[derive(Debug, Clone, Copy, PartialEq, Eq, Structural)]
pub enum Sink {
    /// The shell's own standard output.
    Terminal,
    /// The file the command names after `>` or `>>`.
    File,
    /// The write end of pipe `k`.
    Pipe(usize),
}

/// The standard input and output of one process.
#[derive(Debug, Clone, Copy, PartialEq, Eq, Structural)]
pub struct Wiring {
    pub input: Source,
    pub output: Sink,
}

/// The input of a command that reads no pipe: its `<` file, if it names one.
pub open spec fn own_input(c: CommandView) -> Source {
    if c.stdin is Some {
        Source::File
    } else {
        Source::Terminal
    }
}

/// The output of a command that writes no pipe: its `>`/`>>` file, if it names one.
pub open spec fn own_output(c: CommandView) -> Sink {
    if c.stdout is Some {
        Sink::File
    } else {
        Sink::Terminal
    }
}

/// How a single command is wired: to its own files, or to the terminal.
pub open spec fn single_wiring(c: CommandView) -> Wiring {
    Wiring { input: own_input(c), output: own_output(c) }
}

/// How stage `i` of a pipeline of `n` commands is wired: the first reads its
/// `<` file or the terminal and writes pipe 0; the last reads pipe `n - 2` and
/// writes its `>`/`>>` file or the terminal; stage `i` in between reads pipe
/// `i - 1` and writes pipe `i`. Redirections of the other stages are not used.
pub open spec fn stage_wiring(cs: Seq<CommandView>, i: int) -> Wiring {
    if i == 0 {
        Wiring { input: own_input(cs[0]), output: Sink::Pipe(0) }
    } else if i == cs.len() - 1 {
        Wiring { input: Source::Pipe((i - 1) as usize), output: own_output(cs[i]) }
    } else {
        Wiring { input: Source::Pipe((i - 1) as usize), output: Sink::Pipe(i as usize) }
    }
}

fn input_of(c: &Command) -> (s: Source)
    ensures
        s == own_input(c@),
{
    if c.stdin.is_some() {
        Source::File
    } else {
        Source::Terminal
    }
}

fn output_of(c: &Command) -> (s: Sink)
    ensures
        s == own_output(c@),
{
    if c.stdout.is_some() {
        Sink::File
    } else {
        Sink::Terminal
    }
}

/// The wiring of a command run on its own.
pub fn wire_command(c: &Command) -> (w: Wiring)
    ensures
        w == single_wiring(c@),
{
    Wiring { input: input_of(c), output: output_of(c) }
}

/// The number of pipes that connect a pipeline of `n` commands.
pub fn pipe_count(n: usize) -> (k: usize)
    requires
        n >= 1,
    ensures
        k == n - 1,
{
    n - 1
}

/// The wiring of every stage of a pipeline of two or more commands.
pub fn wire_pipeline(cs: &[Command]) -> (ws: Vec<Wiring>)
    requires
        cs.len() >= 2,
    ensures
        ws.len() == cs.len(),
        forall|i: int| 0 <= i < cs.len() ==> #[trigger] ws[i] == stage_wiring(command_views(cs@), i),
{
    let n = cs.len();
    let mut ws: Vec<Wiring> = Vec::new();
    let mut i: usize = 0;
    while i < n
        invariant
            n == cs.len() >= 2,
            i <= n,
            ws.len() == i,
            forall|j: int| 0 <= j < i ==> #[trigger] ws[j] == stage_wiring(command_views(cs@), j),
        decreases n - i,
    {
        let w = if i == 0 {
            Wiring { input: input_of(&cs[0]), output: Sink::Pipe(0) }
        } else if i == n - 1 {
            Wiring { input: Source::Pipe(i - 1), output: output_of(&cs[i]) }
        } else {
            Wiring { input: Source::Pipe(i - 1), output: Sink::Pipe(i) }
        };
        assert(command_views(cs@)[i as int] == cs@[i as int]@);
        ws.push(w);
        i = i + 1;
    }
    ws
}

/// In a pipeline, pipe `k` is written by stage `k` alone and read by stage
/// `k + 1` alone; the first stage reads its own input and the last stage writes
/// its own output.
pub proof fn lemma_pipes_join_neighbours(cs: Seq<CommandView>, k: int)
    requires
        2 <= cs.len() <= usize::MAX,
        0 <= k < cs.len() - 1,
    ensures
        stage_wiring(cs, k).output == Sink::Pipe(k as usize),
        stage_wiring(cs, k + 1).input == Source::Pipe(k as usize),
        forall|j: int|
            0 <= j < cs.len() && #[trigger] stage_wiring(cs, j).output == Sink::Pipe(k as usize)
                ==> j == k,
        forall|j: int|
            0 <= j < cs.len() && #[trigger] stage_wiring(cs, j).input == Source::Pipe(k as usize)
                ==> j == k + 1,
        stage_wiring(cs, 0).input == own_input(cs[0]),
        stage_wiring(cs, cs.len() - 1).output == own_output(cs[cs.len() - 1]),
{
}

/// A command uses its own files exactly when it names them: its input is its
/// `<` file exactly when it names one, and its output is its `>`/`>>` file
/// exactly when it names one, whichever of `>` and `>>` it was (the append flag
/// does not change where the output goes). The same holds of a pipeline's first
/// input and last output.
pub proof fn lemma_commands_use_their_files(c: CommandView, cs: Seq<CommandView>)
    ensures
        (single_wiring(c).input == Source::File) <==> c.stdin is Some,
        (single_wiring(c).input == Source::Terminal) <==> c.stdin is None,
        (single_wiring(c).output == Sink::File) <==> c.stdout is Some,
        (single_wiring(c).output == Sink::Terminal) <==> c.stdout is None,
        single_wiring(CommandView { append: !c.append, ..c }) == single_wiring(c),
        cs.len() >= 2 ==> ((stage_wiring(cs, 0).input == Source::File) <==> cs[0].stdin is Some),
        cs.len() >= 2 ==> ((stage_wiring(cs, 0).input == Source::Terminal) <==> cs[0].stdin is None),
        cs.len() >= 2 ==> ((stage_wiring(cs, cs.len() - 1).output == Sink::File) <==> cs.last().stdout is Some),
        cs.len() >= 2 ==> ((stage_wiring(cs, cs.len() - 1).output == Sink::Terminal) <==> cs.last().stdout is None),
{
}

} // verus!
