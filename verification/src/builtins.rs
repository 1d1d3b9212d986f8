use vstd::prelude::*;
use crate::parser::{join, Command, Commands, CommandsView};
use crate::text::{chars_of, decimal, digit};

verus! {

/// Whether `c` is an ASCII decimal digit.
pub open spec fn is_digit(c: char) -> bool {
    48 <= (c as u32) <= 57
}

/// The number written by the decimal digits `d`.
pub open spec fn digits_value(d: Seq<char>) -> nat
    decreases d.len(),
{
    if d.len() == 0 {
        0
    } else {
        digits_value(d.drop_last()) * 10 + ((d.last() as u32) - 48) as nat
    }
}

/// The number that `s` writes as an unsigned integer (`str::parse::<usize>` without
/// the size limit): an optional `+`, then at least one decimal digit and nothing else.
pub open spec fn unsigned_value(s: Seq<char>) -> Option<nat> {
    let d = unsigned_digits(s);
    if d.len() > 0 && all_digits(d) {
        Some(digits_value(d))
    } else {
        None
    }
}

/// `s` without a leading `+`.
pub open spec fn unsigned_digits(s: Seq<char>) -> Seq<char> {
    if s.len() > 0 && s[0] == '+' {
        s.drop_first()
    } else {
        s
    }
}

/// Whether every character of `d` is a decimal digit.
pub open spec fn all_digits(d: Seq<char>) -> bool {
    forall|i: int| 0 <= i < d.len() ==> is_digit(#[trigger] d[i])
}

/// The job number that `s` names: its unsigned value, if it fits in `usize`.
pub open spec fn job_id_value(s: Seq<char>) -> Option<usize> {
    match unsigned_value(s) {
        Some(n) => if n <= usize::MAX {
            Some(n as usize)
        } else {
            None
        },
        None => None,
    }
}

proof fn lemma_digits_value_prefix(d: Seq<char>, i: int)
    requires
        0 <= i <= d.len(),
        forall|j: int| 0 <= j < d.len() ==> is_digit(#[trigger] d[j]),
    ensures
        digits_value(d.take(i)) <= digits_value(d),
    decreases d.len(),
{
    if i < d.len() {
        assert(d.drop_last().take(i) =~= d.take(i));
        lemma_digits_value_prefix(d.drop_last(), i);
    } else {
        assert(d.take(i) =~= d);
    }
}

/// Reads a job number the way `str::parse::<usize>` does.
pub fn parse_job_id(s: &str) -> (r: Option<usize>)
    ensures
        r == job_id_value(s@),
{
    let v = chars_of(s);
    let start: usize = if v.len() > 0 && v[0] == '+' {
        1
    } else {
        0
    };
    let ghost d = unsigned_digits(s@);
    assert(d =~= v@.skip(start as int));
    if start >= v.len() {
        return None;
    }
    let mut acc: usize = 0;
    let mut k: usize = start;
    while k < v.len()
        invariant
            start <= k <= v.len(),
            v@ == s@,
            d == v@.skip(start as int),
            d == unsigned_digits(s@),
            d.len() > 0,
            forall|j: int| 0 <= j < k - start ==> is_digit(#[trigger] d[j]),
            acc == digits_value(d.take(k - start)),
        decreases v.len() - k,
    {
        let c = v[k];
        let u = c as u32;
        assert(d[k - start] == c);
        if u < 48 || u > 57 {
            assert(!is_digit(d[k - start]));
            return None;
        }
        let dv = (u - 48) as usize;
        assert(d.take(k - start + 1).drop_last() =~= d.take(k - start));
        assert(d.take(k - start + 1).last() == c);
        assert(digits_value(d.take(k - start + 1)) == acc * 10 + dv);
        match acc.checked_mul(10) {
            Some(m) => match m.checked_add(dv) {
                Some(n) => {
                    acc = n;
                },
                None => {
                    proof {
                        if all_digits(d) {
                            lemma_digits_value_prefix(d, k - start + 1);
                        }
                    }
                    return None;
                },
            },
            None => {
                proof {
                    if all_digits(d) {
                        lemma_digits_value_prefix(d, k - start + 1);
                    }
                }
                return None;
            },
        }
        k = k + 1;
    }
    assert(d.take(v.len() - start) =~= d);
    Some(acc)
}

/// The text that `echo` prints: the words after the command name, joined by spaces.
pub fn echo_text(cmd: &Command) -> (s: String)
    requires
        cmd.args.len() >= 1,
    ensures
        s@ == join(cmd@.args.drop_first(), seq![' ']),
{
    let s = crate::parser::join_words_from(&cmd.args, 1);
    assert(cmd.args.deep_view().skip(1) =~= cmd@.args.drop_first());
    s
}

/// The directory that `cd` changes to: its first argument, or `None` for the
/// home directory when there is none.
pub fn cd_target(cmd: &Command) -> (r: Option<String>)
    ensures
        r.deep_view() == if cmd@.args.len() < 2 {
            None
        } else {
            Some(cmd@.args[1])
        },
{
    if cmd.args.len() < 2 {
        None
    } else {
        Some(cmd.args[1].clone())
    }
}

/// Whether two strings hold the same characters.
pub fn text_eq(a: &str, b: &str) -> (r: bool)
    ensures
        r == (a@ == b@),
{
    let x = chars_of(a);
    let y = chars_of(b);
    if x.len() != y.len() {
        return false;
    }
    let mut i: usize = 0;
    while i < x.len()
        invariant
            i <= x.len() == y.len(),
            x@ == a@,
            y@ == b@,
            forall|j: int| 0 <= j < i ==> x@[j] == y@[j],
        decreases x.len() - i,
    {
        if x[i] != y[i] {
            return false;
        }
        i = i + 1;
    }
    assert(x@ =~= y@);
    true
}

/// What the shell does with a parsed line.
#[derive(Debug, Clone, Copy, PartialEq, Eq, Structural)]
pub enum Action {
    /// An empty line, or one whose first command has no words.
    Skip,
    Exit,
    Pwd,
    Cd,
    Echo,
    Jobs,
    /// `fg` with the job number read from its first argument, if it has a valid one.
    Fg(Option<usize>),
    /// `bg` with the job number read from its first argument, if it has a valid one.
    Bg(Option<usize>),
    /// Run a single external command.
    Run,
    /// Run a pipeline of several commands.
    RunPipeline,
}

/// The job number given to `fg` or `bg` by the words `args`.
pub open spec fn job_arg(args: Seq<Seq<char>>) -> Option<usize> {
    if args.len() < 2 {
        None
    } else {
        job_id_value(args[1])
    }
}

/// The action for a parsed line: builtins are recognised only when the line is a
/// single command, by its first word.
pub open spec fn spec_dispatch(c: CommandsView) -> Action {
    if c.command.len() == 0 || c.command[0].args.len() == 0 {
        Action::Skip
    } else if c.command.len() == 1 {
        let a = c.command[0].args;
        if a[0] == "exit"@ {
            Action::Exit
        } else if a[0] == "pwd"@ {
            Action::Pwd
        } else if a[0] == "cd"@ {
            Action::Cd
        } else if a[0] == "echo"@ {
            Action::Echo
        } else if a[0] == "jobs"@ {
            Action::Jobs
        } else if a[0] == "fg"@ {
            Action::Fg(job_arg(a))
        } else if a[0] == "bg"@ {
            Action::Bg(job_arg(a))
        } else {
            Action::Run
        }
    } else {
        Action::RunPipeline
    }
}

fn read_job_arg(args: &Vec<String>) -> (r: Option<usize>)
    ensures
        r == job_arg(args.deep_view()),
{
    if args.len() < 2 {
        None
    } else {
        parse_job_id(args[1].as_str())
    }
}

/// Decides what the shell does with a parsed line.
pub fn dispatch(input: &Commands) -> (a: Action)
    ensures
        a == spec_dispatch(input@),
{
    if input.command.len() == 0 || input.command[0].args.len() == 0 {
        return Action::Skip;
    }
    if input.command.len() > 1 {
        return Action::RunPipeline;
    }
    let args = &input.command[0].args;
    assert(input@.command[0].args == args.deep_view());
    let name = args[0].as_str();
    if text_eq(name, "exit") {
        Action::Exit
    } else if text_eq(name, "pwd") {
        Action::Pwd
    } else if text_eq(name, "cd") {
        Action::Cd
    } else if text_eq(name, "echo") {
        Action::Echo
    } else if text_eq(name, "jobs") {
        Action::Jobs
    } else if text_eq(name, "fg") {
        Action::Fg(read_job_arg(args))
    } else if text_eq(name, "bg") {
        Action::Bg(read_job_arg(args))
    } else {
        Action::Run
    }
}

/// Whether `c` is a single command whose first word is `w`.
pub open spec fn single_named(c: CommandsView, w: Seq<char>) -> bool {
    c.command.len() == 1 && c.command[0].args.len() > 0 && c.command[0].args[0] == w
}

/// The action for a single command depends only on its first word, and for
/// `fg`/`bg` on the job number: two single commands with the same first word
/// and the same job number get the same action.
pub proof fn lemma_action_by_first_word(c1: CommandsView, c2: CommandsView)
    requires
        c1.command.len() == 1,
        c2.command.len() == 1,
        c1.command[0].args.len() > 0,
        c2.command[0].args.len() > 0,
        c1.command[0].args[0] == c2.command[0].args[0],
        job_arg(c1.command[0].args) == job_arg(c2.command[0].args),
    ensures
        spec_dispatch(c1) == spec_dispatch(c2),
{
}

/// Each builtin is recognised by its name alone when it is the first word of a
/// single command, whatever its arguments; `fg` and `bg` carry the job number
/// their first argument gives, and a line of several commands is a pipeline.
pub proof fn lemma_builtins_by_name(c: CommandsView)
    ensures
        single_named(c, "exit"@) ==> spec_dispatch(c) == Action::Exit,
        single_named(c, "pwd"@) ==> spec_dispatch(c) == Action::Pwd,
        single_named(c, "cd"@) ==> spec_dispatch(c) == Action::Cd,
        single_named(c, "echo"@) ==> spec_dispatch(c) == Action::Echo,
        single_named(c, "jobs"@) ==> spec_dispatch(c) == Action::Jobs,
        single_named(c, "fg"@) ==> spec_dispatch(c) == Action::Fg(job_arg(c.command[0].args)),
        single_named(c, "bg"@) ==> spec_dispatch(c) == Action::Bg(job_arg(c.command[0].args)),
        c.command.len() > 1 && c.command[0].args.len() > 0 ==> spec_dispatch(c)
            == Action::RunPipeline,
        (c.command.len() == 0 || c.command[0].args.len() == 0) ==> spec_dispatch(c)
            == Action::Skip,
{
    reveal_strlit("exit");
    reveal_strlit("pwd");
    reveal_strlit("cd");
    reveal_strlit("echo");
    reveal_strlit("jobs");
    reveal_strlit("fg");
    reveal_strlit("bg");
    assert("exit"@.len() == 4 && "echo"@.len() == 4 && "jobs"@.len() == 4);
    assert("pwd"@.len() == 3);
    assert("cd"@.len() == 2 && "fg"@.len() == 2 && "bg"@.len() == 2);
    assert("exit"@[0] == 'e' && "exit"@[1] == 'x' && "echo"@[1] == 'c' && "jobs"@[0] == 'j');
    assert("cd"@[0] == 'c' && "fg"@[0] == 'f' && "bg"@[0] == 'b');
    assert("exit"@ != "echo"@ && "exit"@ != "jobs"@ && "echo"@ != "jobs"@);
    assert("cd"@ != "fg"@ && "cd"@ != "bg"@ && "fg"@ != "bg"@);
}

/// Job numbers are read in decimal as `str::parse::<usize>` reads them: an
/// empty text or a lone `+` is no number; a text with a character that is not a
/// digit (other than one leading `+`) is no number; a leading `+` changes
/// nothing; digits give their value when it fits in `usize`; one more digit
/// multiplies the value by ten and adds the digit.
pub proof fn lemma_job_numbers_are_decimal(d: Seq<char>, c: char)
    ensures
        job_id_value(seq![]) is None,
        job_id_value(seq!['+']) is None,
        (exists|i: int|
            0 <= i < d.len() && !is_digit(#[trigger] d[i]) && !(i == 0 && d[i] == '+'))
            ==> job_id_value(d) is None,
        d.len() > 0 && all_digits(d) ==> job_id_value(seq!['+'] + d) == job_id_value(d),
        d.len() > 0 && all_digits(d) ==> ((job_id_value(d) is Some) <==> digits_value(d)
            <= usize::MAX),
        d.len() > 0 && all_digits(d) ==> (job_id_value(d) matches Some(n) ==> n == digits_value(d)),
        is_digit(c) ==> digits_value(seq![c]) == (c as u32) - 48,
        is_digit(c) ==> digits_value(d.push(c)) == 10 * digits_value(d) + ((c as u32) - 48),
{
    assert(seq![c].drop_last() =~= Seq::<char>::empty());
    assert(digits_value(Seq::<char>::empty()) == 0);
    assert(seq![c].last() == c);
    assert(d.push(c).drop_last() =~= d);
    assert(d.push(c).last() == c);
    if d.len() > 0 && all_digits(d) {
        let pd = seq!['+'] + d;
        assert(pd.drop_first() =~= d);
        assert(pd[0] == '+');
    }
    if exists|i: int| 0 <= i < d.len() && !is_digit(#[trigger] d[i]) && !(i == 0 && d[i] == '+') {
        let i = choose|i: int| 0 <= i < d.len() && !is_digit(#[trigger] d[i]) && !(i == 0 && d[i] == '+');
        let u = unsigned_digits(d);
        if d.len() > 0 && d[0] == '+' {
            assert(i > 0);
            assert(u[i - 1] == d[i]);
            assert(!is_digit(u[i - 1]));
        } else {
            assert(u[i] == d[i]);
        }
        assert(!all_digits(u));
    }
    let plus = seq!['+'];
    assert(unsigned_digits(plus) =~= Seq::<char>::empty());
}

/// The decimal numbers that the job list prints read back as the same number:
/// they are digits, with no leading zero unless the number is zero, and their
/// value is the number.
pub proof fn lemma_decimal_reads_back(n: nat)
    ensures
        decimal(n).len() > 0,
        all_digits(decimal(n)),
        digits_value(decimal(n)) == n,
        decimal(n)[0] == '0' ==> n == 0,
    decreases n,
{
    if n >= 10 {
        lemma_decimal_reads_back(n / 10);
        let d = decimal(n / 10);
        let e = decimal(n);
        assert(e == d.push(digit(n % 10)));
        assert(e.drop_last() =~= d);
        assert(e[0] == d[0]);
        assert(e.last() == digit(n % 10));
        assert((digit(n % 10) as u32) == n % 10 + 48);
        assert(n == 10 * (n / 10) + n % 10);
        assert(digits_value(e) == digits_value(d) * 10 + n % 10);
        assert(digits_value(e) == n);
        assert(all_digits(e)) by {
            assert forall|i: int| 0 <= i < e.len() implies is_digit(#[trigger] e[i]) by {
                if i < d.len() {
                    assert(e[i] == d[i]);
                }
            }
        }
    } else {
        assert(decimal(n) =~= seq![digit(n)]);
        assert(decimal(n).drop_last() =~= Seq::<char>::empty());
        assert((digit(n) as u32) == n + 48);
        assert(decimal(n).last() == digit(n));
        assert(digits_value(Seq::<char>::empty()) == 0);
        assert(digits_value(decimal(n)) == n);
    }
}

} // verus!
