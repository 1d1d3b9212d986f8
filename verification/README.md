# shell

A small Unix shell (pipelines, `<`, `>`, `>>`, `&`, job control with `jobs`,
`fg`, `bg`, and the builtins `cd`, `pwd`, `echo`, `exit`), whose decisions are
verified with Verus.

- `src/` is the verified library:
  - `parser`: splitting an input line into tokens and reading the pipeline it
    describes (`parse`), and the text of a pipeline (`construct_string`), with
    the law that the text of a plain pipeline reads back as the same pipeline.
  - `builtins`: what the shell does with a parsed line (`dispatch`), job
    numbers, the text of `echo`, the target of `cd`.
  - `jobs`: the job table: resuming (`bg`), waiting for foreground jobs and
    commands, polling background jobs, the job list.
  - `plan`: how the standard input and output of each process of a command or
    pipeline are connected.
  - `text`: characters, words, quotes and decimal numbers.
  - `sys`: the calls into `nix` (`killpg`, `waitpid`), and the records
    (`Signalled`, `Waited`) of what each call was handed and answered.
- `app/` is the program around it: the read loop, `fork`/`exec`, file
  descriptors, the terminal, signals and printing.
- `tests/` runs the library on concrete values.
