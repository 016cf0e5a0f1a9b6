//! The shell: its state, its commands and the loop around them.
//!
//! [`Shell::start`] and [`Shell::step`] drive the shell: each returns what the
//! shell asks for next, and the answer goes into the next call of
//! [`Shell::step`].
use crate::builtins::is_builtin;
use crate::bytes::{
    as_str, copy, cut, cut_copy, filled, find_byte, first_index, is_name_byte, lemma_filled_cut,
    same, shown, text, trim, views, EQUALS, HASH, NEWLINE, NUL, SLASH, SPACE,
};
use crate::dirents::{is_listable, listable, write_listing};
use crate::editor::{key_effect, lemma_exit_len, KeyState, LineEditor, CARRIAGE_RETURN, CTRL_D};
use crate::expand::{
    expand_line, expand_value, expansion, substitution, unmark, unquoted, words_of, Mark,
};
use crate::io::{
    decimal, fmt_i64, fmt_u64, law_write_nothing, law_writes_join, lemma_writes_3, lemma_writes_4,
    parse_i64, signed_decimal, write_byte, write_bytes, write_str, wrote, StdoutWriter, WriterState,
    PIPE_BUF_SIZE,
};
use crate::machine::{answers, Action, Event, Goal, Task};
use crate::model::{
    acceptable, after_writing, all_exported, all_unset, banner, candidates, cat, cat_from,
    cat_opened, cat_read, cd, cd_done, cleared, command_fits, command_marks, directory_ok,
    dispatched, echoed, env_lines, exec, exec_done, executed, exiting, export, exported, external,
    files_fit, finished, goal_ok, helped, history_lines, initial_state, is_assignment, key_pressed,
    line_fits, ls, ls_closed, ls_opened, ls_read, named_system, no_command, padded, path_fits,
    prompting, remembering, repeated, resumed, run_done, run_marked, search, search_failed,
    search_found, search_list, search_opened, shell_ok, started, stepped, task_ok, terminated,
    type_from, Outcome, SeqTask, ShellState, ENOSYS, HELP, MAX_EXPANDED, NOT_RUN, SCREEN_LINES,
    VERSION,
};
use crate::path::{colon_parts, join, join_path, resolve_path, resolved, split_colon, MAX_CWD};
use crate::prompt::{format_prompt, prompt_of, MAX_PROMPT};
use crate::vars::{assigned, lookup, unassigned, Binding, Vars, MAX_VAR_VAL};
use crate::words::{mark_words, spaced, split_words, unmark_words};
use vstd::prelude::*;

verus! {

/// What the shell asks for.
pub type Request = Action<Vec<u8>>;

/// The answer to a request.
pub type Answer = Event<Vec<u8>>;

/// The shell: its line editor, working directory, variables and exit status.
pub struct Shell {
    editor: LineEditor,
    cwd: Vec<u8>,
    last_status: i64,
    vars: Vars,
    prompt: Vec<u8>,
    task: Task<Vec<u8>, Vec<Vec<u8>>>,
}

impl View for Shell {
    type V = ShellState;

    closed spec fn view(&self) -> ShellState {
        ShellState {
            editor: self.editor@,
            cwd: self.cwd@,
            status: self.last_status,
            env: self.vars@,
            prompt: self.prompt@,
            task: self.task@,
        }
    }
}

/// What is asked for, if anything.
pub open spec fn asked(r: Option<Request>) -> Option<Action<Seq<u8>>> {
    match r {
        Some(action) => Some(action@),
        None => None,
    }
}

/// `o` is what happened: the shell is as `o` says, its output has been written
/// to a writer that was in state `before`, and what it asks for is `r`.
pub open spec fn realised(
    o: Outcome,
    shell: Shell,
    before: WriterState,
    out: StdoutWriter,
    r: Option<Request>,
) -> bool {
    &&& shell.wf()
    &&& out.wf()
    &&& shell@ == o.state
    &&& out@ == wrote(before, o.out)
    &&& asked(r) == o.action
}

impl Shell {
    pub closed spec fn wf(&self) -> bool {
        &&& self.editor.wf()
        &&& shell_ok(self@)
    }

    /// A well-formed shell keeps the limits.
    pub proof fn lemma_ok(&self)
        requires
            self.wf(),
        ensures
            shell_ok(self@),
    {
    }

    /// A shell before its first prompt.
    pub fn new() -> (r: Self)
        ensures
            r.wf(),
            r@ == initial_state(),
    {
        let mut vars: Vars = Vars::new();
        vars.set("PATH".as_bytes(), "/bin".as_bytes());
        vars.set("SHELL".as_bytes(), "/bin/rsh".as_bytes());
        vars.set("HOME".as_bytes(), "/".as_bytes());
        vars.set("PS1".as_bytes(), "\x1b[1;32mrsh\x1b[0m:\x1b[1;34m\\w\x1b[0m$ ".as_bytes());
        let cwd: Vec<u8> = vec![SLASH];
        let r = Shell {
            editor: LineEditor::new(),
            cwd,
            last_status: 0,
            vars,
            prompt: Vec::new(),
            task: Task::Line,
        };
        proof {
            assert(r.cwd@ =~= seq![SLASH]);
            assert(r.prompt@ =~= Seq::<u8>::empty());
            r.editor.lemma_ok();
        }
        r
    }

    // Variable access ----------------------------------------------------------

    /// The value of the variable `name`.
    pub fn get_var(&self, name: &[u8]) -> (r: Option<&[u8]>)
        ensures
            r is Some <==> lookup(self@.env, name@) is Some,
            r matches Some(v) ==> lookup(self@.env, name@) == Some(v@),
    {
        self.vars.get(name)
    }

    /// Set the variable `name` to `value`.
    pub fn set_var(&mut self, name: &[u8], value: &[u8])
        requires
            old(self).wf(),
        ensures
            final(self).wf(),
            final(self)@ == (ShellState {
                env: assigned(old(self)@.env, name@, value@),
                ..old(self)@
            }),
    {
        self.vars.set(name, value);
    }

    /// Remove the variable `name`.
    pub fn unset_var(&mut self, name: &[u8])
        requires
            old(self).wf(),
        ensures
            final(self).wf(),
            final(self)@ == (ShellState {
                env: unassigned(old(self)@.env, name@),
                ..old(self)@
            }),
    {
        self.vars.unset(name);
    }

    /// The current working directory.
    pub fn cwd(&self) -> (r: &[u8])
        ensures
            r@ == self@.cwd,
    {
        self.cwd.as_slice()
    }

    /// The exit status of the last command.
    pub fn last_status(&self) -> (r: i64)
        ensures
            r == self@.status,
    {
        self.last_status
    }

    // Expansion and prompt -----------------------------------------------------

    /// Render the prompt into `out`.  Returns the number of bytes written.
    pub fn format_prompt(&self, out: &mut [u8; MAX_PROMPT]) -> (r: usize)
        ensures
            filled(old(out)@, final(out)@, r as int, prompt_of(self@.env, self@.cwd)),
    {
        format_prompt(&self.vars, self.cwd.as_slice(), out)
    }

    /// Expand variables in `input`, storing the result in `out`.  Returns the
    /// number of bytes written.
    pub fn expand_vars(&self, input: &[u8], out: &mut [u8]) -> (r: usize)
        ensures
            filled(
                old(out)@,
                final(out)@,
                r as int,
                expansion(self@.env, self@.status, input@),
            ),
    {
        crate::expand::expand_vars(&self.vars, self.last_status, input, out)
    }

    /// The expansion of `value`, cut to the length of a variable's value.
    fn expanded_value(&self, value: &[u8]) -> (r: Vec<u8>)
        ensures
            r@ == cut(expansion(self@.env, self@.status, value@), MAX_VAR_VAL as int),
    {
        let mut buf: [u8; MAX_VAR_VAL] = [0u8; MAX_VAR_VAL];
        let ghost buf0 = buf@;
        let n: usize = self.expand_vars(value, &mut buf);
        proof {
            lemma_filled_cut(buf0, buf@, n as int, expansion(self@.env, self@.status, value@));
        }
        copy(&buf[0..n])
    }
}

/// Write `n` in decimal.
fn write_i64(out: &mut StdoutWriter, n: i64)
    requires
        old(out).wf(),
    ensures
        final(out).wf(),
        final(out)@ == wrote(old(out)@, signed_decimal(n as int)),
{
    let mut buf: [u8; 21] = [0u8; 21];
    write_bytes(out, fmt_i64(n, &mut buf));
}

/// Write `before`, `b` as text, and `after`.
fn write_about(out: &mut StdoutWriter, before: &str, b: &[u8], after: &str)
    requires
        old(out).wf(),
    ensures
        final(out).wf(),
        final(out)@ == wrote(
            old(out)@,
            text(before@) + shown(b@) + text(after@),
        ),
{
    write_str(out, before);
    write_str(out, as_str(b));
    write_str(out, after);
    proof {
        lemma_writes_3(old(out)@, text(before@), shown(b@), text(after@));
    }
}

/// Write the byte `b`, `n` times.
fn write_repeated(out: &mut StdoutWriter, b: u8, n: usize)
    requires
        old(out).wf(),
    ensures
        final(out).wf(),
        final(out)@ == wrote(old(out)@, repeated(b, n as nat)),
{
    let ghost w0 = out@;
    let mut i: usize = 0;
    proof {
        law_write_nothing(w0);
        assert(repeated(b, 0) =~= Seq::<u8>::empty());
    }
    while i < n
        invariant
            i <= n,
            out.wf(),
            w0.captured.len() <= PIPE_BUF_SIZE,
            out@ == wrote(w0, repeated(b, i as nat)),
        decreases n - i,
    {
        write_byte(out, b);
        proof {
            law_writes_join(w0, repeated(b, i as nat), seq![b]);
        }
        assert(repeated(b, i as nat) + seq![b] =~= repeated(b, (i + 1) as nat));
        i += 1;
    }
}

/// `path` with a NUL at its end.
fn terminate(path: &[u8]) -> (r: Vec<u8>)
    ensures
        r@ == terminated(path@),
{
    let mut r: Vec<u8> = copy(path);
    r.push(NUL);
    r
}

// Commands that finish at once -------------------------------------------------

impl Shell {
    /// End a command with `status`.
    fn finish(&mut self, status: i64) -> (r: Option<Request>)
        requires
            old(self).wf(),
        ensures
            final(self).wf(),
            final(self)@ == finished(old(self)@, status, Seq::empty()).state,
            r is None,
    {
        self.last_status = status;
        self.task = Task::Line;
        None
    }

    /// `echo [-n] [args...]`: print the arguments.
    pub fn cmd_echo(&mut self, args: &[Vec<u8>], out: &mut StdoutWriter) -> (r: Option<Request>)
        requires
            old(self).wf(),
            old(out).wf(),
        ensures
            realised(
                finished(old(self)@, 0, echoed(views(args@))),
                *final(self),
                old(out)@,
                *final(out),
                r,
            ),
    {
        let ghost w0 = out@;
        let ghost all = views(args@);
        let quiet: bool = args.len() > 0 && same(args[0].as_slice(), "-n".as_bytes());
        let start: usize = if quiet {
            1
        } else {
            0
        };
        let ghost ws = all.skip(start as int);
        let mut i: usize = start;
        let ghost mut done = Seq::<u8>::empty();
        proof {
            law_write_nothing(w0);
            assert(all.len() > 0 ==> all[0] == args@[0]@);
            assert(all.skip(0) =~= all);
            assert(done + spaced(ws) =~= spaced(ws));
            assert(ws.skip(0) =~= ws);
        }
        while i < args.len()
            invariant
                start <= i <= args@.len(),
                start <= 1,
                all == views(args@),
                ws == all.skip(start as int),
                out.wf(),
                w0.captured.len() <= PIPE_BUF_SIZE,
                out@ == wrote(w0, done),
                spaced(ws) == done + (if i == start {
                    spaced(ws)
                } else if i < args@.len() {
                    seq![SPACE] + spaced(ws.skip(i - start))
                } else {
                    Seq::empty()
                }),
                i == start ==> done.len() == 0,
            decreases args@.len() - i,
        {
            let ghost k = i - start;
            let ghost rest = ws.skip(k);
            proof {
                assert(rest[0] == args@[i as int]@);
                assert(rest.skip(1) =~= ws.skip(k + 1));
                assert(ws.skip(0) =~= ws);
                assert(rest.len() == args@.len() - i);
            }
            if i > start {
                write_byte(out, SPACE);
                proof {
                    law_writes_join(w0, done, seq![SPACE]);
                    assert(done + (seq![SPACE] + spaced(rest)) =~= (done + seq![SPACE]) + spaced(
                        rest,
                    ));
                    done = done + seq![SPACE];
                }
            } else {
                assert(done =~= Seq::<u8>::empty());
            }
            assert(spaced(ws) =~= done + spaced(rest));
            write_bytes(out, args[i].as_slice());
            proof {
                law_writes_join(w0, done, rest[0]);
                if i + 1 < args@.len() {
                    assert(spaced(rest) =~= rest[0] + (seq![SPACE] + spaced(ws.skip(k + 1))));
                    assert(done + (rest[0] + (seq![SPACE] + spaced(ws.skip(k + 1)))) =~= (done
                        + rest[0]) + (seq![SPACE] + spaced(ws.skip(k + 1))));
                } else {
                    assert(spaced(rest) =~= rest[0]);
                    assert(done + rest[0] =~= (done + rest[0]) + Seq::<u8>::empty());
                }
                done = done + rest[0];
            }
            i += 1;
        }
        assert(spaced(ws) =~= done) by {
            if args@.len() == start {
                assert(ws.len() == 0);
            }
        }
        if !quiet {
            write_byte(out, NEWLINE);
            proof {
                law_writes_join(w0, spaced(ws), seq![NEWLINE]);
            }
            assert(spaced(ws) + seq![NEWLINE] =~= spaced(ws).push(NEWLINE));
        }
        self.finish(0)
    }

    /// `exit [code]`: exit the shell.
    pub fn cmd_exit(&mut self, args: &[Vec<u8>], out: &mut StdoutWriter) -> (r: Option<Request>)
        requires
            old(self).wf(),
            old(out).wf(),
        ensures
            realised(
                exiting(old(self)@, views(args@)),
                *final(self),
                old(out)@,
                *final(out),
                r,
            ),
    {
        proof {
            law_write_nothing(out@);
        }
        let mut code: i64 = self.last_status;
        if args.len() > 0 {
            assert(views(args@)[0] == args@[0]@);
            if let Some(n) = parse_i64(args[0].as_slice()) {
                code = n;
            }
        }
        self.task = Task::Halted;
        Some(Action::Exit(code))
    }

    /// `clear`: clear the screen, by the ANSI sequence and, for terminals that
    /// do not know that, by newlines.
    pub fn cmd_clear(&mut self, out: &mut StdoutWriter) -> (r: Option<Request>)
        requires
            old(self).wf(),
            old(out).wf(),
        ensures
            realised(
                finished(old(self)@, 0, cleared()),
                *final(self),
                old(out)@,
                *final(out),
                r,
            ),
    {
        write_str(out, "\x1b[2J\x1b[H");
        write_repeated(out, NEWLINE, SCREEN_LINES);
        proof {
            law_writes_join(
                old(out)@,
                text("\x1b[2J\x1b[H"@),
                repeated(NEWLINE, SCREEN_LINES as nat),
            );
        }
        self.finish(0)
    }

    /// `help`: show a reference.
    pub fn cmd_help(&mut self, out: &mut StdoutWriter) -> (r: Option<Request>)
        requires
            old(self).wf(),
            old(out).wf(),
        ensures
            realised(
                finished(old(self)@, 0, helped()),
                *final(self),
                old(out)@,
                *final(out),
                r,
            ),
    {
        write_str(out, "rsh ");
        write_str(out, VERSION);
        write_str(out, " — RustOS Shell\n");
        write_str(out, HELP);
        proof {
            lemma_writes_4(
                old(out)@,
                text("rsh "@),
                text(VERSION@),
                text(" — RustOS Shell\n"@),
                text(HELP@),
            );
        }
        self.finish(0)
    }

    /// `history`: show the command history.
    pub fn cmd_history(&mut self, out: &mut StdoutWriter) -> (r: Option<Request>)
        requires
            old(self).wf(),
            old(out).wf(),
        ensures
            realised(
                finished(
                    old(self)@,
                    0,
                    history_lines(
                        old(self)@.editor.history.entries,
                        old(self)@.editor.history.entries.len(),
                    ),
                ),
                *final(self),
                old(out)@,
                *final(out),
                r,
            ),
    {
        let ghost w0 = out@;
        let ghost entries = self@.editor.history.entries;
        let n: usize = self.editor.history().len();
        let mut i: usize = 0;
        proof {
            law_write_nothing(w0);
        }
        while i < n
            invariant
                i <= n,
                n == entries.len(),
                self == old(self),
                self.wf(),
                entries == self@.editor.history.entries,
                out.wf(),
                w0.captured.len() <= PIPE_BUF_SIZE,
                out@ == wrote(w0, history_lines(entries, i as nat)),
            decreases n - i,
        {
            let ghost sofar = history_lines(entries, i as nat);
            let mut buf: [u8; 20] = [0u8; 20];
            let number: &[u8] = fmt_u64((i + 1) as u64, &mut buf);
            let pad: usize = if number.len() < 4 {
                4 - number.len()
            } else {
                0
            };
            write_repeated(out, SPACE, pad);
            write_bytes(out, number);
            write_str(out, "  ");
            if let Some(entry) = self.editor.history().get(n - i) {
                write_bytes(out, entry);
            }
            write_byte(out, NEWLINE);
            i += 1;
            proof {
                let line = (padded(i as nat) + text("  "@) + entries[i - 1]).push(NEWLINE);
                let spaces = repeated(SPACE, pad as nat);
                lemma_writes_4(w0, sofar, spaces, decimal(i as nat), text("  "@));
                lemma_writes_3(
                    w0,
                    sofar + spaces + decimal(i as nat) + text("  "@),
                    entries[i - 1],
                    seq![NEWLINE],
                );
                assert(sofar + spaces + decimal(i as nat) + text("  "@) + entries[i - 1] + seq![
                    NEWLINE,
                ] =~= sofar + line);
            }
        }
        self.finish(0)
    }

    /// `pwd`: print the working directory.
    pub fn cmd_pwd(&mut self, out: &mut StdoutWriter) -> (r: Option<Request>)
        requires
            old(self).wf(),
            old(out).wf(),
        ensures
            realised(
                finished(old(self)@, 0, old(self)@.cwd.push(NEWLINE)),
                *final(self),
                old(out)@,
                *final(out),
                r,
            ),
    {
        write_bytes(out, self.cwd.as_slice());
        write_byte(out, NEWLINE);
        proof {
            law_writes_join(old(out)@, self.cwd@, seq![NEWLINE]);
        }
        assert(self.cwd@ + seq![NEWLINE] =~= self.cwd@.push(NEWLINE));
        self.finish(0)
    }

    /// `env`: print all shell variables.
    pub fn cmd_env(&mut self, out: &mut StdoutWriter) -> (r: Option<Request>)
        requires
            old(self).wf(),
            old(out).wf(),
        ensures
            realised(
                finished(old(self)@, 0, env_lines(old(self)@.env)),
                *final(self),
                old(out)@,
                *final(out),
                r,
            ),
    {
        let ghost w0 = out@;
        let ghost env = self.vars@;
        let n: usize = self.vars.len();
        let mut i: usize = 0;
        proof {
            law_write_nothing(w0);
            assert(env.take(0) =~= Seq::<Binding>::empty());
        }
        while i < n
            invariant
                i <= n,
                n == env.len(),
                self == old(self),
                env == self.vars@,
                out.wf(),
                w0.captured.len() <= PIPE_BUF_SIZE,
                out@ == wrote(w0, env_lines(env.take(i as int))),
            decreases n - i,
        {
            let ghost sofar = env_lines(env.take(i as int));
            write_bytes(out, self.vars.name_at(i));
            write_byte(out, EQUALS);
            write_bytes(out, self.vars.value_at(i));
            write_byte(out, NEWLINE);
            i += 1;
            proof {
                let b = env[i - 1];
                lemma_writes_4(w0, sofar, b.name, seq![EQUALS], b.value);
                law_writes_join(w0, sofar + b.name + seq![EQUALS] + b.value, seq![NEWLINE]);
                assert(env.take(i as int).drop_last() =~= env.take(i - 1));
                assert(sofar + b.name + seq![EQUALS] + b.value + seq![NEWLINE] =~= sofar + (
                b.name.push(EQUALS) + b.value).push(NEWLINE));
            }
        }
        assert(env.take(i as int) =~= env);
        self.finish(0)
    }

    /// `export NAME=VALUE`: set a variable.
    pub fn cmd_export(&mut self, args: &[Vec<u8>], out: &mut StdoutWriter) -> (r: Option<Request>)
        requires
            old(self).wf(),
            old(out).wf(),
        ensures
            realised(
                export(old(self)@, unquoted(views(args@))),
                *final(self),
                old(out)@,
                *final(out),
                r,
            ),
    {
        let marks: Vec<Vec<Mark>> = mark_words(args);
        self.export_marked(marks.as_slice(), out)
    }

    /// `export` with arguments of which some bytes may be literal.
    fn export_marked(&mut self, args: &[Vec<Mark>], out: &mut StdoutWriter) -> (r: Option<Request>)
        requires
            old(self).wf(),
            old(out).wf(),
        ensures
            realised(
                export(old(self)@, views(args@)),
                *final(self),
                old(out)@,
                *final(out),
                r,
            ),
    {
        let ghost s0 = self@;
        let ghost all = views(args@);
        let mut i: usize = 0;
        proof {
            law_write_nothing(out@);
        }
        while i < args.len()
            invariant
                i <= args@.len(),
                all == views(args@),
                self.wf(),
                self@ == (ShellState {
                    env: all_exported(s0.env, s0.status, all.take(i as int)),
                    ..s0
                }),
            decreases args@.len() - i,
        {
            assert(all[i as int] == args@[i as int]@);
            assert(all.take(i + 1).drop_last() =~= all.take(i as int));
            self.export_one(args[i].as_slice());
            i += 1;
        }
        assert(all.take(i as int) =~= all);
        self.finish(0)
    }

    /// Export the variable that `arg` names.
    fn export_one(&mut self, arg: &[Mark])
        requires
            old(self).wf(),
        ensures
            final(self).wf(),
            final(self)@ == (ShellState {
                env: exported(old(self)@.env, old(self)@.status, arg@),
                ..old(self)@
            }),
    {
        let bytes: Vec<u8> = unmark(arg);
        let eq: usize = find_byte(bytes.as_slice(), 0, EQUALS);
        assert(bytes@.skip(0) =~= bytes@);
        if eq < arg.len() {
            let name: &[u8] = &bytes.as_slice()[0..eq];
            let raw: &[Mark] = &arg[eq + 1..arg.len()];
            let value: Vec<u8> = expand_value(&self.vars, self.last_status, raw, MAX_VAR_VAL);
            proof {
                assert(name@ =~= bytes@.take(eq as int));
                assert(raw@ =~= arg@.skip(eq + 1));
                lemma_assign_cut(
                    self@.env,
                    name@,
                    substitution(self@.env, self@.status, raw@),
                );
            }
            self.set_var(name, value.as_slice());
        } else if self.get_var(bytes.as_slice()).is_none() {
            let none: [u8; 0] = [];
            assert(none@ =~= Seq::<u8>::empty());
            self.set_var(bytes.as_slice(), &none);
        }
    }

    /// `unset NAME`: remove a variable.
    pub fn cmd_unset(&mut self, args: &[Vec<u8>], out: &mut StdoutWriter) -> (r: Option<Request>)
        requires
            old(self).wf(),
            old(out).wf(),
        ensures
            realised(
                finished(
                    (ShellState { env: all_unset(old(self)@.env, views(args@)), ..old(self)@ }),
                    0,
                    Seq::empty(),
                ),
                *final(self),
                old(out)@,
                *final(out),
                r,
            ),
    {
        let ghost s0 = self@;
        let ghost all = views(args@);
        let mut i: usize = 0;
        proof {
            law_write_nothing(out@);
        }
        while i < args.len()
            invariant
                i <= args@.len(),
                all == views(args@),
                self.wf(),
                self@ == (ShellState { env: all_unset(s0.env, all.take(i as int)), ..s0 }),
            decreases args@.len() - i,
        {
            assert(all.take(i + 1).drop_last() =~= all.take(i as int));
            assert(all[i as int] == args@[i as int]@);
            self.unset_var(args[i].as_slice());
            i += 1;
        }
        assert(all.take(i as int) =~= all);
        self.finish(0)
    }

    /// `uname`: show OS information.
    pub fn cmd_uname(&mut self, out: &mut StdoutWriter) -> (r: Option<Request>)
        requires
            old(self).wf(),
            old(out).wf(),
        ensures
            realised(
                finished(old(self)@, 0, named_system()),
                *final(self),
                old(out)@,
                *final(out),
                r,
            ),
    {
        write_str(out, "RustOS  rsh ");
        write_str(out, VERSION);
        write_str(out, "  x86_64\n");
        proof {
            lemma_writes_3(
                old(out)@,
                text("RustOS  rsh "@),
                text(VERSION@),
                text("  x86_64\n"@),
            );
        }
        self.finish(0)
    }

    /// `source`: not available.
    pub fn cmd_source(&mut self, out: &mut StdoutWriter) -> (r: Option<Request>)
        requires
            old(self).wf(),
            old(out).wf(),
        ensures
            realised(
                finished(old(self)@, 1, text("source: not yet implemented\n"@)),
                *final(self),
                old(out)@,
                *final(out),
                r,
            ),
    {
        write_str(out, "source: not yet implemented\n");
        self.finish(1)
    }
}

/// Setting a variable to a value that was cut before is no different.
proof fn lemma_assign_cut(env: Seq<Binding>, name: Seq<u8>, value: Seq<u8>)
    ensures
        assigned(env, name, cut(value, MAX_VAR_VAL as int)) == assigned(env, name, value),
{
}

// Commands that ask for something ----------------------------------------------

impl Shell {
    /// `rel` as seen from the working directory, cut to the length of one.
    fn resolve(&self, rel: &[u8]) -> (r: Vec<u8>)
        ensures
            r@ == cut(resolved(self@.cwd, rel@), MAX_CWD as int),
            directory_ok(r@),
    {
        let mut buf: [u8; MAX_CWD] = [0u8; MAX_CWD];
        let ghost buf0 = buf@;
        let n: usize = resolve_path(self.cwd.as_slice(), rel, &mut buf);
        proof {
            lemma_filled_cut(buf0, buf@, n as int, resolved(self@.cwd, rel@));
        }
        copy(&buf[0..n])
    }

    /// Whether `rel` as seen from the working directory fits.
    fn fits(&self, rel: &[u8]) -> (r: bool)
        ensures
            r == path_fits(self@.cwd, rel@),
    {
        let mut buf: [u8; 257] = [0u8; 257];
        let n: usize = resolve_path(self.cwd.as_slice(), rel, &mut buf);
        n <= MAX_CWD
    }

    /// `cd [path]`: change the working directory.
    pub fn cmd_cd(&mut self, args: &[Vec<u8>], out: &mut StdoutWriter) -> (r: Option<Request>)
        requires
            old(self).wf(),
            old(out).wf(),
        ensures
            realised(cd(old(self)@, views(args@)), *final(self), old(out)@, *final(out), r),
    {
        proof {
            law_write_nothing(out@);
        }
        let target: Vec<u8> = if args.len() > 0 {
            assert(views(args@)[0] == args@[0]@);
            copy(args[0].as_slice())
        } else {
            match self.vars.get("HOME".as_bytes()) {
                Some(home) => copy(home),
                None => copy("/".as_bytes()),
            }
        };
        let path: Vec<u8> = self.resolve(target.as_slice());
        let request: Vec<u8> = copy(path.as_slice());
        self.task = Task::Cd { target, path };
        Some(Action::Chdir(request))
    }

    /// `cd` once the kernel has answered.
    fn cd_done(
        &mut self,
        target: Vec<u8>,
        path: Vec<u8>,
        answer: i64,
        out: &mut StdoutWriter,
    ) -> (r: Option<Request>)
        requires
            old(self).wf(),
            old(out).wf(),
            directory_ok(path@),
            old(self)@.task is Line,
        ensures
            realised(
                cd_done(old(self)@, target@, path@, answer),
                *final(self),
                old(out)@,
                *final(out),
                r,
            ),
    {
        proof {
            law_write_nothing(out@);
        }
        if answer >= 0 || answer == -ENOSYS {
            self.cwd = path;
            self.finish(0)
        } else {
            write_about(out, "cd: ", target.as_slice(), ": no such directory\n");
            self.finish(1)
        }
    }

    /// `ls [path]`: list a directory.
    pub fn cmd_ls(&mut self, args: &[Vec<u8>], out: &mut StdoutWriter) -> (r: Option<Request>)
        requires
            old(self).wf(),
            old(out).wf(),
        ensures
            realised(ls(old(self)@, views(args@)), *final(self), old(out)@, *final(out), r),
    {
        proof {
            law_write_nothing(out@);
        }
        let path: Vec<u8> = if args.len() > 0 {
            assert(views(args@)[0] == args@[0]@);
            self.resolve(args[0].as_slice())
        } else {
            self.resolve(".".as_bytes())
        };
        let request: Vec<u8> = terminate(path.as_slice());
        self.task = Task::LsOpen { path };
        Some(Action::Open(request))
    }

    /// `ls` once the directory has been opened.
    fn ls_opened(&mut self, path: Vec<u8>, fd: i64, out: &mut StdoutWriter) -> (r: Option<Request>)
        requires
            old(self).wf(),
            old(out).wf(),
        ensures
            realised(
                ls_opened(old(self)@, path@, fd),
                *final(self),
                old(out)@,
                *final(out),
                r,
            ),
    {
        proof {
            law_write_nothing(out@);
        }
        if fd < 0 {
            write_about(out, "ls: cannot open '", path.as_slice(), "'\n");
            self.finish(1)
        } else {
            self.task = Task::LsRead { fd };
            Some(Action::ReadDir(fd))
        }
    }

    /// `ls` once the records have been read.
    fn ls_read(
        &mut self,
        fd: i64,
        n: i64,
        buf: Vec<u8>,
        out: &mut StdoutWriter,
    ) -> (r: Option<Request>)
        requires
            old(self).wf(),
            old(out).wf(),
            n > 0 ==> listable(buf@, n as int, 0),
        ensures
            realised(ls_read(old(self)@, fd, n, buf@), *final(self), old(out)@, *final(out), r),
    {
        proof {
            law_write_nothing(out@);
        }
        self.task = Task::LsClose { n, buf };
        Some(Action::Close(fd))
    }

    /// `ls` once the directory has been closed again.
    fn ls_closed(&mut self, n: i64, buf: Vec<u8>, out: &mut StdoutWriter) -> (r: Option<Request>)
        requires
            old(self).wf(),
            old(out).wf(),
            n > 0 ==> listable(buf@, n as int, 0),
        ensures
            realised(
                ls_closed(old(self)@, n, buf@),
                *final(self),
                old(out)@,
                *final(out),
                r,
            ),
    {
        if n < 0 {
            write_str(out, "ls: not supported by this kernel (SYS_GETDENTS64 stub)\n");
            self.finish(1)
        } else {
            write_listing(buf.as_slice(), n, out);
            self.finish(0)
        }
    }

    /// `cat` from its argument number `pos` on.
    fn cat_from(
        &mut self,
        args: Vec<Vec<u8>>,
        pos: usize,
        failed: bool,
        out: &mut StdoutWriter,
    ) -> (r: Option<Request>)
        requires
            old(self).wf(),
            old(out).wf(),
            files_fit(old(self)@.cwd, views(args@)),
        ensures
            realised(
                cat_from(old(self)@, views(args@), pos as int, failed),
                *final(self),
                old(out)@,
                *final(out),
                r,
            ),
    {
        proof {
            law_write_nothing(out@);
        }
        if pos >= args.len() {
            self.finish(
                if failed {
                    1
                } else {
                    0
                },
            )
        } else {
            assert(path_fits(self@.cwd, views(args@)[pos as int]));
            let path: Vec<u8> = self.resolve(args[pos].as_slice());
            self.task = Task::CatOpen { args, pos, failed };
            Some(Action::Open(terminate(path.as_slice())))
        }
    }

    /// `cat <file>`: print the contents of files.
    pub fn cmd_cat(&mut self, args: Vec<Vec<u8>>, out: &mut StdoutWriter) -> (r: Option<Request>)
        requires
            old(self).wf(),
            old(out).wf(),
            files_fit(old(self)@.cwd, views(args@)),
        ensures
            realised(cat(old(self)@, views(args@)), *final(self), old(out)@, *final(out), r),
    {
        if args.len() == 0 {
            write_str(out, "cat: usage: cat <file>\n");
            self.finish(1)
        } else {
            self.cat_from(args, 0, false, out)
        }
    }

    /// `cat` once a file has been opened.
    fn cat_opened(
        &mut self,
        args: Vec<Vec<u8>>,
        pos: usize,
        failed: bool,
        fd: i64,
        out: &mut StdoutWriter,
    ) -> (r: Option<Request>)
        requires
            old(self).wf(),
            old(out).wf(),
            files_fit(old(self)@.cwd, views(args@)),
            pos < args@.len(),
        ensures
            realised(
                cat_opened(old(self)@, views(args@), pos, failed, fd),
                *final(self),
                old(out)@,
                *final(out),
                r,
            ),
    {
        proof {
            law_write_nothing(out@);
        }
        if fd < 0 {
            let ghost w0 = out@;
            let ghost message = text("cat: "@) + shown(views(args@)[pos as int]) + text(
                ": cannot open\n"@,
            );
            let ghost rest = cat_from(self@, views(args@), pos + 1, true);
            write_about(out, "cat: ", args[pos].as_slice(), ": cannot open\n");
            assert(pos < args.len());
            let r: Option<Request> = self.cat_from(args, pos + 1, true, out);
            proof {
                law_writes_join(w0, message, rest.out);
            }
            r
        } else {
            self.task = Task::CatRead { args, pos, failed, fd };
            Some(Action::ReadFile(fd))
        }
    }

    /// `cat` once data has been read.
    fn cat_read(
        &mut self,
        args: Vec<Vec<u8>>,
        pos: usize,
        failed: bool,
        fd: i64,
        n: i64,
        buf: Vec<u8>,
        out: &mut StdoutWriter,
    ) -> (r: Option<Request>)
        requires
            old(self).wf(),
            old(out).wf(),
            files_fit(old(self)@.cwd, views(args@)),
            pos < args@.len(),
            n <= buf@.len(),
        ensures
            realised(
                cat_read(old(self)@, views(args@), pos, failed, fd, n, buf@),
                *final(self),
                old(out)@,
                *final(out),
                r,
            ),
    {
        proof {
            law_write_nothing(out@);
        }
        if n <= 0 {
            self.task = Task::CatClose { args, pos, failed };
            Some(Action::Close(fd))
        } else {
            let room: usize = buf.len();
            assert(n <= room);
            let k: usize = n as usize;
            write_bytes(out, &buf.as_slice()[0..k]);
            assert(buf@.subrange(0, n as int) =~= buf@.take(n as int));
            assert(buf@.take(n as int) + Seq::<u8>::empty() =~= buf@.take(n as int));
            self.task = Task::CatRead { args, pos, failed, fd };
            Some(Action::ReadFile(fd))
        }
    }

    /// `exec <path>`: execute a binary.
    pub fn cmd_exec(&mut self, args: &[Vec<u8>], out: &mut StdoutWriter) -> (r: Option<Request>)
        requires
            old(self).wf(),
            old(out).wf(),
            args@.len() > 0 ==> args@[0]@.len() > 0 && (args@[0]@[0] == SLASH || path_fits(
                old(self)@.cwd,
                args@[0]@,
            )),
        ensures
            realised(exec(old(self)@, views(args@)), *final(self), old(out)@, *final(out), r),
    {
        if args.len() == 0 {
            write_str(out, "exec: usage: exec <path>\n");
            return self.finish(1);
        }
        proof {
            law_write_nothing(out@);
            assert(views(args@)[0] == args@[0]@);
        }
        let arg: &[u8] = args[0].as_slice();
        let path: Vec<u8> = if arg[0] == SLASH {
            cut_copy(arg, MAX_CWD)
        } else {
            self.resolve(arg)
        };
        self.task = Task::Exec { arg: copy(arg) };
        Some(Action::Exec(terminate(path.as_slice())))
    }

    /// `exec` once the binary has ended or failed to start.
    fn exec_done(&mut self, arg: Vec<u8>, code: i64, out: &mut StdoutWriter) -> (r: Option<Request>)
        requires
            old(self).wf(),
            old(out).wf(),
        ensures
            realised(
                exec_done(old(self)@, arg@, code),
                *final(self),
                old(out)@,
                *final(out),
                r,
            ),
    {
        let ghost w0 = out@;
        proof {
            law_write_nothing(out@);
        }
        if code < 0 {
            write_about(out, "exec: ", arg.as_slice(), ": failed (error ");
            write_i64(out, code);
            write_str(out, ")\n");
            proof {
                lemma_writes_3(
                    w0,
                    text("exec: "@) + shown(arg@) + text(": failed (error "@),
                    signed_decimal(code as int),
                    text(")\n"@),
                );
            }
            self.finish(NOT_RUN)
        } else {
            self.finish(code)
        }
    }
}

// The search path --------------------------------------------------------------

impl Shell {
    /// The paths at which `$PATH` has `cmd` looked for, in order.  One that is
    /// too long is left out.
    pub fn find_in_path(&self, cmd: &[u8]) -> (r: Vec<Vec<u8>>)
        ensures
            views(r@) == search_list(self@.env, cmd@),
    {
        let mut list: Vec<Vec<u8>> = Vec::new();
        assert(views(list@) =~= Seq::<Seq<u8>>::empty());
        let path: &[u8] = match self.vars.get("PATH".as_bytes()) {
            Some(p) => p,
            None => {
                return list;
            },
        };
        let ghost parts = colon_parts(path@);
        let mut split = split_colon(path);
        let ghost mut i: int = 0;
        let mut more: bool = true;
        assert(parts.skip(0) =~= parts);
        assert(parts.take(0) =~= Seq::<Seq<u8>>::empty());
        while more
            invariant
                split.wf(),
                0 <= i <= parts.len(),
                split@ == parts.skip(i),
                views(list@) == candidates(parts.take(i), cmd@),
                !more ==> i == parts.len(),
            decreases parts.len() - i, if more { 1int } else { 0int },
        {
            match split.next() {
                Some(dir) => {
                    let mut buf: [u8; 257] = [0u8; 257];
                    let ghost buf0 = buf@;
                    let n: usize = join_path(dir, cmd, &mut buf);
                    let ghost full = join(dir@, cmd@);
                    proof {
                        lemma_filled_cut(buf0, buf@, n as int, full);
                        assert(dir@ == parts[i]);
                        assert(parts.take(i + 1).drop_last() =~= parts.take(i));
                        assert(parts.skip(i).skip(1) =~= parts.skip(i + 1));
                    }
                    if n <= MAX_CWD {
                        let ghost before = views(list@);
                        list.push(copy(&buf[0..n]));
                        assert(views(list@) =~= before.push(full));
                    }
                    proof {
                        i = i + 1;
                    }
                },
                None => {
                    more = false;
                },
            }
        }
        assert(parts.take(i) =~= parts);
        list
    }

    /// Go on with `list[pos]`.
    fn search(
        &mut self,
        list: Vec<Vec<u8>>,
        pos: usize,
        goal: Goal<Vec<u8>, Vec<Vec<u8>>>,
        out: &mut StdoutWriter,
    ) -> (r: Option<Request>)
        requires
            old(self).wf(),
            old(out).wf(),
            goal_ok(goal@),
        ensures
            realised(
                search(old(self)@, views(list@), pos as int, goal@),
                *final(self),
                old(out)@,
                *final(out),
                r,
            ),
    {
        if pos < list.len() {
            proof {
                law_write_nothing(out@);
            }
            let request: Vec<u8> = terminate(list[pos].as_slice());
            self.task = Task::SearchOpen { list, pos, goal };
            Some(Action::Open(request))
        } else {
            self.search_failed(goal, out)
        }
    }

    /// The search has come to its end without success.
    fn search_failed(
        &mut self,
        goal: Goal<Vec<u8>, Vec<Vec<u8>>>,
        out: &mut StdoutWriter,
    ) -> (r: Option<Request>)
        requires
            old(self).wf(),
            old(out).wf(),
            goal_ok(goal@),
        ensures
            realised(
                search_failed(old(self)@, goal@),
                *final(self),
                old(out)@,
                *final(out),
                r,
            ),
    {
        let ghost w0 = out@;
        match goal {
            Goal::Type { args, pos, .. } => {
                let ghost rest = type_from(self@, views(args@), pos + 1, true);
                write_str(out, as_str(args[pos].as_slice()));
                write_str(out, ": not found\n");
                assert(pos < args.len());
                let r: Option<Request> = self.type_from(args, pos + 1, true, out);
                proof {
                    lemma_writes_3(
                        w0,
                        shown(views(args@)[pos as int]),
                        text(": not found\n"@),
                        rest.out,
                    );
                }
                r
            },
            Goal::Run { cmd } => {
                write_str(out, as_str(cmd.as_slice()));
                write_str(out, ": command not found\n");
                proof {
                    law_writes_join(w0, shown(cmd@), text(": command not found\n"@));
                }
                self.finish(NOT_RUN)
            },
        }
    }

    /// The search has found `found`, and that has been closed again.
    fn search_found(
        &mut self,
        found: Vec<u8>,
        goal: Goal<Vec<u8>, Vec<Vec<u8>>>,
        out: &mut StdoutWriter,
    ) -> (r: Option<Request>)
        requires
            old(self).wf(),
            old(out).wf(),
            goal_ok(goal@),
        ensures
            realised(
                search_found(old(self)@, found@, goal@),
                *final(self),
                old(out)@,
                *final(out),
                r,
            ),
    {
        let ghost w0 = out@;
        proof {
            law_write_nothing(w0);
        }
        match goal {
            Goal::Type { args, pos, missing } => {
                let ghost name = shown(views(args@)[pos as int]);
                let ghost rest = type_from(self@, views(args@), pos + 1, missing);
                write_str(out, as_str(args[pos].as_slice()));
                write_about(out, " is ", found.as_slice(), "\n");
                assert(pos < args.len());
                let r: Option<Request> = self.type_from(args, pos + 1, missing, out);
                proof {
                    let about = text(" is "@) + shown(found@) + text("\n"@);
                    lemma_writes_3(w0, name, about, rest.out);
                    assert(name + about =~= name + text(" is "@) + shown(found@) + text("\n"@));
                }
                r
            },
            Goal::Run { cmd } => {
                self.task = Task::Run { cmd };
                Some(Action::Exec(terminate(found.as_slice())))
            },
        }
    }

    /// The search once `list[pos]` has been opened.
    fn search_opened(
        &mut self,
        list: Vec<Vec<u8>>,
        pos: usize,
        goal: Goal<Vec<u8>, Vec<Vec<u8>>>,
        fd: i64,
        out: &mut StdoutWriter,
    ) -> (r: Option<Request>)
        requires
            old(self).wf(),
            old(out).wf(),
            pos < list@.len(),
            goal_ok(goal@),
        ensures
            realised(
                search_opened(old(self)@, views(list@), pos, goal@, fd),
                *final(self),
                old(out)@,
                *final(out),
                r,
            ),
    {
        if fd >= 0 {
            proof {
                law_write_nothing(out@);
            }
            let found: Vec<u8> = copy(list[pos].as_slice());
            self.task = Task::SearchClose { found, goal };
            Some(Action::Close(fd))
        } else {
            assert(pos < list.len());
            self.search(list, pos + 1, goal, out)
        }
    }

    /// `type` from its argument number `first` on.
    fn type_from(
        &mut self,
        args: Vec<Vec<u8>>,
        first: usize,
        missed: bool,
        out: &mut StdoutWriter,
    ) -> (r: Option<Request>)
        requires
            old(self).wf(),
            old(out).wf(),
        ensures
            realised(
                type_from(old(self)@, views(args@), first as int, missed),
                *final(self),
                old(out)@,
                *final(out),
                r,
            ),
    {
        let ghost s0 = self@;
        let ghost w0 = out@;
        let ghost all = views(args@);
        let ghost target = type_from(s0, all, first as int, missed);
        let mut pos: usize = first;
        let mut missing: bool = missed;
        let ghost mut done = Seq::<u8>::empty();
        proof {
            law_write_nothing(w0);
            assert(done + target.out =~= target.out);
        }
        while pos < args.len()
            invariant
                all == views(args@),
                self.wf(),
                self@ == s0,
                out.wf(),
                w0.captured.len() <= PIPE_BUF_SIZE,
                out@ == wrote(w0, done),
                s0 == old(self)@,
                w0 == old(out)@,
                target == type_from(s0, all, first as int, missed),
                target == after_writing(done, type_from(s0, all, pos as int, missing)),
            decreases args@.len() - pos,
        {
            let ghost rest = type_from(s0, all, pos as int, missing);
            assert(all[pos as int] == args@[pos as int]@);
            if is_builtin(args[pos].as_slice()) {
                write_str(out, as_str(args[pos].as_slice()));
                write_str(out, " is a shell built-in\n");
                proof {
                    let a = shown(all[pos as int]);
                    let b = text(" is a shell built-in\n"@);
                    let next = type_from(s0, all, pos + 1, missing);
                    lemma_writes_3(w0, done, a, b);
                    assert(done + a + b =~= done + (a + b));
                    assert(done + ((a + b) + next.out) =~= (done + (a + b)) + next.out);
                    done = done + (a + b);
                }
            } else {
                let list: Vec<Vec<u8>> = self.find_in_path(args[pos].as_slice());
                if list.len() > 0 {
                    let request: Vec<u8> = terminate(list[0].as_slice());
                    self.task = Task::SearchOpen {
                        list,
                        pos: 0,
                        goal: Goal::Type { args, pos, missing },
                    };
                    assert(done + Seq::<u8>::empty() =~= done);
                    return Some(Action::Open(request));
                }
                write_str(out, as_str(args[pos].as_slice()));
                write_str(out, ": not found\n");
                proof {
                    let a = shown(all[pos as int]);
                    let b = text(": not found\n"@);
                    let next = type_from(s0, all, pos + 1, true);
                    lemma_writes_3(w0, done, a, b);
                    assert(done + a + b =~= done + (a + b));
                    assert(done + ((a + b) + next.out) =~= (done + (a + b)) + next.out);
                    done = done + (a + b);
                }
                missing = true;
            }
            pos += 1;
        }
        assert(done + Seq::<u8>::empty() =~= done);
        let status: i64 = if args.len() > 0 {
            if missing {
                1
            } else {
                0
            }
        } else {
            self.last_status
        };
        self.finish(status)
    }

    /// `type <cmd>`: show how a command is resolved.
    pub fn cmd_type(&mut self, args: Vec<Vec<u8>>, out: &mut StdoutWriter) -> (r: Option<Request>)
        requires
            old(self).wf(),
            old(out).wf(),
        ensures
            realised(
                type_from(old(self)@, views(args@), 0, false),
                *final(self),
                old(out)@,
                *final(out),
                r,
            ),
    {
        self.type_from(args, 0, false, out)
    }

    /// An external command.
    pub fn cmd_external(&mut self, cmd: &[u8], out: &mut StdoutWriter) -> (r: Option<Request>)
        requires
            old(self).wf(),
            old(out).wf(),
        ensures
            realised(external(old(self)@, cmd@), *final(self), old(out)@, *final(out), r),
    {
        if cmd.len() > 0 && cmd[0] == SLASH {
            proof {
                law_write_nothing(out@);
            }
            let path: Vec<u8> = cut_copy(cmd, MAX_CWD);
            self.task = Task::Run { cmd: copy(cmd) };
            Some(Action::Exec(terminate(path.as_slice())))
        } else {
            let list: Vec<Vec<u8>> = self.find_in_path(cmd);
            self.search(list, 0, Goal::Run { cmd: copy(cmd) }, out)
        }
    }

    /// An external command once it has ended or failed to start.
    fn run_done(&mut self, cmd: Vec<u8>, code: i64, out: &mut StdoutWriter) -> (r: Option<Request>)
        requires
            old(self).wf(),
            old(out).wf(),
        ensures
            realised(
                run_done(old(self)@, cmd@, code),
                *final(self),
                old(out)@,
                *final(out),
                r,
            ),
    {
        let ghost w0 = out@;
        proof {
            law_write_nothing(out@);
        }
        if code < 0 {
            write_str(out, as_str(cmd.as_slice()));
            write_str(out, ": exec failed (");
            write_i64(out, code);
            write_str(out, ")\n");
            proof {
                lemma_writes_4(
                    w0,
                    shown(cmd@),
                    text(": exec failed ("@),
                    signed_decimal(code as int),
                    text(")\n"@),
                );
            }
            self.finish(NOT_RUN)
        } else {
            self.finish(code)
        }
    }
}

// Command lines ----------------------------------------------------------------

impl Shell {
    /// The command and its arguments on the trimmed line `l`, with their marks.
    fn command_line(&self, l: &[u8]) -> (r: Vec<Vec<Mark>>)
        ensures
            views(r@) == command_marks(self@, l@),
            forall|k: int| 0 <= k < r@.len() ==> (#[trigger] r@[k])@.len() > 0,
    {
        proof {
            reveal(command_marks);
        }
        let marks: Vec<Mark> = expand_line(&self.vars, self.last_status, l, MAX_EXPANDED);
        split_words(marks.as_slice())
    }

    /// Whether the trimmed line `l` is a `NAME=value` assignment; returns the
    /// place of the `=`.
    fn assignment(l: &[u8]) -> (r: Option<usize>)
        ensures
            r is Some <==> is_assignment(l@),
            r matches Some(k) ==> k == first_index(l@, EQUALS) && 0 < k < l@.len(),
    {
        let k: usize = find_byte(l, 0, EQUALS);
        assert(l@.skip(0) =~= l@);
        if k == 0 || k == l.len() {
            return None;
        }
        let mut i: usize = 0;
        while i < k
            invariant
                i <= k < l@.len(),
                k == first_index(l@, EQUALS),
                forall|j: int| 0 <= j < i ==> is_name_byte(#[trigger] l@[j]),
            decreases k - i,
        {
            if !is_name_byte(l[i]) {
                return None;
            }
            i += 1;
        }
        Some(k)
    }

    /// Whether the trimmed line `l` is a comment or holds nothing.
    fn is_blank(l: &[u8]) -> (r: bool)
        ensures
            r == no_command(l@),
    {
        l.len() == 0 || l[0] == HASH
    }

    /// Whether every path that the command opens or executes fits.
    pub fn command_fits(&self, cmd: &[u8], args: &[Vec<u8>]) -> (r: bool)
        ensures
            r == command_fits(self@, cmd@, views(args@)),
    {
        let ghost all = views(args@);
        if same(cmd, "cat".as_bytes()) {
            let mut i: usize = 0;
            while i < args.len()
                invariant
                    i <= args@.len(),
                    all == views(args@),
                    cmd@ == text("cat"@),
                    forall|j: int| 0 <= j < i ==> path_fits(self@.cwd, #[trigger] all[j]),
                decreases args@.len() - i,
            {
                assert(all[i as int] == args@[i as int]@);
                if !self.fits(args[i].as_slice()) {
                    return false;
                }
                i += 1;
            }
        }
        if same(cmd, "exec".as_bytes()) && args.len() > 0 {
            assert(all[0] == args@[0]@);
            let arg: &[u8] = args[0].as_slice();
            if arg.len() == 0 || (arg[0] != SLASH && !self.fits(arg)) {
                return false;
            }
        }
        true
    }

    /// Whether every path on the command line `line` fits.
    pub fn line_fits(&self, line: &[u8]) -> (r: bool)
        ensures
            r == line_fits(self@, line@),
    {
        proof {
            reveal(line_fits);
        }
        let l: &[u8] = trim(line);
        if Self::is_blank(l) || Self::assignment(l).is_some() {
            return true;
        }
        let marks: Vec<Vec<Mark>> = self.command_line(l);
        if marks.len() == 0 {
            return true;
        }
        let mut words: Vec<Vec<u8>> = unmark_words(marks.as_slice());
        let ghost all = views(words@);
        let cmd: Vec<u8> = words.remove(0);
        assert(cmd@ == all[0]);
        assert(views(words@) =~= all.skip(1));
        self.command_fits(cmd.as_slice(), words.as_slice())
    }

    /// Run the command `cmd` with arguments `args`.
    pub fn dispatch(
        &mut self,
        cmd: &[u8],
        args: Vec<Vec<u8>>,
        out: &mut StdoutWriter,
    ) -> (r: Option<Request>)
        requires
            old(self).wf(),
            old(out).wf(),
            command_fits(old(self)@, cmd@, views(args@)),
        ensures
            realised(
                dispatched(old(self)@, cmd@, views(args@)),
                *final(self),
                old(out)@,
                *final(out),
                r,
            ),
    {
        proof {
            reveal(dispatched);
            law_write_nothing(out@);
        }
        if same(cmd, "echo".as_bytes()) {
            self.cmd_echo(args.as_slice(), out)
        } else if same(cmd, "exit".as_bytes()) {
            self.cmd_exit(args.as_slice(), out)
        } else if same(cmd, "clear".as_bytes()) {
            self.cmd_clear(out)
        } else if same(cmd, "help".as_bytes()) {
            self.cmd_help(out)
        } else if same(cmd, "history".as_bytes()) {
            self.cmd_history(out)
        } else if same(cmd, "pwd".as_bytes()) {
            self.cmd_pwd(out)
        } else if same(cmd, "cd".as_bytes()) {
            self.cmd_cd(args.as_slice(), out)
        } else if same(cmd, "ls".as_bytes()) {
            self.cmd_ls(args.as_slice(), out)
        } else if same(cmd, "cat".as_bytes()) {
            self.cmd_cat(args, out)
        } else if same(cmd, "env".as_bytes()) {
            self.cmd_env(out)
        } else if same(cmd, "export".as_bytes()) {
            self.cmd_export(args.as_slice(), out)
        } else if same(cmd, "unset".as_bytes()) {
            self.cmd_unset(args.as_slice(), out)
        } else if same(cmd, "exec".as_bytes()) {
            assert(args@.len() > 0 ==> views(args@)[0] == args@[0]@);
            self.cmd_exec(args.as_slice(), out)
        } else if same(cmd, "uname".as_bytes()) {
            self.cmd_uname(out)
        } else if same(cmd, "true".as_bytes()) {
            self.finish(0)
        } else if same(cmd, "false".as_bytes()) {
            self.finish(1)
        } else if same(cmd, "type".as_bytes()) {
            self.cmd_type(args, out)
        } else if same(cmd, "source".as_bytes()) {
            self.cmd_source(out)
        } else {
            self.cmd_external(cmd, out)
        }
    }

    /// Execute one command line.
    pub fn execute(&mut self, line: &[u8], out: &mut StdoutWriter) -> (r: Option<Request>)
        requires
            old(self).wf(),
            old(out).wf(),
            line_fits(old(self)@, line@),
        ensures
            realised(executed(old(self)@, line@), *final(self), old(out)@, *final(out), r),
    {
        proof {
            reveal(executed);
            reveal(line_fits);
            law_write_nothing(out@);
        }
        let l: &[u8] = trim(line);
        if Self::is_blank(l) {
            return None;
        }
        if let Some(eq) = Self::assignment(l) {
            self.assign(l, eq);
            return None;
        }
        let marks: Vec<Vec<Mark>> = self.command_line(l);
        if marks.len() == 0 {
            return None;
        }
        self.run_marked(marks, out)
    }

    /// Set the variable that the assignment `l` names, whose `=` is at `eq`.
    fn assign(&mut self, l: &[u8], eq: usize)
        requires
            old(self).wf(),
            eq < l@.len(),
        ensures
            final(self).wf(),
            final(self)@ == (ShellState {
                env: assigned(
                    old(self)@.env,
                    l@.take(eq as int),
                    expansion(old(self)@.env, old(self)@.status, l@.skip(eq + 1)),
                ),
                ..old(self)@
            }),
    {
        let name: &[u8] = &l[0..eq];
        let end: usize = l.len();
        let raw: &[u8] = &l[eq + 1..end];
        let value: Vec<u8> = self.expanded_value(raw);
        assert(name@ =~= l@.take(eq as int));
        assert(raw@ =~= l@.skip(eq + 1));
        proof {
            lemma_assign_cut(self@.env, name@, expansion(self@.env, self@.status, raw@));
        }
        self.set_var(name, value.as_slice());
    }

    /// Run the command whose name and arguments are `marks`.
    fn run_marked(&mut self, marks: Vec<Vec<Mark>>, out: &mut StdoutWriter) -> (r: Option<Request>)
        requires
            old(self).wf(),
            old(out).wf(),
            marks@.len() > 0,
            command_fits(
                old(self)@,
                words_of(views(marks@))[0],
                words_of(views(marks@)).skip(1),
            ),
        ensures
            realised(
                run_marked(old(self)@, views(marks@)),
                *final(self),
                old(out)@,
                *final(out),
                r,
            ),
    {
        let ghost ms = views(marks@);
        let ghost all = words_of(ms);
        let mut args: Vec<Vec<u8>> = unmark_words(marks.as_slice());
        let cmd: Vec<u8> = args.remove(0);
        assert(cmd@ == all[0]);
        if same(cmd.as_slice(), "export".as_bytes()) {
            let rest: &[Vec<Mark>] = &marks.as_slice()[1..marks.len()];
            assert(views(rest@) =~= ms.skip(1));
            return self.export_marked(rest, out);
        }
        assert(views(args@) =~= all.skip(1));
        self.dispatch(cmd.as_slice(), args, out)
    }
}

// The shell as a whole ---------------------------------------------------------

/// A shell whose task is taken out, put in and taken out again is the same.
proof fn lemma_task_swap(s: ShellState, task: SeqTask)
    requires
        s.task is Line,
    ensures
        (ShellState { task: Task::Line, ..(ShellState { task, ..s }) }) == s,
{
}

impl Shell {
    /// Show a new prompt and start to read a line.
    fn prompt_again(&mut self, out: &mut StdoutWriter)
        requires
            old(self).wf(),
            old(out).wf(),
        ensures
            final(self).wf(),
            final(out).wf(),
            final(self)@ == prompting(old(self)@),
            final(out)@ == wrote(old(out)@, prompting(old(self)@).prompt),
    {
        let mut buf: [u8; MAX_PROMPT] = [0u8; MAX_PROMPT];
        let ghost buf0 = buf@;
        let n: usize = self.format_prompt(&mut buf);
        proof {
            lemma_filled_cut(buf0, buf@, n as int, prompt_of(self@.env, self@.cwd));
        }
        self.prompt = copy(&buf[0..n]);
        self.task = Task::Line;
        self.editor.read_line_start(self.prompt.as_slice(), out);
        proof {
            self.editor.lemma_ok();
        }
    }

    /// Go on after a command: with what it asked for or, if it has finished,
    /// with the next line.
    fn settle(&mut self, asked_for: Option<Request>, out: &mut StdoutWriter) -> (r: Request)
        requires
            old(self).wf(),
            old(out).wf(),
        ensures
            final(self).wf(),
            final(out).wf(),
            asked_for is Some ==> *final(self) == *old(self) && final(out)@ == old(out)@ && r
                == asked_for->0,
            asked_for is None ==> final(self)@ == prompting(old(self)@) && final(out)@ == wrote(
                old(out)@,
                prompting(old(self)@).prompt,
            ) && r@ == Action::<Seq<u8>>::ReadKey,
    {
        match asked_for {
            Some(action) => action,
            None => {
                self.prompt_again(out);
                Action::ReadKey
            },
        }
    }

    /// Start the shell: show the banner and the first prompt.
    pub fn start(out: &mut StdoutWriter) -> (r: (Self, Request))
        requires
            old(out).wf(),
        ensures
            r.0.wf(),
            final(out).wf(),
            r.0@ == started().state,
            r.1@ == started().action,
            final(out)@ == wrote(old(out)@, started().out),
    {
        let ghost w0 = out@;
        let mut shell: Shell = Shell::new();
        write_str(out, "\x1b[1;32mrsh\x1b[0m ");
        write_str(out, VERSION);
        write_str(out, " — RustOS Shell\n");
        write_str(out, "Type 'help' for available commands, 'exit' to quit.\n\n");
        let r: Request = shell.settle(None, out);
        proof {
            lemma_writes_4(
                w0,
                text("\x1b[1;32mrsh\x1b[0m "@),
                text(VERSION@),
                text(" — RustOS Shell\n"@),
                text("Type 'help' for available commands, 'exit' to quit.\n\n"@),
            );
            law_writes_join(w0, banner(), prompting(initial_state()).prompt);
            assert(banner() + Seq::<u8>::empty() =~= banner());
        }
        (shell, r)
    }

    /// Whether the shell can take `event`: it answers what the shell waits for,
    /// what the kernel says it has read lies within the buffer, and every path
    /// on a command line fits.
    pub fn accepts(&self, event: &Answer) -> (r: bool)
        requires
            self.wf(),
        ensures
            r == acceptable(self@, event@),
    {
        proof {
            reveal(key_effect);
        }
        match event {
            Event::Key(b) => {
                match &self.task {
                    Task::Line => {},
                    _ => {
                        return false;
                    },
                }
                match self.editor.key_state() {
                    KeyState::Ready => {},
                    _ => {
                        return true;
                    },
                }
                let line: &[u8] = self.editor.line();
                if *b == CARRIAGE_RETURN || *b == NEWLINE {
                    line.len() == 0 || self.line_fits(line)
                } else if *b == CTRL_D && line.len() == 0 {
                    proof {
                        lemma_exit_len();
                    }
                    self.line_fits("exit".as_bytes())
                } else {
                    true
                }
            },
            Event::Chdir(_) => match &self.task {
                Task::Cd { .. } => true,
                _ => false,
            },
            Event::Open(_) => match &self.task {
                Task::LsOpen { .. } => true,
                Task::CatOpen { .. } => true,
                Task::SearchOpen { .. } => true,
                _ => false,
            },
            Event::Close => match &self.task {
                Task::LsClose { .. } => true,
                Task::CatClose { .. } => true,
                Task::SearchClose { .. } => true,
                _ => false,
            },
            Event::ReadDir { n, buf } => match &self.task {
                Task::LsRead { .. } => *n <= 0 || is_listable(buf.as_slice(), *n),
                _ => false,
            },
            Event::ReadFile { n, buf } => match &self.task {
                Task::CatRead { .. } => *n <= 0 || *n as u64 <= buf.len() as u64,
                _ => false,
            },
            Event::Exec(_) => match &self.task {
                Task::Exec { .. } => true,
                Task::Run { .. } => true,
                _ => false,
            },
        }
    }

    /// Take a key while a line is read.
    fn key(&mut self, b: u8, out: &mut StdoutWriter) -> (r: Request)
        requires
            old(self).wf(),
            old(out).wf(),
            acceptable(old(self)@, Event::Key(b)),
        ensures
            final(self).wf(),
            final(out).wf(),
            final(self)@ == key_pressed(old(self)@, b).state,
            final(out)@ == wrote(old(out)@, key_pressed(old(self)@, b).out),
            r@ == key_pressed(old(self)@, b).action,
    {
        let ghost s0 = self@;
        let ghost w0 = out@;
        let ghost k = key_effect(s0.editor, b, s0.prompt);
        let done: bool = self.editor.read_line_key(b, self.prompt.as_slice(), out);
        proof {
            self.editor.lemma_ok();
        }
        if !done {
            return Action::ReadKey;
        }
        let ghost typed = ShellState { editor: k.state, ..s0 };
        assert(self@ == typed);
        let line: Vec<u8> = copy(self.editor.line());
        if line.len() == 0 {
            let r: Request = self.settle(None, out);
            proof {
                law_writes_join(w0, k.out, prompting(typed).prompt);
                assert(k.out + Seq::<u8>::empty() =~= k.out);
            }
            return r;
        }
        self.editor.remember(line.as_slice());
        proof {
            self.editor.lemma_ok();
        }
        let ghost s2 = remembering(typed, line@);
        assert(self@ == s2);
        assert(line_fits(s2, line@)) by {
            reveal(line_fits);
            reveal(command_marks);
        }
        let ghost o = executed(s2, line@);
        let asked_for: Option<Request> = self.execute(line.as_slice(), out);
        let r: Request = self.settle(asked_for, out);
        proof {
            law_writes_join(w0, k.out, o.out);
            law_writes_join(w0, k.out + o.out, prompting(o.state).prompt);
        }
        r
    }

    /// Go on with `task` once a file has been opened.
    fn opened(
        &mut self,
        task: Task<Vec<u8>, Vec<Vec<u8>>>,
        fd: i64,
        out: &mut StdoutWriter,
    ) -> (r: Option<Request>)
        requires
            old(self).wf(),
            old(out).wf(),
            old(self)@.task is Line,
            task_ok((ShellState { task: task@, ..old(self)@ })),
            answers(task@, Event::<Seq<u8>>::Open(fd)),
        ensures
            realised(
                resumed((ShellState { task: task@, ..old(self)@ }), Event::Open(fd)),
                *final(self),
                old(out)@,
                *final(out),
                r,
            ),
    {
        proof {
            reveal(resumed);
            lemma_task_swap(self@, task@);
        }
        match task {
            Task::LsOpen { path } => self.ls_opened(path, fd, out),
            Task::CatOpen { args, pos, failed } => self.cat_opened(args, pos, failed, fd, out),
            Task::SearchOpen { list, pos, goal } => self.search_opened(list, pos, goal, fd, out),
            _ => {
                assert(false);
                None
            },
        }
    }

    /// Go on with `task` once a file has been closed.
    fn closed(
        &mut self,
        task: Task<Vec<u8>, Vec<Vec<u8>>>,
        out: &mut StdoutWriter,
    ) -> (r: Option<Request>)
        requires
            old(self).wf(),
            old(out).wf(),
            old(self)@.task is Line,
            task_ok((ShellState { task: task@, ..old(self)@ })),
            answers(task@, Event::<Seq<u8>>::Close),
        ensures
            realised(
                resumed((ShellState { task: task@, ..old(self)@ }), Event::Close),
                *final(self),
                old(out)@,
                *final(out),
                r,
            ),
    {
        proof {
            reveal(resumed);
            lemma_task_swap(self@, task@);
        }
        match task {
            Task::LsClose { n, buf } => self.ls_closed(n, buf, out),
            Task::CatClose { args, pos, failed } => {
                assert(pos < args.len());
                self.cat_from(args, pos + 1, failed, out)
            },
            Task::SearchClose { found, goal } => self.search_found(found, goal, out),
            _ => {
                assert(false);
                None
            },
        }
    }

    /// Go on with `task` once the kernel has been asked to change the directory.
    fn changed(
        &mut self,
        task: Task<Vec<u8>, Vec<Vec<u8>>>,
        answer: i64,
        out: &mut StdoutWriter,
    ) -> (r: Option<Request>)
        requires
            old(self).wf(),
            old(out).wf(),
            old(self)@.task is Line,
            task_ok((ShellState { task: task@, ..old(self)@ })),
            answers(task@, Event::<Seq<u8>>::Chdir(answer)),
        ensures
            realised(
                resumed((ShellState { task: task@, ..old(self)@ }), Event::Chdir(answer)),
                *final(self),
                old(out)@,
                *final(out),
                r,
            ),
    {
        proof {
            reveal(resumed);
            lemma_task_swap(self@, task@);
        }
        match task {
            Task::Cd { target, path } => self.cd_done(target, path, answer, out),
            _ => {
                assert(false);
                None
            },
        }
    }

    /// Go on with `task` once directory records have been read.
    #[verifier::rlimit(30)]
    fn dir_read(
        &mut self,
        task: Task<Vec<u8>, Vec<Vec<u8>>>,
        n: i64,
        buf: Vec<u8>,
        out: &mut StdoutWriter,
    ) -> (r: Option<Request>)
        requires
            old(self).wf(),
            old(out).wf(),
            old(self)@.task is Line,
            task_ok((ShellState { task: task@, ..old(self)@ })),
            answers(task@, Event::ReadDir { n, buf: buf@ }),
            n > 0 ==> listable(buf@, n as int, 0),
        ensures
            realised(
                resumed(
                    (ShellState { task: task@, ..old(self)@ }),
                    Event::ReadDir { n, buf: buf@ },
                ),
                *final(self),
                old(out)@,
                *final(out),
                r,
            ),
    {
        proof {
            reveal(resumed);
            lemma_task_swap(self@, task@);
        }
        match task {
            Task::LsRead { fd } => self.ls_read(fd, n, buf, out),
            _ => {
                assert(false);
                None
            },
        }
    }

    /// Go on with `task` once data has been read.
    fn file_read(
        &mut self,
        task: Task<Vec<u8>, Vec<Vec<u8>>>,
        n: i64,
        buf: Vec<u8>,
        out: &mut StdoutWriter,
    ) -> (r: Option<Request>)
        requires
            old(self).wf(),
            old(out).wf(),
            old(self)@.task is Line,
            task_ok((ShellState { task: task@, ..old(self)@ })),
            answers(task@, Event::ReadFile { n, buf: buf@ }),
            n <= buf@.len(),
        ensures
            realised(
                resumed(
                    (ShellState { task: task@, ..old(self)@ }),
                    Event::ReadFile { n, buf: buf@ },
                ),
                *final(self),
                old(out)@,
                *final(out),
                r,
            ),
    {
        proof {
            reveal(resumed);
            lemma_task_swap(self@, task@);
        }
        match task {
            Task::CatRead { args, pos, failed, fd } => self.cat_read(
                args,
                pos,
                failed,
                fd,
                n,
                buf,
                out,
            ),
            _ => {
                assert(false);
                None
            },
        }
    }

    /// Go on with `task` once a binary has ended or failed to start.
    fn ended(
        &mut self,
        task: Task<Vec<u8>, Vec<Vec<u8>>>,
        code: i64,
        out: &mut StdoutWriter,
    ) -> (r: Option<Request>)
        requires
            old(self).wf(),
            old(out).wf(),
            old(self)@.task is Line,
            task_ok((ShellState { task: task@, ..old(self)@ })),
            answers(task@, Event::<Seq<u8>>::Exec(code)),
        ensures
            realised(
                resumed((ShellState { task: task@, ..old(self)@ }), Event::Exec(code)),
                *final(self),
                old(out)@,
                *final(out),
                r,
            ),
    {
        proof {
            reveal(resumed);
            lemma_task_swap(self@, task@);
        }
        match task {
            Task::Exec { arg } => self.exec_done(arg, code, out),
            Task::Run { cmd } => self.run_done(cmd, code, out),
            _ => {
                assert(false);
                None
            },
        }
    }

    /// Go on with a command, with the answer it waited for.
    fn resume(&mut self, event: Answer, out: &mut StdoutWriter) -> (r: Option<Request>)
        requires
            old(self).wf(),
            old(out).wf(),
            acceptable(old(self)@, event@),
            !(event is Key),
        ensures
            realised(
                resumed(old(self)@, event@),
                *final(self),
                old(out)@,
                *final(out),
                r,
            ),
    {
        let ghost s0 = self@;
        let mut task: Task<Vec<u8>, Vec<Vec<u8>>> = Task::Line;
        std::mem::swap(&mut task, &mut self.task);
        assert(self@ == (ShellState { task: Task::Line, ..s0 }));
        assert(s0 == (ShellState { task: task@, ..self@ }));
        match event {
            Event::Open(fd) => self.opened(task, fd, out),
            Event::Close => self.closed(task, out),
            Event::Chdir(answer) => self.changed(task, answer, out),
            Event::ReadDir { n, buf } => self.dir_read(task, n, buf, out),
            Event::ReadFile { n, buf } => self.file_read(task, n, buf, out),
            Event::Exec(code) => self.ended(task, code, out),
            Event::Key(_) => {
                assert(false);
                None
            },
        }
    }

    /// Take the answer to what the shell asked for.  Returns what it asks for
    /// next.
    pub fn step(&mut self, event: Answer, out: &mut StdoutWriter) -> (r: Request)
        requires
            old(self).wf(),
            old(out).wf(),
            acceptable(old(self)@, event@),
        ensures
            final(self).wf(),
            final(out).wf(),
            final(self)@ == stepped(old(self)@, event@).state,
            final(out)@ == wrote(old(out)@, stepped(old(self)@, event@).out),
            r@ == stepped(old(self)@, event@).action,
    {
        match event {
            Event::Key(b) => self.key(b, out),
            _ => {
                let ghost w0 = out@;
                let ghost o = resumed(self@, event@);
                let asked_for: Option<Request> = self.resume(event, out);
                let r: Request = self.settle(asked_for, out);
                proof {
                    law_writes_join(w0, o.out, prompting(o.state).prompt);
                }
                r
            },
        }
    }
}

} // verus!
