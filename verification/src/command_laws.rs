//! Laws of single commands: what each does, whatever the state of the shell.
use crate::builtins::{builtin_names, lemma_initials};
use crate::bytes::{
    is_name_byte, is_space, lemma_first_index, lemma_first_index_is, shown, text, trimmed, EQUALS,
};
use crate::dirents::{entry_lines, entry_ok, law_listing, listable, records, Entry};
use crate::editor::{key_effect, EditorState, KeyState};
use crate::history::remembered;
use crate::expand::{expanded, marked, unmarked, unquoted, words_of, Mark, Mode};
use crate::io::{decimal, law_number_round_trip, parsed, signed_decimal};
use crate::laws::{
    after_events, failed_opens, law_search_goes_on, lemma_events_join, lemma_not_built_in,
    lemma_one_event,
};
use crate::machine::{Action, Event, Goal, Task};
use crate::model::{
    acceptable, after_writing, all_exported, all_unset, candidates, cat, command_fits,
    command_words, dispatched, env_lines, executed, exiting, export, history_lines, is_assignment,
    line_fits, padded, path_fits, prompting, repeated, resumed, search_failed, search_found, search_list,
    settled, started, stepped, type_from, Outcome, SeqGoal, SeqTask, ShellState, Step,
};
use crate::path::{coloned, join, law_colon_parts, resolved};
use crate::prompt::prompt_of;
use crate::vars::{
    assigned, law_get_after_set, law_get_after_unset, law_names_stay_distinct, law_set_keeps_others,
    law_unset_keeps_others, lookup, names_distinct, Binding,
};
use crate::words::{arguments, spaced};
use vstd::prelude::*;

verus! {

/// The command has finished with `status` after writing `out`, and has changed
/// nothing else.
pub open spec fn ends(s: ShellState, o: Outcome, status: i64, out: Seq<u8>) -> bool {
    &&& o.action is None
    &&& o.out == out
    &&& o.state == (ShellState { status, task: Task::Line, ..s })
}

/// The command has written nothing yet and asks for `action`.
pub open spec fn asks(o: Outcome, action: Action<Seq<u8>>) -> bool {
    o.action == Some(action) && o.out.len() == 0
}

/// The shell is back at its prompt after a command that ended with `status`
/// and wrote `out`; nothing else has changed since it was `s`.
pub open spec fn back_at_prompt(s: ShellState, step: Step, status: i64, out: Seq<u8>) -> bool {
    let idle = ShellState { status, task: Task::Line, ..s };
    &&& step.action == Action::<Seq<u8>>::ReadKey
    &&& step.state == prompting(idle)
    &&& step.out == out + prompting(idle).prompt
}

/// A new prompt follows the variables and the working directory and is cut to
/// 128 bytes; it starts a fresh line and changes nothing else.
pub proof fn law_prompting(s: ShellState)
    ensures
        prompting(s).prompt == if prompt_of(s.env, s.cwd).len() <= 128 {
            prompt_of(s.env, s.cwd)
        } else {
            prompt_of(s.env, s.cwd).take(128)
        },
        prompting(s).editor.line.len() == 0,
        prompting(s).editor.keys == KeyState::Ready,
        prompting(s).editor.history.entries == s.editor.history.entries,
        prompting(s).editor.history.browse == 0,
        prompting(s).cwd == s.cwd,
        prompting(s).status == s.status,
        prompting(s).env == s.env,
        prompting(s).task is Line,
{
}

// Commands that finish at once ---------------------------------------------------

/// `true` and `false` set the status to 0 and 1, whatever their arguments.
pub proof fn law_true_false(s: ShellState, args: Seq<Seq<u8>>)
    ensures
        ends(s, dispatched(s, text("true"@), args), 0, Seq::empty()),
        ends(s, dispatched(s, text("false"@), args), 1, Seq::empty()),
{
    lemma_initials();
    reveal(dispatched);
}

/// `pwd` writes the working directory and a newline.
pub proof fn law_pwd(s: ShellState, args: Seq<Seq<u8>>)
    ensures
        ends(s, dispatched(s, text("pwd"@), args), 0, s.cwd + seq![0x0au8]),
{
    lemma_initials();
    reveal(dispatched);
    assert(s.cwd.push(0x0a) =~= s.cwd + seq![0x0au8]);
}

/// `clear` writes the sequences that clear the screen and move the cursor home,
/// and 25 newlines.
pub proof fn law_clear(s: ShellState, args: Seq<Seq<u8>>)
    ensures
        ends(
            s,
            dispatched(s, text("clear"@), args),
            0,
            text("\x1b[2J\x1b[H"@) + Seq::new(25, |i: int| 0x0au8),
        ),
{
    lemma_initials();
    reveal(dispatched);
    assert(repeated(0x0a, 25) =~= Seq::new(25, |i: int| 0x0au8));
}

/// `uname` and `source` write a fixed line; `source` fails.
pub proof fn law_uname_source(s: ShellState, args: Seq<Seq<u8>>)
    ensures
        ends(
            s,
            dispatched(s, text("uname"@), args),
            0,
            text("RustOS  rsh "@) + text("0.1.0"@) + text("  x86_64\n"@),
        ),
        ends(
            s,
            dispatched(s, text("source"@), args),
            1,
            text("source: not yet implemented\n"@),
        ),
{
    lemma_initials();
    reveal(dispatched);
}

/// `help` writes the reference.
pub proof fn law_help(s: ShellState, args: Seq<Seq<u8>>)
    ensures
        ends(
            s,
            dispatched(s, text("help"@), args),
            0,
            text("rsh "@) + text("0.1.0"@) + text(" — RustOS Shell\n"@) + text(
                "
Built-in commands:
  echo [-n] [args...]    Print text
  exit [code]            Exit the shell
  clear                  Clear the screen
  pwd                    Print current directory
  cd [path]              Change directory
  ls [path]              List directory
  cat <file>             Print file contents
  exec <path>            Execute an ELF binary
  env                    Show environment variables
  export NAME=VALUE      Set/export a variable
  unset NAME             Remove a variable
  history                Show command history
  uname                  Show OS information
  type <cmd>             Show how a command is resolved
  true / false           Return 0 / 1
  help                   Show this message

Special variables:  $?  $0  $PATH  $HOME  $SHELL  $PS1
Quoting:            '...'  \"...\"  \\<char>
Keyboard:           Tab  ↑/↓  Ctrl-C  Ctrl-U  Ctrl-D
"@,
            ),
        ),
{
    lemma_initials();
    reveal(dispatched);
}

proof fn lemma_spaced_push(ws: Seq<Seq<u8>>, w: Seq<u8>)
    requires
        ws.len() > 0,
    ensures
        spaced(ws.push(w)) == spaced(ws) + seq![0x20u8] + w,
    decreases ws.len(),
{
    let all = ws.push(w);
    assert(all.skip(1) =~= ws.skip(1).push(w));
    if ws.len() == 1 {
        assert(all.skip(1) =~= seq![w]);
        assert(spaced(seq![w]) == w);
    } else {
        lemma_spaced_push(ws.skip(1), w);
        assert(ws[0] + seq![0x20u8] + (spaced(ws.skip(1)) + seq![0x20u8] + w) =~= ws[0] + seq![
            0x20u8,
        ] + spaced(ws.skip(1)) + seq![0x20u8] + w);
    }
}

/// `echo` writes its arguments with a space between each two and a newline at
/// the end; a first argument `-n` is not written and takes the newline away.
pub proof fn law_echo(s: ShellState, args: Seq<Seq<u8>>, w: Seq<u8>)
    ensures
        ({
            let echo = text("echo"@);
            let quiet = seq![text("-n"@)];
            let out = dispatched(s, echo, args).out;
            &&& ends(s, dispatched(s, echo, args), 0, out)
            &&& dispatched(s, echo, Seq::empty()).out == seq![0x0au8]
            &&& w != text("-n"@) ==> dispatched(s, echo, seq![w]).out == w + seq![0x0au8]
            &&& args.len() > 0 && args[0] != text("-n"@) ==> {
                &&& out.len() > 0 && out[out.len() - 1] == 0x0a
                &&& dispatched(s, echo, args.push(w)).out == out.take(out.len() - 1) + seq![0x20u8]
                    + w + seq![0x0au8]
            }
            &&& dispatched(s, echo, quiet).out.len() == 0
            &&& dispatched(s, echo, quiet + seq![w]).out == w
            &&& args.len() > 0 ==> dispatched(s, echo, quiet + args.push(w)).out == dispatched(
                s,
                echo,
                quiet + args,
            ).out + seq![0x20u8] + w
        }),
{
    lemma_initials();
    reveal(dispatched);
    let quiet = seq![text("-n"@)];
    assert(Seq::<u8>::empty().push(0x0a) =~= seq![0x0au8]);
    assert(spaced(seq![w]) == w);
    assert(w.push(0x0a) =~= w + seq![0x0au8]);
    assert(quiet.skip(1) =~= Seq::<Seq<u8>>::empty());
    assert((quiet + seq![w]).skip(1) =~= seq![w]);
    assert((quiet + args).skip(1) =~= args);
    assert((quiet + args.push(w)).skip(1) =~= args.push(w));
    if args.len() > 0 {
        lemma_spaced_push(args, w);
        assert(args.push(w)[0] == args[0]);
        let line = spaced(args);
        assert(line.push(0x0a).take(line.len() as int) =~= line);
        assert(spaced(args.push(w)).push(0x0a) =~= line + seq![0x20u8] + w + seq![0x0au8]);
    }
}

/// The lines of `history` for up to 20 entries: the number in a column four
/// wide, two spaces and the entry.
pub open spec fn numbered(entries: Seq<Seq<u8>>) -> Seq<u8>
    decreases entries.len(),
{
    if entries.len() == 0 {
        Seq::empty()
    } else {
        let n = entries.len();
        let number = if n < 10 {
            seq![0x20u8, 0x20, 0x20, (0x30 + n) as u8]
        } else {
            seq![0x20u8, 0x20, (0x30 + n / 10) as u8, (0x30 + n % 10) as u8]
        };
        numbered(entries.drop_last()) + number + seq![0x20u8, 0x20] + entries.last() + seq![0x0au8]
    }
}

proof fn lemma_numbered(entries: Seq<Seq<u8>>, n: nat)
    requires
        n <= entries.len(),
        n <= 20,
    ensures
        history_lines(entries, n) == numbered(entries.take(n as int)),
    decreases n,
{
    let some = entries.take(n as int);
    if n > 0 {
        lemma_numbered(entries, (n - 1) as nat);
        assert(some.drop_last() =~= entries.take(n - 1));
        reveal_with_fuel(decimal, 3);
        reveal_strlit("  ");
        vstd::utf8::is_ascii_chars_encode_utf8("  "@);
        assert(text("  "@) =~= seq![0x20u8, 0x20]);
        let number = if n < 10 {
            seq![0x20u8, 0x20, 0x20, (0x30 + n) as u8]
        } else {
            seq![0x20u8, 0x20, (0x30 + n / 10) as u8, (0x30 + n % 10) as u8]
        };
        assert(padded(n) =~= number);
        assert(history_lines(entries, n) =~= numbered(some));
    } else {
        assert(some =~= Seq::<Seq<u8>>::empty());
    }
}

/// `history` lists the remembered lines, the oldest first, with their numbers.
pub proof fn law_history_command(s: ShellState, args: Seq<Seq<u8>>)
    requires
        s.editor.history.entries.len() <= 20,
    ensures
        ends(
            s,
            dispatched(s, text("history"@), args),
            0,
            numbered(s.editor.history.entries),
        ),
{
    lemma_initials();
    reveal(dispatched);
    let entries = s.editor.history.entries;
    lemma_numbered(entries, entries.len());
    assert(entries.take(entries.len() as int) =~= entries);
}

proof fn lemma_env_dispatched(s: ShellState, args: Seq<Seq<u8>>)
    ensures
        ends(s, dispatched(s, text("env"@), args), 0, env_lines(s.env)),
{
    lemma_initials();
    reveal(dispatched);
}

/// `env` writes a line `NAME=value` for each variable, in order.
pub proof fn law_env_command(s: ShellState, args: Seq<Seq<u8>>, b: Binding)
    ensures
        ({
            let env = text("env"@);
            let out = dispatched(s, env, args).out;
            let more = ShellState { env: s.env.push(b), ..s };
            &&& ends(s, dispatched(s, env, args), 0, out)
            &&& s.env.len() == 0 ==> out.len() == 0
            &&& dispatched(more, env, args).out == out + b.name + seq![0x3du8] + b.value + seq![
                0x0au8,
            ]
        }),
{
    lemma_env_dispatched(s, args);
    lemma_env_dispatched(ShellState { env: s.env.push(b), ..s }, args);
    assert(s.env.push(b).drop_last() =~= s.env);
    let out = dispatched(s, text("env"@), args).out;
    assert(out + (b.name.push(EQUALS) + b.value).push(0x0a) =~= out + b.name + seq![0x3du8]
        + b.value + seq![0x0au8]);
}

proof fn lemma_exit_dispatched(s: ShellState, args: Seq<Seq<u8>>)
    ensures
        dispatched(s, text("exit"@), args) == exiting(s, args),
{
    lemma_initials();
    reveal(dispatched);
}

/// `exit` exits with the number that its first argument is, whatever the status
/// of the last command; without an argument, or if that is no number, with that
/// status.  It writes nothing, and the shell takes no event then.
pub proof fn law_exit(s: ShellState, args: Seq<Seq<u8>>, n: i64, event: Event<Seq<u8>>)
    ensures
        ({
            let o = dispatched(s, text("exit"@), args);
            &&& n != i64::MIN && args.len() > 0 && args[0] == signed_decimal(n as int) ==> asks(
                o,
                Action::Exit(n),
            )
            &&& args.len() > 0 && parsed(args[0]) == Some(n) ==> asks(o, Action::Exit(n))
            &&& args.len() == 0 || parsed(args[0]) is None ==> asks(o, Action::Exit(s.status))
            &&& o.state == (ShellState { task: Task::Halted, ..s })
            &&& !acceptable(o.state, event)
        }),
{
    lemma_exit_dispatched(s, args);
    if n != i64::MIN {
        law_number_round_trip(n);
    }
}

// Variables ----------------------------------------------------------------------

/// `export NAME` sets a variable that is not set to nothing and leaves one that
/// is set alone; `export` always ends with status 0, and exporting several
/// arguments is exporting one after the other.
pub proof fn law_export_command(s: ShellState, args: Seq<Seq<u8>>, a: Seq<u8>)
    ensures
        ({
            let export = text("export"@);
            let o = dispatched(s, export, args);
            let all = dispatched(s, export, args.push(a));
            let then = dispatched(ShellState { env: o.state.env, ..s }, export, seq![a]);
            let one = dispatched(s, export, seq![a]);
            &&& o.action is None && o.out.len() == 0
            &&& o.state == (ShellState { env: o.state.env, status: 0, task: Task::Line, ..s })
            &&& args.len() == 0 ==> o.state.env == s.env
            &&& all.state.env == then.state.env
            &&& !a.contains(EQUALS) && lookup(s.env, a) is Some ==> one.state.env == s.env
            &&& !a.contains(EQUALS) && lookup(s.env, a) is None ==> one.state.env == assigned(
                s.env,
                a,
                Seq::empty(),
            )
        }),
{
    lemma_initials();
    reveal(dispatched);
    reveal_with_fuel(all_exported, 2);
    assert(unquoted(args.push(a)).drop_last() =~= unquoted(args));
    assert(unquoted(args.push(a)).last() =~= marked(a, false));
    assert(unquoted(seq![a]).drop_last() =~= Seq::<Seq<Mark>>::empty());
    assert(unquoted(seq![a]).last() =~= marked(a, false));
    assert(unmarked(marked(a, false)) =~= a);
    lemma_first_index(a, EQUALS);
}

/// `unset` removes the variables that it names and leaves the others alone.
pub proof fn law_unset_command(s: ShellState, args: Seq<Seq<u8>>, name: Seq<u8>)
    requires
        names_distinct(s.env),
    ensures
        ({
            let o = dispatched(s, text("unset"@), args);
            &&& o.action is None && o.out.len() == 0
            &&& o.state == (ShellState { env: o.state.env, status: 0, task: Task::Line, ..s })
            &&& args.contains(name) ==> lookup(o.state.env, name) is None
            &&& !args.contains(name) ==> lookup(o.state.env, name) == lookup(s.env, name)
        }),
{
    lemma_initials();
    reveal(dispatched);
    lemma_all_unset(s.env, args, name);
}

proof fn lemma_all_unset(env: Seq<Binding>, args: Seq<Seq<u8>>, name: Seq<u8>)
    requires
        names_distinct(env),
    ensures
        names_distinct(all_unset(env, args)),
        args.contains(name) ==> lookup(all_unset(env, args), name) is None,
        !args.contains(name) ==> lookup(all_unset(env, args), name) == lookup(env, name),
    decreases args.len(),
{
    if args.len() > 0 {
        let front = args.drop_last();
        let last = args.last();
        lemma_all_unset(env, front, name);
        let before = all_unset(env, front);
        law_names_stay_distinct(before, last, Seq::empty());
        assert(args =~= front.push(last));
        if last == name {
            law_get_after_unset(before, name);
            assert(args[args.len() - 1] == name);
        } else {
            law_unset_keeps_others(before, last, name);
            if args.contains(name) {
                let i = choose|i: int| 0 <= i < args.len() && args[i] == name;
                assert(front[i] == name);
            }
            if front.contains(name) {
                let i = choose|i: int| 0 <= i < front.len() && front[i] == name;
                assert(args[i] == name);
            }
        }
    }
}

// Directories and files ----------------------------------------------------------

/// `cd` asks to change to its argument as seen from the working directory, or
/// to `HOME`, or to `/`, cut to 256 bytes.  It goes there if the kernel agrees
/// or says by -38 that it cannot tell, and else says so and stays.
pub proof fn law_cd_command(s: ShellState, args: Seq<Seq<u8>>, r: i64)
    ensures
        ({
            let o = dispatched(s, text("cd"@), args);
            let target = if args.len() > 0 {
                args[0]
            } else {
                match lookup(s.env, text("HOME"@)) {
                    Some(home) => home,
                    None => text("/"@),
                }
            };
            let full = resolved(s.cwd, target);
            let path = if full.len() <= 256 {
                full
            } else {
                full.take(256)
            };
            let done = stepped(o.state, Event::Chdir(r));
            &&& asks(o, Action::Chdir(path))
            &&& r >= 0 || r == -38 ==> back_at_prompt(
                (ShellState { cwd: path, ..s }),
                done,
                0,
                Seq::empty(),
            )
            &&& r < 0 && r != -38 ==> back_at_prompt(
                s,
                done,
                1,
                text("cd: "@) + shown(target) + text(": no such directory\n"@),
            )
        }),
{
    lemma_initials();
    reveal(dispatched);
    reveal(resumed);
}

/// `ls` asks to open its argument, or the working directory, as seen from there.
/// A directory that is opened is read and closed before its entries are listed.
#[verifier::rlimit(30)]
pub proof fn law_ls_command(
    s: ShellState,
    args: Seq<Seq<u8>>,
    fd: i64,
    n: i64,
    es: Seq<Entry>,
    after: Seq<u8>,
)
    requires
        forall|i: int| 0 <= i < es.len() ==> entry_ok(#[trigger] es[i]),
    ensures
        ({
            let o = dispatched(s, text("ls"@), args);
            let full = resolved(
                s.cwd,
                if args.len() > 0 {
                    args[0]
                } else {
                    text("."@)
                },
            );
            let path = if full.len() <= 256 {
                full
            } else {
                full.take(256)
            };
            let opened = stepped(o.state, Event::Open(fd));
            let buf = records(es) + after;
            let read = stepped(opened.state, Event::ReadDir { n, buf });
            let done = stepped(read.state, Event::Close);
            &&& asks(o, Action::Open(path + seq![0u8]))
            &&& fd < 0 ==> back_at_prompt(
                s,
                opened,
                1,
                text("ls: cannot open '"@) + shown(path) + text("'\n"@),
            )
            &&& fd >= 0 ==> {
                &&& opened.action == Action::<Seq<u8>>::ReadDir(fd) && opened.out.len() == 0
                &&& read.action == Action::<Seq<u8>>::Close(fd) && read.out.len() == 0
                &&& n < 0 ==> back_at_prompt(
                    s,
                    done,
                    1,
                    text("ls: not supported by this kernel (SYS_GETDENTS64 stub)\n"@),
                )
                &&& n == records(es).len() ==> back_at_prompt(s, done, 0, entry_lines(es))
            }
        }),
{
    lemma_initials();
    reveal(dispatched);
    reveal(resumed);
    law_listing(es, after);
    let full = resolved(
        s.cwd,
        if args.len() > 0 {
            args[0]
        } else {
            text("."@)
        },
    );
    let path = if full.len() <= 256 {
        full
    } else {
        full.take(256)
    };
    assert(path.push(0) =~= path + seq![0u8]);
}

/// `cat` without an argument says how it is used; with arguments it starts with
/// the first, as seen from the working directory.
pub proof fn law_cat_command(s: ShellState, args: Seq<Seq<u8>>)
    ensures
        ({
            let o = dispatched(s, text("cat"@), args);
            &&& o == cat(s, args)
            &&& args.len() == 0 ==> ends(s, o, 1, text("cat: usage: cat <file>\n"@))
            &&& args.len() > 0 ==> asks(o, Action::Open(resolved(s.cwd, args[0]) + seq![0u8]))
        }),
{
    lemma_initials();
    reveal(dispatched);
    if args.len() > 0 {
        let path = resolved(s.cwd, args[0]);
        assert(path.push(0) =~= path + seq![0u8]);
    }
}

// Programs -----------------------------------------------------------------------

/// `exec` executes an absolute path as it is, and any other as seen from the
/// working directory.  A program that ran leaves its exit code as the status,
/// and nothing is written; one that could not be executed is reported, with
/// status 127.
pub proof fn law_exec_command(s: ShellState, args: Seq<Seq<u8>>, code: i64)
    ensures
        ({
            let o = dispatched(s, text("exec"@), args);
            let done = stepped(o.state, Event::Exec(code));
            &&& args.len() == 0 ==> ends(s, o, 1, text("exec: usage: exec <path>\n"@))
            &&& args.len() > 0 && args[0].len() > 0 ==> {
                &&& args[0][0] == 0x2f && args[0].len() <= 256 ==> asks(
                    o,
                    Action::Exec(args[0] + seq![0u8]),
                )
                &&& args[0][0] != 0x2f ==> asks(
                    o,
                    Action::Exec(resolved(s.cwd, args[0]) + seq![0u8]),
                )
                &&& code >= 0 ==> back_at_prompt(s, done, code, Seq::empty())
                &&& code < 0 ==> back_at_prompt(
                    s,
                    done,
                    127,
                    text("exec: "@) + shown(args[0]) + text(": failed (error "@) + signed_decimal(
                        code as int,
                    ) + text(")\n"@),
                )
            }
        }),
{
    lemma_initials();
    reveal(dispatched);
    reveal(resumed);
    if args.len() > 0 {
        let a = args[0];
        let r = resolved(s.cwd, a);
        assert(a.push(0) =~= a + seq![0u8]);
        assert(r.push(0) =~= r + seq![0u8]);
    }
}

/// An external command that ran leaves its exit code as the status, zero
/// included, and nothing is written; one that could not be executed is
/// reported, with status 127.
pub proof fn law_program_ends(s: ShellState, cmd: Seq<u8>, code: i64)
    requires
        s.task == (SeqTask::Run { cmd }),
    ensures
        code >= 0 ==> back_at_prompt(s, stepped(s, Event::Exec(code)), code, Seq::empty()),
        code < 0 ==> back_at_prompt(
            s,
            stepped(s, Event::Exec(code)),
            127,
            shown(cmd) + text(": exec failed ("@) + signed_decimal(code as int) + text(")\n"@),
        ),
{
    reveal(resumed);
}

/// A command that is an absolute path is executed without a search.
pub proof fn law_absolute_command(s: ShellState, cmd: Seq<u8>, args: Seq<Seq<u8>>)
    requires
        0 < cmd.len() <= 256,
        cmd[0] == 0x2f,
    ensures
        asks(dispatched(s, cmd, args), Action::Exec(cmd + seq![0u8])),
        dispatched(s, cmd, args).state == (ShellState { task: Task::Run { cmd }, ..s }),
{
    lemma_initials();
    reveal(dispatched);
    assert(cmd.push(0) =~= cmd + seq![0u8]);
}

/// A command is looked for in each directory of the search path, in order; a
/// directory that makes its path longer than 256 bytes is left out.
pub proof fn law_search_list(env: Seq<Binding>, dirs: Seq<Seq<u8>>, cmd: Seq<u8>)
    requires
        forall|i: int|
            0 <= i < dirs.len() ==> (#[trigger] dirs[i]).len() > 0 && !dirs[i].contains(0x3a),
        lookup(env, text("PATH"@)) == Some(coloned(dirs)),
    ensures
        (forall|i: int| 0 <= i < dirs.len() ==> join(#[trigger] dirs[i], cmd).len() <= 256)
            ==> search_list(env, cmd) == Seq::new(dirs.len(), |i: int| join(dirs[i], cmd)),
        (forall|i: int| 0 <= i < dirs.len() ==> join(#[trigger] dirs[i], cmd).len() > 256)
            ==> search_list(env, cmd).len() == 0,
{
    law_colon_parts(dirs);
    lemma_candidates(dirs, cmd);
}

proof fn lemma_candidates(dirs: Seq<Seq<u8>>, cmd: Seq<u8>)
    ensures
        (forall|i: int| 0 <= i < dirs.len() ==> join(#[trigger] dirs[i], cmd).len() <= 256)
            ==> candidates(dirs, cmd) == Seq::new(dirs.len(), |i: int| join(dirs[i], cmd)),
        (forall|i: int| 0 <= i < dirs.len() ==> join(#[trigger] dirs[i], cmd).len() > 256)
            ==> candidates(dirs, cmd).len() == 0,
    decreases dirs.len(),
{
    let all = Seq::new(dirs.len(), |i: int| join(dirs[i], cmd));
    if dirs.len() == 0 {
        assert(candidates(dirs, cmd) =~= all);
    } else {
        let front = dirs.drop_last();
        lemma_candidates(front, cmd);
        assert(forall|i: int| 0 <= i < front.len() ==> #[trigger] front[i] == dirs[i]);
        assert(dirs.last() == dirs[dirs.len() - 1]);
        let some = Seq::new(front.len(), |i: int| join(front[i], cmd));
        assert(all =~= some.push(join(dirs.last(), cmd)));
    }
}

/// Without a search path no command but a built-in or an absolute one is found.
pub proof fn law_no_search_path(s: ShellState, cmd: Seq<u8>, args: Seq<Seq<u8>>)
    requires
        !builtin_names().contains(cmd),
        cmd.len() > 0,
        cmd[0] != 0x2f,
        lookup(s.env, text("PATH"@)) is None,
    ensures
        ends(s, dispatched(s, cmd, args), 127, shown(cmd) + text(": command not found\n"@)),
{
    lemma_not_built_in(s, cmd, args);
}

/// What comes of `now` and a series of events after it: everything that is
/// written since, and the shell and its request in the end.
#[verifier::opaque]
pub open spec fn followed_by(now: Step, events: Seq<Event<Seq<u8>>>) -> Step {
    let done = after_events(now.state, now.action, events);
    Step { out: now.out + done.out, ..done }
}

proof fn lemma_followed_by_none(now: Step)
    ensures
        followed_by(now, Seq::empty()) == now,
{
    reveal(followed_by);
    assert(now.out + Seq::<u8>::empty() =~= now.out);
}

proof fn lemma_followed_by_one(now: Step, event: Event<Seq<u8>>)
    ensures
        ({
            let next = stepped(now.state, event);
            followed_by(now, seq![event]) == (Step { out: now.out + next.out, ..next })
        }),
{
    reveal(followed_by);
    lemma_one_event(now.state, now.action, event);
}

proof fn lemma_followed_by_both(now: Step, a: Seq<Event<Seq<u8>>>, b: Seq<Event<Seq<u8>>>)
    ensures
        followed_by(now, a + b) == followed_by(followed_by(now, a), b),
{
    reveal(followed_by);
    lemma_events_join(now.state, now.action, a, b);
    let before = after_events(now.state, now.action, a);
    let after = after_events(before.state, before.action, b);
    assert(now.out + (before.out + after.out) =~= now.out + before.out + after.out);
}

proof fn lemma_followed_by_prefix(out: Seq<u8>, now: Step, events: Seq<Event<Seq<u8>>>)
    ensures
        ({
            let end = followed_by(now, events);
            followed_by(Step { out: out + now.out, ..now }, events) == (Step {
                out: out + end.out,
                ..end
            })
        }),
{
    reveal(followed_by);
    let done = after_events(now.state, now.action, events);
    assert(out + now.out + done.out =~= out + (now.out + done.out));
}

proof fn lemma_search_found(s: ShellState, list: Seq<Seq<u8>>, pos: int, goal: SeqGoal, fd: i64)
    requires
        s.task is Line,
        0 <= pos < list.len() <= usize::MAX,
        fd >= 0,
    ensures
        ({
            let task = Task::SearchOpen { list, pos: pos as usize, goal };
            let looking = ShellState { task, ..s };
            let opened = stepped(looking, Event::Open(fd));
            &&& opened.action == Action::<Seq<u8>>::Close(fd)
            &&& opened.out == Seq::<u8>::empty()
            &&& stepped(opened.state, Event::Close) == settled(search_found(s, list[pos], goal))
        }),
{
    reveal(resumed);
    let looking = ShellState { task: Task::SearchOpen { list, pos: pos as usize, goal }, ..s };
    assert(ShellState { task: Task::Line, ..looking } == s);
    let opened = stepped(looking, Event::Open(fd));
    assert(ShellState { task: Task::Line, ..opened.state } == s);
}

proof fn lemma_search_over(s: ShellState, list: Seq<Seq<u8>>, goal: SeqGoal, fd: i64)
    requires
        s.task is Line,
        0 < list.len() <= usize::MAX,
        fd < 0,
    ensures
        ({
            let pos = (list.len() - 1) as usize;
            let looking = ShellState { task: Task::SearchOpen { list, pos, goal }, ..s };
            stepped(looking, Event::Open(fd)) == settled(search_failed(s, goal))
        }),
{
    reveal(resumed);
    let pos = (list.len() - 1) as usize;
    let looking = ShellState { task: Task::SearchOpen { list, pos, goal }, ..s };
    assert(ShellState { task: Task::Line, ..looking } == s);
}

proof fn lemma_settled_after(before: Seq<u8>, o: Outcome)
    ensures
        settled(after_writing(before, o)) == (Step {
            out: before + settled(o).out,
            ..settled(o)
        }),
{
    let prompt = prompting(o.state).prompt;
    assert(before + o.out + prompt =~= before + (o.out + prompt));
}

/// From the name to the exit status: a command is looked for in the directories
/// of the search path, in order, and executed in the first where it can be
/// opened, which is closed before that.  Its exit code becomes the status.
pub proof fn law_command_is_found_and_run(
    s: ShellState,
    dirs: Seq<Seq<u8>>,
    cmd: Seq<u8>,
    args: Seq<Seq<u8>>,
    fds: Seq<i64>,
    fd: i64,
    code: i64,
)
    requires
        s.task is Line,
        !builtin_names().contains(cmd),
        cmd.len() > 0,
        cmd[0] != 0x2f,
        dirs.len() <= usize::MAX,
        forall|i: int|
            0 <= i < dirs.len() ==> (#[trigger] dirs[i]).len() > 0 && !dirs[i].contains(0x3a),
        forall|i: int| 0 <= i < dirs.len() ==> join(#[trigger] dirs[i], cmd).len() <= 256,
        lookup(s.env, text("PATH"@)) == Some(coloned(dirs)),
        fds.len() < dirs.len(),
        forall|i: int| 0 <= i < fds.len() ==> #[trigger] fds[i] < 0,
        fd >= 0,
        code >= 0,
    ensures
        ({
            let now = settled(dispatched(s, cmd, args));
            let k = fds.len() as int;
            let failed = followed_by(now, failed_opens(fds));
            let opened = followed_by(failed, seq![Event::Open(fd)]);
            let closed = followed_by(opened, seq![Event::Close]);
            let done = followed_by(closed, seq![Event::Exec(code)]);
            &&& now.action == Action::Open(join(dirs[0], cmd) + seq![0u8])
            &&& failed.action == Action::Open(join(dirs[k], cmd) + seq![0u8])
            &&& opened.action == Action::<Seq<u8>>::Close(fd)
            &&& closed.action == Action::Exec(join(dirs[k], cmd) + seq![0u8])
            &&& back_at_prompt(s, done, code, Seq::empty())
        }),
{
    lemma_not_built_in(s, cmd, args);
    law_search_list(s.env, dirs, cmd);
    let list = search_list(s.env, cmd);
    let now = settled(dispatched(s, cmd, args));
    let goal: SeqGoal = Goal::Run { cmd };
    let k = fds.len() as int;
    let none = Seq::<u8>::empty();
    assert(list[0].push(0) =~= join(dirs[0], cmd) + seq![0u8]);
    assert(list[k].push(0) =~= join(dirs[k], cmd) + seq![0u8]);
    law_search_goes_on(now.state, list, 0, goal, fds);
    let failed = followed_by(now, failed_opens(fds));
    assert(failed.out =~= none && failed.action == Action::Open(list[k].push(0)) && failed.state
        == (ShellState { task: Task::SearchOpen { list, pos: k as usize, goal }, ..s })) by {
        reveal(followed_by);
    }
    let opened = followed_by(failed, seq![Event::Open(fd)]);
    let closed = followed_by(opened, seq![Event::Close]);
    lemma_followed_by_one(failed, Event::Open(fd));
    lemma_followed_by_one(opened, Event::Close);
    lemma_followed_by_one(closed, Event::Exec(code));
    lemma_search_found(s, list, k, goal, fd);
    law_program_ends(closed.state, cmd, code);
    let idle = ShellState { status: code, task: Task::Line, ..s };
    assert(idle == ShellState { status: code, task: Task::Line, ..closed.state });
    assert(none + none =~= none);
    assert(none + (none + prompting(idle).prompt) =~= none + prompting(idle).prompt);
}

// type ---------------------------------------------------------------------------

/// How an argument of `type` is resolved: it is a built-in; or it can be opened
/// as `fd` on the search path, after the attempts `fds` have failed; or all
/// attempts fail.
pub enum Resolution {
    BuiltIn,
    Found { fds: Seq<i64>, fd: i64 },
    Missing { fds: Seq<i64> },
}

/// Whether `r` can be how `arg` is resolved.
pub open spec fn resolution_ok(env: Seq<Binding>, arg: Seq<u8>, r: Resolution) -> bool {
    let n = search_list(env, arg).len();
    &&& n <= usize::MAX
    &&& match r {
        Resolution::BuiltIn => builtin_names().contains(arg),
        Resolution::Found { fds, fd } => {
            &&& !builtin_names().contains(arg)
            &&& fds.len() < n
            &&& forall|i: int| 0 <= i < fds.len() ==> #[trigger] fds[i] < 0
            &&& fd >= 0
        },
        Resolution::Missing { fds } => {
            &&& !builtin_names().contains(arg)
            &&& fds.len() == n
            &&& forall|i: int| 0 <= i < fds.len() ==> #[trigger] fds[i] < 0
        },
    }
}

/// The kernel's answers while an argument is resolved as `r` says.
pub open spec fn resolution_events(r: Resolution) -> Seq<Event<Seq<u8>>> {
    match r {
        Resolution::BuiltIn => Seq::empty(),
        Resolution::Found { fds, fd } => failed_opens(fds) + seq![Event::Open(fd), Event::Close],
        Resolution::Missing { fds } => failed_opens(fds),
    }
}

/// What `type` writes about `arg`.
pub open spec fn resolution_line(env: Seq<Binding>, arg: Seq<u8>, r: Resolution) -> Seq<u8> {
    match r {
        Resolution::BuiltIn => shown(arg) + text(" is a shell built-in\n"@),
        Resolution::Found { fds, fd } => shown(arg) + text(" is "@) + shown(
            search_list(env, arg)[fds.len() as int],
        ) + text("\n"@),
        Resolution::Missing { fds } => shown(arg) + text(": not found\n"@),
    }
}

/// The kernel's answers for all arguments from number `pos` on.
pub open spec fn events_from(rs: Seq<Resolution>, pos: int) -> Seq<Event<Seq<u8>>>
    decreases rs.len() - pos,
{
    if pos >= rs.len() {
        Seq::empty()
    } else {
        resolution_events(rs[pos]) + events_from(rs, pos + 1)
    }
}

/// What `type` writes about all arguments from number `pos` on.
pub open spec fn lines_from(
    env: Seq<Binding>,
    args: Seq<Seq<u8>>,
    rs: Seq<Resolution>,
    pos: int,
) -> Seq<u8>
    decreases rs.len() - pos,
{
    if pos >= rs.len() {
        Seq::empty()
    } else {
        resolution_line(env, args[pos], rs[pos]) + lines_from(env, args, rs, pos + 1)
    }
}

/// Whether one of the arguments from number `pos` on is not found.
pub open spec fn missing_from(rs: Seq<Resolution>, pos: int) -> bool
    decreases rs.len() - pos,
{
    pos < rs.len() && (rs[pos] is Missing || missing_from(rs, pos + 1))
}

proof fn lemma_type_asks(s: ShellState, args: Seq<Seq<u8>>, pos: int, missing: bool)
    requires
        0 <= pos < args.len() <= usize::MAX,
        !builtin_names().contains(args[pos]),
        search_list(s.env, args[pos]).len() > 0,
    ensures
        ({
            let list = search_list(s.env, args[pos]);
            let goal: SeqGoal = Goal::Type { args, pos: pos as usize, missing };
            settled(type_from(s, args, pos, missing)) == (Step {
                state: ShellState { task: Task::SearchOpen { list, pos: 0, goal }, ..s },
                out: Seq::empty(),
                action: Action::Open(list[0].push(0)),
            })
        }),
{
}

proof fn lemma_type_says(
    s: ShellState,
    args: Seq<Seq<u8>>,
    pos: int,
    missing: bool,
    r: Resolution,
)
    requires
        0 <= pos < args.len(),
        resolution_ok(s.env, args[pos], r),
        builtin_names().contains(args[pos]) || search_list(s.env, args[pos]).len() == 0,
    ensures
        type_from(s, args, pos, missing) == after_writing(
            resolution_line(s.env, args[pos], r),
            type_from(s, args, pos + 1, missing || r is Missing),
        ),
        resolution_events(r) == Seq::<Event<Seq<u8>>>::empty(),
{
    assert(resolution_events(r) =~= Seq::<Event<Seq<u8>>>::empty());
}

proof fn lemma_type_one(
    s: ShellState,
    args: Seq<Seq<u8>>,
    pos: int,
    missing: bool,
    r: Resolution,
)
    requires
        s.task is Line,
        0 <= pos < args.len() <= usize::MAX,
        resolution_ok(s.env, args[pos], r),
    ensures
        followed_by(settled(type_from(s, args, pos, missing)), resolution_events(r)) == (Step {
            out: resolution_line(s.env, args[pos], r) + settled(
                type_from(s, args, pos + 1, missing || r is Missing),
            ).out,
            ..settled(type_from(s, args, pos + 1, missing || r is Missing))
        }),
{
    let list = search_list(s.env, args[pos]);
    let now = settled(type_from(s, args, pos, missing));
    let rest = type_from(s, args, pos + 1, missing || r is Missing);
    let line = resolution_line(s.env, args[pos], r);
    let goal: SeqGoal = Goal::Type { args, pos: pos as usize, missing };
    assert(followed_by(now, resolution_events(r)) == settled(after_writing(line, rest))) by {
        if builtin_names().contains(args[pos]) || list.len() == 0 {
            lemma_type_says(s, args, pos, missing, r);
            lemma_followed_by_none(now);
        } else {
            lemma_type_asks(s, args, pos, missing);
            match r {
                Resolution::BuiltIn => {},
                Resolution::Found { fds, fd } => {
                    lemma_type_found(s, list, goal, now, fds, fd);
                    assert(search_found(s, list[fds.len() as int], goal) == after_writing(
                        line,
                        rest,
                    ));
                },
                Resolution::Missing { fds } => {
                    lemma_type_missing(s, list, goal, now, fds);
                    assert(search_failed(s, goal) == after_writing(line, rest));
                },
            }
        }
    }
    lemma_settled_after(line, rest);
}

proof fn lemma_type_found(
    s: ShellState,
    list: Seq<Seq<u8>>,
    goal: SeqGoal,
    now: Step,
    fds: Seq<i64>,
    fd: i64,
)
    requires
        s.task is Line,
        0 < list.len() <= usize::MAX,
        now == (Step {
            state: ShellState { task: Task::SearchOpen { list, pos: 0, goal }, ..s },
            out: Seq::empty(),
            action: Action::Open(list[0].push(0)),
        }),
        fds.len() < list.len(),
        forall|i: int| 0 <= i < fds.len() ==> #[trigger] fds[i] < 0,
        fd >= 0,
    ensures
        followed_by(now, failed_opens(fds) + seq![Event::Open(fd), Event::Close]) == settled(
            search_found(s, list[fds.len() as int], goal),
        ),
{
    let k = fds.len() as int;
    let e1 = seq![Event::<Seq<u8>>::Open(fd)];
    let e2 = seq![Event::<Seq<u8>>::Close];
    let failed = followed_by(now, failed_opens(fds));
    let opened = followed_by(failed, e1);
    let end = settled(search_found(s, list[k], goal));
    lemma_type_fails(s, list, goal, now, fds);
    assert(opened.out =~= Seq::<u8>::empty() && stepped(opened.state, Event::Close) == end) by {
        lemma_search_found(s, list, k, goal, fd);
        lemma_followed_by_one(failed, Event::Open(fd));
    }
    assert(followed_by(opened, e2) == end) by {
        lemma_followed_by_one(opened, Event::Close);
        assert(opened.out + end.out =~= end.out);
    }
    lemma_followed_by_both(now, failed_opens(fds), e1);
    lemma_followed_by_both(now, failed_opens(fds) + e1, e2);
    assert(failed_opens(fds) + e1 + e2 =~= failed_opens(fds) + seq![
        Event::Open(fd),
        Event::Close,
    ]);
}

proof fn lemma_type_missing(
    s: ShellState,
    list: Seq<Seq<u8>>,
    goal: SeqGoal,
    now: Step,
    fds: Seq<i64>,
)
    requires
        s.task is Line,
        0 < list.len() <= usize::MAX,
        now == (Step {
            state: ShellState { task: Task::SearchOpen { list, pos: 0, goal }, ..s },
            out: Seq::empty(),
            action: Action::Open(list[0].push(0)),
        }),
        fds.len() == list.len(),
        forall|i: int| 0 <= i < fds.len() ==> #[trigger] fds[i] < 0,
    ensures
        followed_by(now, failed_opens(fds)) == settled(search_failed(s, goal)),
{
    let front = fds.drop_last();
    assert forall|i: int| 0 <= i < front.len() implies #[trigger] front[i] < 0 by {
        assert(front[i] == fds[i]);
    }
    assert(fds[fds.len() - 1] < 0);
    let last = Event::<Seq<u8>>::Open(fds.last());
    let failed = followed_by(now, failed_opens(front));
    let end = settled(search_failed(s, goal));
    lemma_type_fails(s, list, goal, now, front);
    assert(followed_by(failed, seq![last]) == end) by {
        lemma_search_over(s, list, goal, fds.last());
        lemma_followed_by_one(failed, last);
        assert(failed.out + end.out =~= end.out);
    }
    lemma_followed_by_both(now, failed_opens(front), seq![last]);
    assert(failed_opens(front) + seq![last] =~= failed_opens(fds));
}

proof fn lemma_type_fails(
    s: ShellState,
    list: Seq<Seq<u8>>,
    goal: SeqGoal,
    now: Step,
    fds: Seq<i64>,
)
    requires
        now == (Step {
            state: ShellState { task: Task::SearchOpen { list, pos: 0, goal }, ..s },
            out: Seq::empty(),
            action: Action::Open(list[0].push(0)),
        }),
        fds.len() < list.len() <= usize::MAX,
        forall|i: int| 0 <= i < fds.len() ==> #[trigger] fds[i] < 0,
    ensures
        followed_by(now, failed_opens(fds)) == (Step {
            state: ShellState {
                task: Task::SearchOpen { list, pos: fds.len() as usize, goal },
                ..s
            },
            out: Seq::empty(),
            action: Action::Open(list[fds.len() as int].push(0)),
        }),
{
    law_search_goes_on(now.state, list, 0, goal, fds);
    reveal(followed_by);
    assert(Seq::<u8>::empty() + Seq::<u8>::empty() =~= Seq::<u8>::empty());
}

#[verifier::rlimit(30)]
proof fn lemma_type_all(
    s: ShellState,
    args: Seq<Seq<u8>>,
    rs: Seq<Resolution>,
    pos: int,
    missing: bool,
)
    requires
        s.task is Line,
        0 <= pos <= args.len() <= usize::MAX,
        args.len() > 0,
        rs.len() == args.len(),
        forall|i: int| 0 <= i < args.len() ==> resolution_ok(s.env, #[trigger] args[i], rs[i]),
    ensures
        back_at_prompt(
            s,
            followed_by(settled(type_from(s, args, pos, missing)), events_from(rs, pos)),
            if missing || missing_from(rs, pos) {
                1i64
            } else {
                0i64
            },
            lines_from(s.env, args, rs, pos),
        ),
    decreases args.len() - pos,
{
    let now = settled(type_from(s, args, pos, missing));
    if pos == args.len() {
        lemma_followed_by_none(now);
    } else {
        let r = rs[pos];
        assert(resolution_ok(s.env, args[pos], r));
        let later = missing || r is Missing;
        lemma_type_one(s, args, pos, missing, r);
        lemma_type_all(s, args, rs, pos + 1, later);
        let next = settled(type_from(s, args, pos + 1, later));
        let line = resolution_line(s.env, args[pos], r);
        lemma_followed_by_both(now, resolution_events(r), events_from(rs, pos + 1));
        lemma_followed_by_prefix(line, next, events_from(rs, pos + 1));
        let idle = ShellState {
            status: if later || missing_from(rs, pos + 1) {
                1i64
            } else {
                0i64
            },
            task: Task::Line,
            ..s
        };
        assert(line + (lines_from(s.env, args, rs, pos + 1) + prompting(idle).prompt)
            =~= lines_from(s.env, args, rs, pos) + prompting(idle).prompt);
    }
}

/// `type` writes a line about each of its arguments, in order: whether it is a
/// built-in, or where on the search path it can be opened first, or that it is
/// not found.  It ends with status 1 exactly if one is not found; without
/// arguments it does nothing.
pub proof fn law_type_command(s: ShellState, args: Seq<Seq<u8>>, rs: Seq<Resolution>)
    requires
        s.task is Line,
        args.len() <= usize::MAX,
        rs.len() == args.len(),
        forall|i: int| 0 <= i < args.len() ==> resolution_ok(s.env, #[trigger] args[i], rs[i]),
    ensures
        ({
            let o = dispatched(s, text("type"@), args);
            &&& args.len() == 0 ==> ends(s, o, s.status, Seq::empty())
            &&& args.len() > 0 ==> back_at_prompt(
                s,
                followed_by(settled(o), events_from(rs, 0)),
                if missing_from(rs, 0) {
                    1i64
                } else {
                    0i64
                },
                lines_from(s.env, args, rs, 0),
            )
        }),
{
    lemma_type_dispatched(s, args);
    if args.len() > 0 {
        lemma_type_all(s, args, rs, 0, false);
    }
}

proof fn lemma_type_dispatched(s: ShellState, args: Seq<Seq<u8>>)
    ensures
        dispatched(s, text("type"@), args) == type_from(s, args, 0, false),
{
    lemma_initials();
    reveal(dispatched);
}

// Command lines ------------------------------------------------------------------

/// Whitespace around a command line does not matter.
pub proof fn law_line_is_trimmed(s: ShellState, line: Seq<u8>)
    ensures
        executed(s, line) == executed(s, trimmed(line)),
{
    reveal(executed);
    let i = crate::bytes::law_trimmed(line);
    crate::laws::lemma_already_trimmed(trimmed(line));
}

/// A trimmed line that is neither a comment nor an assignment is expanded, cut
/// to 512 bytes and split; its first word is the command and the others are its
/// arguments.  A line without words does nothing.
pub proof fn law_line_is_run(s: ShellState, l: Seq<u8>)
    requires
        trimmed(l) == l,
        l.len() > 0,
        l[0] != 0x23,
        !is_assignment(l),
    ensures
        ({
            let e = expanded(s.env, s.status, Mode::Plain, l);
            let ms = arguments(
                if e.len() <= 512 {
                    e
                } else {
                    e.take(512)
                },
            );
            let ws = words_of(ms);
            let o = executed(s, l);
            &&& ms.len() == 0 ==> o == (Outcome { state: s, out: Seq::empty(), action: None })
            &&& ms.len() > 0 && ws[0] == text("export"@) ==> o == export(s, ms.skip(1))
            &&& ms.len() > 0 && ws[0] != text("export"@) ==> o == dispatched(s, ws[0], ws.skip(1))
        }),
{
    reveal(executed);
    reveal(crate::model::command_marks);
}

/// A line is an assignment exactly if it starts with at least one name byte and
/// nothing but name bytes up to its first `=`.
pub proof fn law_is_assignment(name: Seq<u8>, value: Seq<u8>)
    requires
        !name.contains(EQUALS),
    ensures
        is_assignment(name + seq![0x3du8] + value) <==> name.len() > 0 && forall|k: int|
            0 <= k < name.len() ==> is_name_byte(#[trigger] name[k]),
        !is_assignment(name),
{
    let l = name + seq![0x3du8] + value;
    let n = name.len() as int;
    assert forall|k: int| 0 <= k < n implies l[k] != EQUALS by {
        assert(name.contains(name[k]));
    }
    lemma_first_index_is(l, EQUALS, n);
    lemma_first_index(name, EQUALS);
    if is_assignment(l) {
        assert forall|k: int| 0 <= k < n implies is_name_byte(#[trigger] name[k]) by {
            assert(is_name_byte(l[k]));
        }
    }
    if forall|k: int| 0 <= k < n ==> is_name_byte(#[trigger] name[k]) {
        assert forall|k: int| 0 <= k < n implies is_name_byte(#[trigger] l[k]) by {
            assert(l[k] == name[k]);
        }
    }
}

/// A key that does not complete the line changes only the editor and writes
/// only what the editor shows; a line that is completed empty is followed by
/// the next prompt and does nothing else.
pub proof fn law_keys_before_enter(s: ShellState, b: u8)
    ensures
        ({
            let k = key_effect(s.editor, b, s.prompt);
            let step = stepped(s, Event::Key(b));
            let typed = ShellState { editor: k.state, ..s };
            &&& !k.done ==> step == (Step {
                state: typed,
                out: k.out,
                action: Action::<Seq<u8>>::ReadKey,
            })
            &&& k.done && k.state.line.len() == 0 ==> step == (Step {
                state: prompting(typed),
                out: k.out + prompting(typed).prompt,
                action: Action::<Seq<u8>>::ReadKey,
            })
        }),
{
    let k = key_effect(s.editor, b, s.prompt);
    assert(k.out + Seq::<u8>::empty() =~= k.out);
}

// The start ----------------------------------------------------------------------

proof fn lemma_variable_names()
    ensures
        text("PATH"@).len() == 4 && text("PATH"@)[0] == 'P' as u8,
        text("SHELL"@).len() == 5,
        text("HOME"@).len() == 4 && text("HOME"@)[0] == 'H' as u8,
        text("PS1"@).len() == 3,
        text("/bin"@).len() == 4,
        text("/bin/rsh"@).len() == 8,
        text("/"@).len() == 1,
        text("\x1b[1;32mrsh\x1b[0m:\x1b[1;34m\\w\x1b[0m$ "@).len() <= 128,
{
    reveal_strlit("PATH");
    reveal_strlit("SHELL");
    reveal_strlit("HOME");
    reveal_strlit("PS1");
    reveal_strlit("/bin");
    reveal_strlit("/bin/rsh");
    reveal_strlit("/");
    reveal_strlit("\x1b[1;32mrsh\x1b[0m:\x1b[1;34m\\w\x1b[0m$ ");
    vstd::utf8::is_ascii_chars_encode_utf8("PATH"@);
    vstd::utf8::is_ascii_chars_encode_utf8("SHELL"@);
    vstd::utf8::is_ascii_chars_encode_utf8("HOME"@);
    vstd::utf8::is_ascii_chars_encode_utf8("PS1"@);
    vstd::utf8::is_ascii_chars_encode_utf8("/bin"@);
    vstd::utf8::is_ascii_chars_encode_utf8("/bin/rsh"@);
    vstd::utf8::is_ascii_chars_encode_utf8("/"@);
    vstd::utf8::is_ascii_chars_encode_utf8("\x1b[1;32mrsh\x1b[0m:\x1b[1;34m\\w\x1b[0m$ "@);
}

/// A shell starts at `/` with status 0, no history and four variables, shows
/// the banner and its first prompt, and reads a key.
pub proof fn law_start()
    ensures
        started().action == Action::<Seq<u8>>::ReadKey,
        started().state.cwd == seq![0x2fu8],
        started().state.status == 0,
        started().state.editor.history.entries.len() == 0,
        started().state.task is Line,
        started().state.env.len() == 4,
        lookup(started().state.env, text("PATH"@)) == Some(text("/bin"@)),
        lookup(started().state.env, text("SHELL"@)) == Some(text("/bin/rsh"@)),
        lookup(started().state.env, text("HOME"@)) == Some(text("/"@)),
        lookup(started().state.env, text("PS1"@)) == Some(
            text("\x1b[1;32mrsh\x1b[0m:\x1b[1;34m\\w\x1b[0m$ "@),
        ),
        started().out == text("\x1b[1;32mrsh\x1b[0m "@) + text("0.1.0"@) + text(
            " — RustOS Shell\n"@,
        ) + text("Type 'help' for available commands, 'exit' to quit.\n\n"@)
            + started().state.prompt,
{
    lemma_variable_names();
    let none = Seq::<Binding>::empty();
    let path = text("PATH"@);
    let shell = text("SHELL"@);
    let home = text("HOME"@);
    let ps1 = text("PS1"@);
    let p = text("\x1b[1;32mrsh\x1b[0m:\x1b[1;34m\\w\x1b[0m$ "@);
    let e1 = assigned(none, path, text("/bin"@));
    let e2 = assigned(e1, shell, text("/bin/rsh"@));
    let e3 = assigned(e2, home, text("/"@));
    law_get_after_set(none, path, text("/bin"@));
    law_set_keeps_others(none, path, text("/bin"@), shell);
    law_set_keeps_others(none, path, text("/bin"@), home);
    law_set_keeps_others(none, path, text("/bin"@), ps1);
    law_get_after_set(e1, shell, text("/bin/rsh"@));
    law_set_keeps_others(e1, shell, text("/bin/rsh"@), path);
    law_set_keeps_others(e1, shell, text("/bin/rsh"@), home);
    law_set_keeps_others(e1, shell, text("/bin/rsh"@), ps1);
    law_get_after_set(e2, home, text("/"@));
    law_set_keeps_others(e2, home, text("/"@), path);
    law_set_keeps_others(e2, home, text("/"@), shell);
    law_set_keeps_others(e2, home, text("/"@), ps1);
    law_get_after_set(e3, ps1, p);
    law_set_keeps_others(e3, ps1, p, path);
    law_set_keeps_others(e3, ps1, p, shell);
    law_set_keeps_others(e3, ps1, p, home);
}

// Limits -------------------------------------------------------------------------

/// The limits of the shell.
pub proof fn law_limits()
    ensures
        crate::history::MAX_LINE == 256,
        crate::history::HIST_CAP == 20,
        crate::history::HIST_ENTRY == 128,
        crate::path::MAX_CWD == 256,
        crate::path::MAX_JOINED == 512,
        crate::path::MAX_DEPTH == 32,
        crate::path::MAX_COMPONENT == 64,
        crate::vars::MAX_VARS == 16,
        crate::vars::MAX_VAR_NAME == 32,
        crate::vars::MAX_VAR_VAL == 128,
        crate::words::MAX_ARGS == 32,
        crate::words::MAX_ARG == 128,
        crate::prompt::MAX_PROMPT == 128,
        crate::model::MAX_EXPANDED == 512,
        crate::io::PIPE_BUF_SIZE == 4096,
{
}

/// What the shell takes: the answer it waits for, and no other.  Of data that
/// was read there must not be more than the buffer holds.
pub proof fn law_accepted_answers(s: ShellState, x: i64, buf: Seq<u8>)
    ensures
        acceptable(s, Event::Chdir(x)) <==> s.task is Cd,
        acceptable(s, Event::Open(x)) <==> s.task is LsOpen || s.task is CatOpen
            || s.task is SearchOpen,
        acceptable(s, Event::Close) <==> s.task is LsClose || s.task is CatClose
            || s.task is SearchClose,
        acceptable(s, Event::Exec(x)) <==> s.task is Exec || s.task is Run,
        acceptable(s, Event::ReadFile { n: x, buf }) <==> s.task is CatRead && x <= buf.len(),
        acceptable(s, Event::ReadDir { n: x, buf }) <==> s.task is LsRead && (x > 0 ==> listable(
            buf,
            x as int,
            0,
        )),
{
}

/// While a line is read, every key is taken but one that completes a line on
/// which a path is too long.
pub proof fn law_accepted_keys(s: ShellState, b: u8)
    ensures
        acceptable(s, Event::Key(b)) ==> s.task is Line,
        s.task is Line && s.editor.keys != KeyState::Ready ==> acceptable(s, Event::Key(b)),
        s.task is Line && b != 0x0a && b != 0x0d && b != 0x04 ==> acceptable(s, Event::Key(b)),
        s.task is Line && s.editor.line.len() == 0 && b != 0x04 ==> acceptable(s, Event::Key(b)),
        s.task is Line && s.editor.keys == KeyState::Ready && s.editor.line.len() > 0 && (b == 0x0a
            || b == 0x0d) ==> (acceptable(s, Event::Key(b)) <==> line_fits(s, s.editor.line)),
{
    reveal(key_effect);
}

/// Only `cat` and `exec` can be given a path that is too long: one that as seen
/// from the working directory has more than 256 bytes.  An absolute path given
/// to `exec` always fits, and an empty one never.
pub proof fn law_fits(s: ShellState, cmd: Seq<u8>, args: Seq<Seq<u8>>)
    ensures
        cmd != text("cat"@) && cmd != text("exec"@) ==> command_fits(s, cmd, args),
        command_fits(s, text("cat"@), args) <==> forall|i: int|
            0 <= i < args.len() ==> resolved(s.cwd, #[trigger] args[i]).len() <= 256,
        args.len() == 0 ==> command_fits(s, text("exec"@), args),
        args.len() > 0 ==> (command_fits(s, text("exec"@), args) <==> args[0].len() > 0 && (
        args[0][0] == 0x2f || resolved(s.cwd, args[0]).len() <= 256)),
{
    lemma_initials();
    if command_fits(s, text("cat"@), args) {
        assert forall|i: int| 0 <= i < args.len() implies resolved(
            s.cwd,
            #[trigger] args[i],
        ).len() <= 256 by {
            assert(path_fits(s.cwd, args[i]));
        }
    }
}

/// A line fits if it is blank, a comment or an assignment, or if the command on
/// it does.
pub proof fn law_line_fits(s: ShellState, line: Seq<u8>)
    ensures
        ({
            let l = trimmed(line);
            let ws = command_words(s, l);
            line_fits(s, line) <==> l.len() == 0 || l[0] == 0x23 || is_assignment(l) || ws.len()
                == 0 || command_fits(s, ws[0], ws.skip(1))
        }),
{
    reveal(line_fits);
}

/// Enter on a line that is not empty remembers it and then executes it, however
/// it came to be there.
pub proof fn law_enter_runs_the_line(s: ShellState, b: u8)
    requires
        s.editor.keys == KeyState::Ready,
        s.editor.line.len() > 0,
        b == 0x0a || b == 0x0d,
    ensures
        ({
            let line = s.editor.line;
            let ready = ShellState {
                editor: EditorState {
                    history: remembered(s.editor.history, line),
                    ..s.editor
                },
                ..s
            };
            let o = executed(ready, line);
            let step = stepped(s, Event::Key(b));
            &&& o.action matches Some(action) ==> step == (Step {
                state: o.state,
                out: seq![0x0au8] + o.out,
                action,
            })
            &&& o.action is None ==> step == (Step {
                state: prompting(o.state),
                out: seq![0x0au8] + o.out + prompting(o.state).prompt,
                action: Action::<Seq<u8>>::ReadKey,
            })
        }),
{
    reveal(key_effect);
}

/// An assignment sets the variable to the expansion of what stands behind the
/// `=` and does nothing else.
pub proof fn law_assignment_sets(s: ShellState, name: Seq<u8>, value: Seq<u8>)
    requires
        name.len() > 0,
        forall|k: int| 0 <= k < name.len() ==> is_name_byte(#[trigger] name[k]),
        value.len() > 0 ==> !is_space(value[value.len() - 1]),
    ensures
        executed(s, name + seq![0x3du8] + value) == (Outcome {
            state: ShellState {
                env: assigned(s.env, name, unmarked(expanded(s.env, s.status, Mode::Plain, value))),
                ..s
            },
            out: Seq::empty(),
            action: None,
        }),
{
    let l = name + seq![0x3du8] + value;
    let n = name.len() as int;
    assert(is_name_byte(name[0]));
    crate::laws::lemma_already_trimmed(l);
    assert forall|k: int| 0 <= k < n implies l[k] != EQUALS && is_name_byte(#[trigger] l[k]) by {
        assert(l[k] == name[k]);
        assert(is_name_byte(name[k]));
    }
    lemma_first_index_is(l, EQUALS, n);
    assert(l.take(n) =~= name);
    assert(l.skip(n + 1) =~= value);
    reveal(executed);
}

} // verus!
