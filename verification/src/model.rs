//! What the shell does, as functions from state to state.
//!
//! A command either finishes at once or asks for something; what it does then
//! depends on the answer.  Each function here says what is written to the
//! terminal, what is asked for, and what the shell is like afterwards.
use crate::builtins::builtin_names;
use crate::bytes::{
    cut, first_index, is_name_byte, shown, text, trimmed, EQUALS, HASH, NEWLINE, NUL, SLASH, SPACE,
};
use crate::dirents::{listable, listing};
use crate::editor::{editor_ok, fresh_line, key_effect, EditorState, KeyState};
use crate::expand::{expanded, expansion, substitution, unmarked, unquoted, words_of, Mark, Mode};
use crate::history::{no_history, remembered};
use crate::io::{decimal, parsed, signed_decimal};
use crate::machine::{answers, Action, Event, Goal, Task};
use crate::path::{colon_parts, join, resolved, MAX_CWD};
use crate::prompt::{prompt_of, MAX_PROMPT};
use crate::vars::{assigned, env_ok, lookup, unassigned, Binding};
use crate::words::{arguments, spaced};
use vstd::prelude::*;

verus! {

pub const VERSION: &'static str = "0.1.0";

/// Room for a line after expansion.
pub const MAX_EXPANDED: usize = 512;

/// Number of newlines that `clear` writes for terminals that do not know the
/// clear-screen sequence.
pub const SCREEN_LINES: usize = 25;

/// The error code of a system call that the kernel does not implement.
pub const ENOSYS: i64 = 38;

/// The exit status of a command that could not be found or executed.
pub const NOT_RUN: i64 = 127;

/// What `help` shows after its first line.
pub const HELP: &'static str = "
Built-in commands:
  echo [-n] [args...]    Print text
  exit [code]            Exit the shell
  clear                  Clear the screen
  pwd                    Print current directory
  cd [path]              Change directory
  ls [path]              List directory
  cat <file>             Print file contents
  exec <path>            Execute an ELF binary
  env                    Show environment variables
  export NAME=VALUE      Set/export a variable
  unset NAME             Remove a variable
  history                Show command history
  uname                  Show OS information
  type <cmd>             Show how a command is resolved
  true / false           Return 0 / 1
  help                   Show this message

Special variables:  $?  $0  $PATH  $HOME  $SHELL  $PS1
Quoting:            '...'  \"...\"  \\<char>
Keyboard:           Tab  ↑/↓  Ctrl-C  Ctrl-U  Ctrl-D
";

pub type SeqTask = Task<Seq<u8>, Seq<Seq<u8>>>;

pub type SeqGoal = Goal<Seq<u8>, Seq<Seq<u8>>>;

/// What a shell stands for.
#[verifier::ext_equal]
pub struct ShellState {
    pub editor: EditorState,
    /// The current working directory.
    pub cwd: Seq<u8>,
    /// The exit status of the last command.
    pub status: i64,
    /// The shell variables.
    pub env: Seq<Binding>,
    /// The prompt of the line that is being read.
    pub prompt: Seq<u8>,
    pub task: SeqTask,
}

/// What a command does up to its end or its next request: the shell after it,
/// what it writes, and what it asks for, if it is not finished.
#[verifier::ext_equal]
pub struct Outcome {
    pub state: ShellState,
    pub out: Seq<u8>,
    pub action: Option<Action<Seq<u8>>>,
}

/// What the shell does in answer to an event: the shell after it, what it
/// writes, and what it asks for next.
#[verifier::ext_equal]
pub struct Step {
    pub state: ShellState,
    pub out: Seq<u8>,
    pub action: Action<Seq<u8>>,
}

// Building blocks --------------------------------------------------------------

/// A command that ends with `status` after writing `out`.
pub open spec fn finished(s: ShellState, status: i64, out: Seq<u8>) -> Outcome {
    Outcome { state: ShellState { status, task: Task::Line, ..s }, out, action: None }
}

/// A command that asks for `action` and then is in the middle of `task`.
pub open spec fn waiting(s: ShellState, task: SeqTask, action: Action<Seq<u8>>) -> Outcome {
    Outcome { state: ShellState { task, ..s }, out: Seq::empty(), action: Some(action) }
}

/// Nothing happens.
pub open spec fn nothing(s: ShellState) -> Outcome {
    Outcome { state: s, out: Seq::empty(), action: None }
}

/// `o` with `before` written first.
pub open spec fn after_writing(before: Seq<u8>, o: Outcome) -> Outcome {
    Outcome { out: before + o.out, ..o }
}

/// Status 1 if something went wrong, else 0.
pub open spec fn status_of(failed: bool) -> i64 {
    if failed {
        1
    } else {
        0
    }
}

/// `path` with the NUL that the kernel wants at its end.
pub open spec fn terminated(path: Seq<u8>) -> Seq<u8> {
    path.push(NUL)
}

/// `path` as seen from the working directory, when it fits.
pub open spec fn path_fits(cwd: Seq<u8>, path: Seq<u8>) -> bool {
    resolved(cwd, path).len() <= MAX_CWD
}

// Commands that finish at once -------------------------------------------------

/// `n` times the byte `b`.
pub open spec fn repeated(b: u8, n: nat) -> Seq<u8> {
    Seq::new(n, |i: int| b)
}

/// What `echo` writes: its arguments with a space between each two, and a
/// newline unless the first argument is `-n`.
pub open spec fn echoed(args: Seq<Seq<u8>>) -> Seq<u8> {
    if args.len() > 0 && args[0] == text("-n"@) {
        spaced(args.skip(1))
    } else {
        spaced(args).push(NEWLINE)
    }
}

/// Clear the screen.
pub open spec fn cleared() -> Seq<u8> {
    text("\x1b[2J\x1b[H"@) + repeated(NEWLINE, SCREEN_LINES as nat)
}

/// What `help` writes.
pub open spec fn helped() -> Seq<u8> {
    text("rsh "@) + text(VERSION@) + text(" — RustOS Shell\n"@) + text(HELP@)
}

/// What `uname` writes.
pub open spec fn named_system() -> Seq<u8> {
    text("RustOS  rsh "@) + text(VERSION@) + text("  x86_64\n"@)
}

/// `n` in decimal, right-aligned in a column four wide.
pub open spec fn padded(n: nat) -> Seq<u8> {
    repeated(
        SPACE,
        if decimal(n).len() < 4 {
            (4 - decimal(n).len()) as nat
        } else {
            0
        },
    ) + decimal(n)
}

/// What `history` writes for the first `n` entries: one line for each, with
/// its number.
pub open spec fn history_lines(entries: Seq<Seq<u8>>, n: nat) -> Seq<u8>
    decreases n,
{
    if n == 0 {
        Seq::empty()
    } else {
        history_lines(entries, (n - 1) as nat) + (padded(n) + text("  "@) + entries[n - 1]).push(
            NEWLINE,
        )
    }
}

/// What `env` writes: `NAME=value` for each variable, one to a line.
pub open spec fn env_lines(env: Seq<Binding>) -> Seq<u8>
    decreases env.len(),
{
    if env.len() == 0 {
        Seq::empty()
    } else {
        env_lines(env.drop_last()) + (env.last().name.push(EQUALS) + env.last().value).push(NEWLINE)
    }
}

/// The variables after `export arg`: `NAME=VALUE` sets a variable to the value
/// with its `$` expressions replaced, where a literal `$` starts none; a name
/// alone is set to nothing unless it is set.
pub open spec fn exported(env: Seq<Binding>, status: i64, arg: Seq<Mark>) -> Seq<Binding> {
    let bytes = unmarked(arg);
    let k = first_index(bytes, EQUALS) as int;
    if k < bytes.len() {
        assigned(env, bytes.take(k), substitution(env, status, arg.skip(k + 1)))
    } else if lookup(env, bytes) is None {
        assigned(env, bytes, Seq::empty())
    } else {
        env
    }
}

/// The variables after each of `args` has been exported, in order.
pub open spec fn all_exported(env: Seq<Binding>, status: i64, args: Seq<Seq<Mark>>) -> Seq<Binding>
    decreases args.len(),
{
    if args.len() == 0 {
        env
    } else {
        exported(all_exported(env, status, args.drop_last()), status, args.last())
    }
}

/// `export`.
pub open spec fn export(s: ShellState, args: Seq<Seq<Mark>>) -> Outcome {
    let env = all_exported(s.env, s.status, args);
    finished(ShellState { env, ..s }, 0, Seq::empty())
}

/// The variables after each of `args` has been removed, in order.
pub open spec fn all_unset(env: Seq<Binding>, args: Seq<Seq<u8>>) -> Seq<Binding>
    decreases args.len(),
{
    if args.len() == 0 {
        env
    } else {
        unassigned(all_unset(env, args.drop_last()), args.last())
    }
}

/// The code that `exit` exits with: its argument if that is a number, else the
/// status of the last command.
pub open spec fn exit_code(s: ShellState, args: Seq<Seq<u8>>) -> i64 {
    if args.len() > 0 && parsed(args[0]) is Some {
        parsed(args[0])->0
    } else {
        s.status
    }
}

/// `exit`.
pub open spec fn exiting(s: ShellState, args: Seq<Seq<u8>>) -> Outcome {
    waiting(s, Task::Halted, Action::Exit(exit_code(s, args)))
}

// cd ---------------------------------------------------------------------------

/// Where `cd` is asked to go: to its argument, or to `HOME`, or to `/`.
pub open spec fn cd_target(env: Seq<Binding>, args: Seq<Seq<u8>>) -> Seq<u8> {
    if args.len() > 0 {
        args[0]
    } else {
        match lookup(env, text("HOME"@)) {
            Some(home) => home,
            None => text("/"@),
        }
    }
}

/// `cd`.
pub open spec fn cd(s: ShellState, args: Seq<Seq<u8>>) -> Outcome {
    let target = cd_target(s.env, args);
    let path = cut(resolved(s.cwd, target), MAX_CWD as int);
    waiting(s, Task::Cd { target, path }, Action::Chdir(path))
}

/// `cd` once the kernel has answered with `r`.  A kernel that does not
/// implement the call does not stop the shell from tracking the directory.
pub open spec fn cd_done(s: ShellState, target: Seq<u8>, path: Seq<u8>, r: i64) -> Outcome {
    if r >= 0 || r == -ENOSYS {
        finished(ShellState { cwd: path, ..s }, 0, Seq::empty())
    } else {
        finished(s, 1, text("cd: "@) + shown(target) + text(": no such directory\n"@))
    }
}

// ls ---------------------------------------------------------------------------

/// `ls`.
pub open spec fn ls(s: ShellState, args: Seq<Seq<u8>>) -> Outcome {
    let arg = if args.len() > 0 {
        args[0]
    } else {
        text("."@)
    };
    let path = cut(resolved(s.cwd, arg), MAX_CWD as int);
    waiting(s, Task::LsOpen { path }, Action::Open(terminated(path)))
}

/// `ls` once `path` has been opened as `fd`.
pub open spec fn ls_opened(s: ShellState, path: Seq<u8>, fd: i64) -> Outcome {
    if fd < 0 {
        finished(s, 1, text("ls: cannot open '"@) + shown(path) + text("'\n"@))
    } else {
        waiting(s, Task::LsRead { fd }, Action::ReadDir(fd))
    }
}

/// `ls` once the records have been read.
pub open spec fn ls_read(s: ShellState, fd: i64, n: i64, buf: Seq<u8>) -> Outcome {
    waiting(s, Task::LsClose { n, buf }, Action::Close(fd))
}

/// `ls` once the directory has been closed.
pub open spec fn ls_closed(s: ShellState, n: i64, buf: Seq<u8>) -> Outcome {
    if n < 0 {
        finished(s, 1, text("ls: not supported by this kernel (SYS_GETDENTS64 stub)\n"@))
    } else {
        finished(s, 0, listing(buf, n as int, 0))
    }
}

// cat --------------------------------------------------------------------------

/// `cat` from its argument number `pos` on.
pub open spec fn cat_from(s: ShellState, args: Seq<Seq<u8>>, pos: int, failed: bool) -> Outcome {
    if pos >= args.len() {
        finished(s, status_of(failed), Seq::empty())
    } else {
        waiting(
            s,
            Task::CatOpen { args, pos: pos as usize, failed },
            Action::Open(terminated(resolved(s.cwd, args[pos]))),
        )
    }
}

/// `cat`.
pub open spec fn cat(s: ShellState, args: Seq<Seq<u8>>) -> Outcome {
    if args.len() == 0 {
        finished(s, 1, text("cat: usage: cat <file>\n"@))
    } else {
        cat_from(s, args, 0, false)
    }
}

/// `cat` once argument number `pos` has been opened as `fd`.
pub open spec fn cat_opened(
    s: ShellState,
    args: Seq<Seq<u8>>,
    pos: usize,
    failed: bool,
    fd: i64,
) -> Outcome {
    if fd < 0 {
        after_writing(
            text("cat: "@) + shown(args[pos as int]) + text(": cannot open\n"@),
            cat_from(s, args, pos + 1, true),
        )
    } else {
        waiting(s, Task::CatRead { args, pos, failed, fd }, Action::ReadFile(fd))
    }
}

/// `cat` once `n` bytes have been read: they are written and more are asked
/// for, until there are none.
pub open spec fn cat_read(
    s: ShellState,
    args: Seq<Seq<u8>>,
    pos: usize,
    failed: bool,
    fd: i64,
    n: i64,
    buf: Seq<u8>,
) -> Outcome {
    if n <= 0 {
        waiting(s, Task::CatClose { args, pos, failed }, Action::Close(fd))
    } else {
        after_writing(
            buf.take(n as int),
            waiting(s, Task::CatRead { args, pos, failed, fd }, Action::ReadFile(fd)),
        )
    }
}

// exec -------------------------------------------------------------------------

/// The path that `exec arg` executes: an absolute one as it is, any other as
/// seen from the working directory.
pub open spec fn exec_path(cwd: Seq<u8>, arg: Seq<u8>) -> Seq<u8> {
    if arg[0] == SLASH {
        cut(arg, MAX_CWD as int)
    } else {
        resolved(cwd, arg)
    }
}

/// `exec`.
pub open spec fn exec(s: ShellState, args: Seq<Seq<u8>>) -> Outcome {
    if args.len() == 0 {
        finished(s, 1, text("exec: usage: exec <path>\n"@))
    } else {
        waiting(
            s,
            Task::Exec { arg: args[0] },
            Action::Exec(terminated(exec_path(s.cwd, args[0]))),
        )
    }
}

/// `exec` once the binary has ended, or failed to start, with `code`.
pub open spec fn exec_done(s: ShellState, arg: Seq<u8>, code: i64) -> Outcome {
    if code < 0 {
        finished(
            s,
            NOT_RUN,
            text("exec: "@) + shown(arg) + text(": failed (error "@) + signed_decimal(code as int)
                + text(")\n"@),
        )
    } else {
        finished(s, code, Seq::empty())
    }
}

// The search path --------------------------------------------------------------

/// The paths of `cmd` in each of `dirs`, but for those that are too long.
pub open spec fn candidates(dirs: Seq<Seq<u8>>, cmd: Seq<u8>) -> Seq<Seq<u8>>
    decreases dirs.len(),
{
    if dirs.len() == 0 {
        Seq::empty()
    } else {
        let before = candidates(dirs.drop_last(), cmd);
        let path = join(dirs.last(), cmd);
        if path.len() <= MAX_CWD {
            before.push(path)
        } else {
            before
        }
    }
}

/// Where `cmd` is looked for, in this order.
pub open spec fn search_list(env: Seq<Binding>, cmd: Seq<u8>) -> Seq<Seq<u8>> {
    match lookup(env, text("PATH"@)) {
        Some(path) => candidates(colon_parts(path), cmd),
        None => Seq::empty(),
    }
}

/// `type` from its argument number `pos` on; `missing` tells whether an earlier
/// one was not found.
pub open spec fn type_from(s: ShellState, args: Seq<Seq<u8>>, pos: int, missing: bool) -> Outcome
    decreases args.len() - pos,
{
    if pos >= args.len() {
        finished(
            s,
            if args.len() > 0 {
                status_of(missing)
            } else {
                s.status
            },
            Seq::empty(),
        )
    } else {
        let arg = args[pos];
        let list = search_list(s.env, arg);
        if builtin_names().contains(arg) {
            after_writing(
                shown(arg) + text(" is a shell built-in\n"@),
                type_from(s, args, pos + 1, missing),
            )
        } else if list.len() == 0 {
            after_writing(
                shown(arg) + text(": not found\n"@),
                type_from(s, args, pos + 1, true),
            )
        } else {
            waiting(
                s,
                Task::SearchOpen {
                    list,
                    pos: 0,
                    goal: Goal::Type { args, pos: pos as usize, missing },
                },
                Action::Open(terminated(list[0])),
            )
        }
    }
}

/// The search has come to its end without success.
pub open spec fn search_failed(s: ShellState, goal: SeqGoal) -> Outcome {
    match goal {
        Goal::Type { args, pos, missing } => after_writing(
            shown(args[pos as int]) + text(": not found\n"@),
            type_from(s, args, pos + 1, true),
        ),
        Goal::Run { cmd } => finished(s, NOT_RUN, shown(cmd) + text(": command not found\n"@)),
    }
}

/// The search has found `found`, and that has been closed again.
pub open spec fn search_found(s: ShellState, found: Seq<u8>, goal: SeqGoal) -> Outcome {
    match goal {
        Goal::Type { args, pos, missing } => after_writing(
            shown(args[pos as int]) + text(" is "@) + shown(found) + text("\n"@),
            type_from(s, args, pos + 1, missing),
        ),
        Goal::Run { cmd } => waiting(s, Task::Run { cmd }, Action::Exec(terminated(found))),
    }
}

/// The search goes on with `list[pos]`.
pub open spec fn search(s: ShellState, list: Seq<Seq<u8>>, pos: int, goal: SeqGoal) -> Outcome {
    if pos < list.len() {
        waiting(
            s,
            Task::SearchOpen { list, pos: pos as usize, goal },
            Action::Open(terminated(list[pos])),
        )
    } else {
        search_failed(s, goal)
    }
}

/// The search once `list[pos]` has been opened as `fd`.
pub open spec fn search_opened(
    s: ShellState,
    list: Seq<Seq<u8>>,
    pos: usize,
    goal: SeqGoal,
    fd: i64,
) -> Outcome {
    if fd >= 0 {
        waiting(s, Task::SearchClose { found: list[pos as int], goal }, Action::Close(fd))
    } else {
        search(s, list, pos + 1, goal)
    }
}

/// An external command: an absolute path is executed as it is, any other name
/// is searched for.
pub open spec fn external(s: ShellState, cmd: Seq<u8>) -> Outcome {
    if cmd.len() > 0 && cmd[0] == SLASH {
        waiting(s, Task::Run { cmd }, Action::Exec(terminated(cut(cmd, MAX_CWD as int))))
    } else {
        search(s, search_list(s.env, cmd), 0, Goal::Run { cmd })
    }
}

/// An external command once it has ended, or failed to start, with `code`.
pub open spec fn run_done(s: ShellState, cmd: Seq<u8>, code: i64) -> Outcome {
    if code < 0 {
        finished(
            s,
            NOT_RUN,
            shown(cmd) + text(": exec failed ("@) + signed_decimal(code as int) + text(")\n"@),
        )
    } else {
        finished(s, code, Seq::empty())
    }
}

// Command lines ----------------------------------------------------------------

/// The command `cmd` with arguments `args`.
#[verifier::opaque]
pub open spec fn dispatched(s: ShellState, cmd: Seq<u8>, args: Seq<Seq<u8>>) -> Outcome {
    if cmd == text("echo"@) {
        finished(s, 0, echoed(args))
    } else if cmd == text("exit"@) {
        exiting(s, args)
    } else if cmd == text("clear"@) {
        finished(s, 0, cleared())
    } else if cmd == text("help"@) {
        finished(s, 0, helped())
    } else if cmd == text("history"@) {
        let entries = s.editor.history.entries;
        finished(s, 0, history_lines(entries, entries.len()))
    } else if cmd == text("pwd"@) {
        finished(s, 0, s.cwd.push(NEWLINE))
    } else if cmd == text("cd"@) {
        cd(s, args)
    } else if cmd == text("ls"@) {
        ls(s, args)
    } else if cmd == text("cat"@) {
        cat(s, args)
    } else if cmd == text("env"@) {
        finished(s, 0, env_lines(s.env))
    } else if cmd == text("export"@) {
        export(s, unquoted(args))
    } else if cmd == text("unset"@) {
        let env = all_unset(s.env, args);
        finished(ShellState { env, ..s }, 0, Seq::empty())
    } else if cmd == text("exec"@) {
        exec(s, args)
    } else if cmd == text("uname"@) {
        finished(s, 0, named_system())
    } else if cmd == text("true"@) {
        finished(s, 0, Seq::empty())
    } else if cmd == text("false"@) {
        finished(s, 1, Seq::empty())
    } else if cmd == text("type"@) {
        type_from(s, args, 0, false)
    } else if cmd == text("source"@) {
        finished(s, 1, text("source: not yet implemented\n"@))
    } else {
        external(s, cmd)
    }
}

/// Every path that the command opens or executes fits.  Only `cat` and `exec`
/// take paths as long as the command line has them.
pub open spec fn command_fits(s: ShellState, cmd: Seq<u8>, args: Seq<Seq<u8>>) -> bool {
    &&& cmd == text("cat"@) ==> forall|i: int|
        0 <= i < args.len() ==> path_fits(s.cwd, #[trigger] args[i])
    &&& cmd == text("exec"@) && args.len() > 0 ==> args[0].len() > 0 && (args[0][0] == SLASH
        || path_fits(s.cwd, args[0]))
}

/// Whether the trimmed line `l` is a comment or holds nothing.
pub open spec fn no_command(l: Seq<u8>) -> bool {
    l.len() == 0 || l[0] == HASH
}

/// Whether the trimmed line `l` is a `NAME=value` assignment.
pub open spec fn is_assignment(l: Seq<u8>) -> bool {
    let k = first_index(l, EQUALS) as int;
    &&& 0 < k < l.len()
    &&& forall|i: int| 0 <= i < k ==> is_name_byte(#[trigger] l[i])
}

/// The command and its arguments on the trimmed line `l`, with their marks.
#[verifier::opaque]
pub open spec fn command_marks(s: ShellState, l: Seq<u8>) -> Seq<Seq<Mark>> {
    arguments(cut(expanded(s.env, s.status, Mode::Plain, l), MAX_EXPANDED as int))
}

/// The command and its arguments on the trimmed line `l`.
pub open spec fn command_words(s: ShellState, l: Seq<u8>) -> Seq<Seq<u8>> {
    words_of(command_marks(s, l))
}

/// The command that `ms` name, with the other words as its arguments.  `export`
/// sees which of the bytes are literal.
pub open spec fn run_marked(s: ShellState, ms: Seq<Seq<Mark>>) -> Outcome {
    let ws = words_of(ms);
    if ws[0] == text("export"@) {
        export(s, ms.skip(1))
    } else {
        dispatched(s, ws[0], ws.skip(1))
    }
}

/// The command line `line`.
#[verifier::opaque]
pub open spec fn executed(s: ShellState, line: Seq<u8>) -> Outcome {
    let l = trimmed(line);
    if no_command(l) {
        nothing(s)
    } else if is_assignment(l) {
        let k = first_index(l, EQUALS) as int;
        let env = assigned(s.env, l.take(k), expansion(s.env, s.status, l.skip(k + 1)));
        nothing(ShellState { env, ..s })
    } else {
        let ms = command_marks(s, l);
        if ms.len() == 0 {
            nothing(s)
        } else {
            run_marked(s, ms)
        }
    }
}

/// Every path on the command line `line` fits.
#[verifier::opaque]
pub open spec fn line_fits(s: ShellState, line: Seq<u8>) -> bool {
    let l = trimmed(line);
    let ws = command_words(s, l);
    no_command(l) || is_assignment(l) || ws.len() == 0 || command_fits(s, ws[0], ws.skip(1))
}

// The shell as a whole ---------------------------------------------------------

/// The shell with a new prompt.
pub open spec fn prompting(s: ShellState) -> ShellState {
    ShellState {
        editor: fresh_line(s.editor),
        prompt: cut(prompt_of(s.env, s.cwd), MAX_PROMPT as int),
        task: Task::Line,
        ..s
    }
}

/// After a command has finished, the next line is read.
pub open spec fn settled(o: Outcome) -> Step {
    match o.action {
        Some(action) => Step { state: o.state, out: o.out, action },
        None => Step {
            state: prompting(o.state),
            out: o.out + prompting(o.state).prompt,
            action: Action::ReadKey,
        },
    }
}

/// The shell once `line` is in its history.
pub open spec fn remembering(s: ShellState, line: Seq<u8>) -> ShellState {
    ShellState {
        editor: EditorState { history: remembered(s.editor.history, line), ..s.editor },
        ..s
    }
}

/// A key while a line is read.  A complete line that is not empty goes into the
/// history and is executed.
pub open spec fn key_pressed(s: ShellState, b: u8) -> Step {
    let k = key_effect(s.editor, b, s.prompt);
    let typed = ShellState { editor: k.state, ..s };
    if !k.done {
        Step { state: typed, out: k.out, action: Action::ReadKey }
    } else if k.state.line.len() == 0 {
        settled(after_writing(k.out, nothing(typed)))
    } else {
        settled(after_writing(k.out, executed(remembering(typed, k.state.line), k.state.line)))
    }
}

/// A command goes on with the answer it waited for.
#[verifier::opaque]
pub open spec fn resumed(s: ShellState, event: Event<Seq<u8>>) -> Outcome {
    let task = s.task;
    let s = ShellState { task: Task::Line, ..s };
    match (task, event) {
        (Task::Cd { target, path }, Event::Chdir(r)) => cd_done(s, target, path, r),
        (Task::LsOpen { path }, Event::Open(fd)) => ls_opened(s, path, fd),
        (Task::LsRead { fd }, Event::ReadDir { n, buf }) => ls_read(s, fd, n, buf),
        (Task::LsClose { n, buf }, Event::Close) => ls_closed(s, n, buf),
        (Task::CatOpen { args, pos, failed }, Event::Open(fd)) => cat_opened(
            s,
            args,
            pos,
            failed,
            fd,
        ),
        (Task::CatRead { args, pos, failed, fd }, Event::ReadFile { n, buf }) => cat_read(
            s,
            args,
            pos,
            failed,
            fd,
            n,
            buf,
        ),
        (Task::CatClose { args, pos, failed }, Event::Close) => cat_from(
            s,
            args,
            pos + 1,
            failed,
        ),
        (Task::Exec { arg }, Event::Exec(code)) => exec_done(s, arg, code),
        (Task::SearchOpen { list, pos, goal }, Event::Open(fd)) => search_opened(
            s,
            list,
            pos,
            goal,
            fd,
        ),
        (Task::SearchClose { found, goal }, Event::Close) => search_found(s, found, goal),
        (Task::Run { cmd }, Event::Exec(code)) => run_done(s, cmd, code),
        _ => nothing(s),
    }
}

/// What the shell does in answer to `event`.
pub open spec fn stepped(s: ShellState, event: Event<Seq<u8>>) -> Step {
    match event {
        Event::Key(b) => key_pressed(s, b),
        _ => settled(resumed(s, event)),
    }
}

/// Whether the shell can take `event`: it answers what the shell waits for, the
/// kernel has not claimed to have written past the buffer, and no path on a
/// command line is too long.
pub open spec fn acceptable(s: ShellState, event: Event<Seq<u8>>) -> bool {
    &&& answers(s.task, event)
    &&& match event {
        Event::Key(b) => {
            let k = key_effect(s.editor, b, s.prompt);
            k.done && k.state.line.len() > 0 ==> line_fits(s, k.state.line)
        },
        Event::ReadDir { n, buf } => n > 0 ==> listable(buf, n as int, 0),
        Event::ReadFile { n, buf } => n <= buf.len(),
        _ => true,
    }
}

/// The variables that every shell starts with.
pub open spec fn initial_env() -> Seq<Binding> {
    let e = Seq::<Binding>::empty();
    let e = assigned(e, text("PATH"@), text("/bin"@));
    let e = assigned(e, text("SHELL"@), text("/bin/rsh"@));
    let e = assigned(e, text("HOME"@), text("/"@));
    assigned(e, text("PS1"@), text("\x1b[1;32mrsh\x1b[0m:\x1b[1;34m\\w\x1b[0m$ "@))
}

/// A shell before its first prompt.
pub open spec fn initial_state() -> ShellState {
    ShellState {
        editor: EditorState {
            line: Seq::empty(),
            history: no_history(),
            keys: KeyState::Ready,
        },
        cwd: seq![SLASH],
        status: 0,
        env: initial_env(),
        prompt: Seq::empty(),
        task: Task::Line,
    }
}

/// What a shell shows when it starts.
pub open spec fn banner() -> Seq<u8> {
    text("\x1b[1;32mrsh\x1b[0m "@) + text(VERSION@) + text(" — RustOS Shell\n"@) + text(
        "Type 'help' for available commands, 'exit' to quit.\n\n"@,
    )
}

/// The start of a shell: the banner and the first prompt.
pub open spec fn started() -> Step {
    settled(after_writing(banner(), nothing(initial_state())))
}

// Limits -----------------------------------------------------------------------

/// A working directory: an absolute path that fits.
pub open spec fn directory_ok(path: Seq<u8>) -> bool {
    0 < path.len() <= MAX_CWD && path[0] == SLASH
}

/// What holds of `goal` while the search is on.
pub open spec fn goal_ok(goal: SeqGoal) -> bool {
    goal matches Goal::Type { args, pos, .. } ==> pos < args.len()
}

/// What holds in the middle of a task.
pub open spec fn task_ok(s: ShellState) -> bool {
    match s.task {
        Task::Cd { path, .. } => directory_ok(path),
        Task::LsClose { n, buf } => n > 0 ==> listable(buf, n as int, 0),
        Task::CatOpen { args, pos, .. } => pos < args.len() && files_fit(s.cwd, args),
        Task::CatRead { args, pos, .. } => pos < args.len() && files_fit(s.cwd, args),
        Task::CatClose { args, pos, .. } => pos < args.len() && files_fit(s.cwd, args),
        Task::SearchOpen { list, pos, goal } => pos < list.len() && goal_ok(goal),
        Task::SearchClose { goal, .. } => goal_ok(goal),
        _ => true,
    }
}

/// Every one of `args` fits as seen from `cwd`.
pub open spec fn files_fit(cwd: Seq<u8>, args: Seq<Seq<u8>>) -> bool {
    forall|i: int| 0 <= i < args.len() ==> path_fits(cwd, #[trigger] args[i])
}

/// Limits that every shell keeps.
pub open spec fn shell_ok(s: ShellState) -> bool {
    &&& editor_ok(s.editor)
    &&& directory_ok(s.cwd)
    &&& env_ok(s.env)
    &&& s.prompt.len() <= MAX_PROMPT
    &&& task_ok(s)
}

} // verus!
