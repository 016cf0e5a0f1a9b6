//! Laws of the shell as a whole.
use crate::builtins::{builtin_names, lemma_initials};
use crate::bytes::{
    cut, first_index, is_name_byte, is_space, lemma_first_index, lemma_first_index_is, shown, text,
    trimmed, BACKSLASH, DOLLAR, DOUBLE_QUOTE, EQUALS, HASH, NEWLINE, SINGLE_QUOTE, SLASH, SPACE,
};
use crate::editor::{
    commits, key_effect, law_key_keeps_entries, printable, EditorState, KeyState, CTRL_C, CTRL_D,
};
use crate::expand::{
    expanded, expansion, law_double_quotes, law_escape, law_literal_prefix, law_single_quotes,
    law_substitution_keeps, literal, marked, substitution, unmarked, unquoted, words_of, Mark, Mode,
};
use crate::history::{remembered, MAX_LINE};
use crate::machine::{answers, Action, Event, Goal, Task};
use crate::model::{
    after_writing, all_exported, cat, cat_from, cd, cd_target, command_marks, command_words,
    dispatched, executed, export, external, is_assignment, key_pressed, prompting, remembering,
    resumed, search_list, settled, stepped, terminated, type_from, Outcome, SeqGoal, SeqTask,
    ShellState, Step, ENOSYS, MAX_EXPANDED, NOT_RUN,
};
use crate::path::{resolved, MAX_CWD};
use crate::vars::{law_get_after_set, lookup, MAX_VARS, MAX_VAR_NAME, MAX_VAR_VAL};
use crate::words::{
    law_first_word, law_leading_space, law_split_undoes_join, plain_word, shortened, spaced,
    word_mark, words, MAX_ARG, MAX_ARGS,
};
use vstd::prelude::*;

verus! {

// What a command leaves alone ----------------------------------------------------

/// `after` differs from `before` in the exit status and the task at most.
pub open spec fn same_but_status(before: ShellState, after: ShellState) -> bool {
    after == (ShellState { status: after.status, task: after.task, ..before })
}

proof fn lemma_type_keeps(s: ShellState, args: Seq<Seq<u8>>, pos: int, missing: bool)
    ensures
        same_but_status(s, type_from(s, args, pos, missing).state),
        in_step(type_from(s, args, pos, missing)),
    decreases args.len() - pos,
{
    if pos < args.len() {
        lemma_type_keeps(s, args, pos + 1, missing);
        lemma_type_keeps(s, args, pos + 1, true);
    }
}

/// A command leaves the line editor and its history, the working directory and
/// the prompt alone, and all but `export` and `unset` leave the variables
/// alone.  (`cd` changes the directory only once the kernel has answered.)
pub proof fn law_command_keeps(s: ShellState, cmd: Seq<u8>, args: Seq<Seq<u8>>)
    ensures
        dispatched(s, cmd, args).state.editor == s.editor,
        dispatched(s, cmd, args).state.cwd == s.cwd,
        dispatched(s, cmd, args).state.prompt == s.prompt,
        cmd != text("export"@) && cmd != text("unset"@) ==> same_but_status(
            s,
            dispatched(s, cmd, args).state,
        ),
{
    reveal(dispatched);
    lemma_type_keeps(s, args, 0, false);
}

/// Going on with a command leaves the line editor, the variables and the prompt
/// alone, and all but `cd` leave the working directory alone.
pub proof fn law_resumed_keeps(s: ShellState, event: Event<Seq<u8>>)
    ensures
        resumed(s, event).state.editor == s.editor,
        resumed(s, event).state.env == s.env,
        resumed(s, event).state.prompt == s.prompt,
        !(s.task is Cd) ==> resumed(s, event).state.cwd == s.cwd,
{
    reveal(resumed);
    let b = ShellState { task: Task::Line, ..s };
    match s.task {
        Task::SearchOpen { goal: Goal::Type { args, pos, missing }, .. } => {
            lemma_type_keeps(b, args, pos + 1, missing);
            lemma_type_keeps(b, args, pos + 1, true);
        },
        Task::SearchClose { goal: Goal::Type { args, pos, missing }, .. } => {
            lemma_type_keeps(b, args, pos + 1, missing);
        },
        _ => {},
    }
}

// Requests and answers -----------------------------------------------------------

/// Whether `event` is an answer to `action`.
pub open spec fn replies(action: Action<Seq<u8>>, event: Event<Seq<u8>>) -> bool {
    match event {
        Event::Key(_) => action is ReadKey,
        Event::Chdir(_) => action is Chdir,
        Event::Open(_) => action is Open,
        Event::Close => action is Close,
        Event::ReadDir { .. } => action is ReadDir,
        Event::ReadFile { .. } => action is ReadFile,
        Event::Exec(_) => action is Exec,
    }
}

/// What the shell asks for is what it then waits for.
pub open spec fn fits_task(action: Action<Seq<u8>>, task: SeqTask) -> bool {
    forall|event: Event<Seq<u8>>| #[trigger] answers(task, event) == replies(action, event)
}

/// A command that has finished is back at reading lines; one that has not waits
/// for what it asked for.
pub open spec fn in_step(o: Outcome) -> bool {
    match o.action {
        Some(action) => fits_task(action, o.state.task),
        None => o.state.task is Line,
    }
}

proof fn lemma_dispatched_in_step(s: ShellState, cmd: Seq<u8>, args: Seq<Seq<u8>>)
    ensures
        in_step(dispatched(s, cmd, args)),
{
    reveal(dispatched);
    lemma_type_keeps(s, args, 0, false);
}

proof fn lemma_resumed_in_step(s: ShellState, event: Event<Seq<u8>>)
    ensures
        in_step(resumed(s, event)),
{
    reveal(resumed);
    let b = ShellState { task: Task::Line, ..s };
    match s.task {
        Task::SearchOpen { goal: Goal::Type { args, pos, missing }, .. } => {
            lemma_type_keeps(b, args, pos + 1, missing);
            lemma_type_keeps(b, args, pos + 1, true);
        },
        Task::SearchClose { goal: Goal::Type { args, pos, missing }, .. } => {
            lemma_type_keeps(b, args, pos + 1, missing);
        },
        _ => {},
    }
}

proof fn lemma_executed_in_step(s: ShellState, line: Seq<u8>)
    requires
        s.task is Line,
    ensures
        in_step(executed(s, line)),
{
    reveal(executed);
    let ws = command_words(s, trimmed(line));
    if ws.len() > 0 {
        lemma_dispatched_in_step(s, ws[0], ws.skip(1));
    }
}

/// After every step the shell waits for exactly the answers to what it asked
/// for.
pub proof fn law_waits_for_its_answer(s: ShellState, event: Event<Seq<u8>>)
    requires
        answers(s.task, event),
    ensures
        fits_task(stepped(s, event).action, stepped(s, event).state.task),
{
    match event {
        Event::Key(b) => {
            let k = key_effect(s.editor, b, s.prompt);
            let typed = ShellState { editor: k.state, ..s };
            lemma_executed_in_step(remembering(typed, k.state.line), k.state.line);
        },
        _ => {
            lemma_resumed_in_step(s, event);
        },
    }
}

// Series of events ---------------------------------------------------------------

/// What the shell does in answer to a series of events: the shell after them,
/// everything it writes, and what it asks for in the end.
pub open spec fn after_events(
    s: ShellState,
    first: Action<Seq<u8>>,
    events: Seq<Event<Seq<u8>>>,
) -> Step
    decreases events.len(),
{
    if events.len() == 0 {
        Step { state: s, out: Seq::empty(), action: first }
    } else {
        let before = after_events(s, first, events.drop_last());
        let last = stepped(before.state, events.last());
        Step { state: last.state, out: before.out + last.out, action: last.action }
    }
}

/// What the shell asks for along a series of events: the request that each of
/// them answers, in order.
pub open spec fn requests(
    s: ShellState,
    first: Action<Seq<u8>>,
    events: Seq<Event<Seq<u8>>>,
) -> Seq<Action<Seq<u8>>> {
    Seq::new(events.len(), |i: int| after_events(s, first, events.take(i)).action)
}

pub(crate) proof fn lemma_one_event(s: ShellState, first: Action<Seq<u8>>, event: Event<Seq<u8>>)
    ensures
        after_events(s, first, seq![event]) == stepped(s, event),
        requests(s, first, seq![event]) == seq![first],
{
    reveal_with_fuel(after_events, 2);
    assert(seq![event].drop_last() =~= Seq::<Event<Seq<u8>>>::empty());
    let none = Seq::<u8>::empty();
    assert(none + stepped(s, event).out =~= stepped(s, event).out);
    assert(seq![event].take(0) =~= Seq::<Event<Seq<u8>>>::empty());
    assert(requests(s, first, seq![event]) =~= seq![first]);
}

/// One series of events after another.
pub(crate) proof fn lemma_events_join(
    s: ShellState,
    first: Action<Seq<u8>>,
    a: Seq<Event<Seq<u8>>>,
    b: Seq<Event<Seq<u8>>>,
)
    ensures
        ({
            let before = after_events(s, first, a);
            let after = after_events(before.state, before.action, b);
            &&& after_events(s, first, a + b) == (Step {
                state: after.state,
                out: before.out + after.out,
                action: after.action,
            })
            &&& requests(s, first, a + b) == requests(s, first, a) + requests(
                before.state,
                before.action,
                b,
            )
        }),
    decreases b.len(),
{
    let before = after_events(s, first, a);
    if b.len() == 0 {
        assert(a + b =~= a);
        assert(before.out + Seq::<u8>::empty() =~= before.out);
        assert(requests(s, first, a + b) =~= requests(s, first, a) + requests(
            before.state,
            before.action,
            b,
        ));
    } else {
        let front = b.drop_last();
        lemma_events_join(s, first, a, front);
        assert((a + b).drop_last() =~= a + front);
        let middle = after_events(before.state, before.action, front);
        let last = stepped(middle.state, b.last());
        assert(before.out + middle.out + last.out =~= before.out + (middle.out + last.out));
        let r = requests(s, first, a + b);
        let ra = requests(s, first, a);
        let rb = requests(before.state, before.action, b);
        let joined = requests(s, first, a + front);
        assert forall|i: int| 0 <= i < r.len() implies r[i] == (ra + rb)[i] by {
            if i < a.len() + front.len() {
                assert((a + b).take(i) =~= (a + front).take(i));
                assert(r[i] == joined[i]);
                if i >= a.len() {
                    assert(b.take(i - a.len()) =~= front.take(i - a.len()));
                }
            } else {
                assert((a + b).take(i) =~= a + front);
                assert(b.take(i - a.len()) =~= front);
            }
        }
        assert(r =~= ra + rb);
    }
}

/// Failed attempts to open a file.
pub open spec fn failed_opens(fds: Seq<i64>) -> Seq<Event<Seq<u8>>> {
    Seq::new(fds.len(), |i: int| Event::Open(fds[i]))
}

/// While files on the search path cannot be opened, the search goes on to the
/// next one, and nothing else happens.
pub proof fn law_search_goes_on(
    s: ShellState,
    list: Seq<Seq<u8>>,
    pos: usize,
    goal: SeqGoal,
    fds: Seq<i64>,
)
    requires
        s.task == (Task::SearchOpen { list, pos, goal }),
        pos + fds.len() < list.len() <= usize::MAX,
        forall|i: int| 0 <= i < fds.len() ==> #[trigger] fds[i] < 0,
    ensures
        ({
            let here = pos + fds.len();
            let first = Action::Open(terminated(list[pos as int]));
            let asked = Action::Open(terminated(list[here]));
            after_events(s, first, failed_opens(fds)) == (Step {
                state: ShellState {
                    task: Task::SearchOpen { list, pos: here as usize, goal },
                    ..s
                },
                out: Seq::empty(),
                action: asked,
            })
        }),
    decreases fds.len(),
{
    let events = failed_opens(fds);
    let first = Action::Open(terminated(list[pos as int]));
    if fds.len() > 0 {
        let fewer = fds.drop_last();
        assert forall|i: int| 0 <= i < fewer.len() implies #[trigger] fewer[i] < 0 by {
            assert(fewer[i] == fds[i]);
        }
        law_search_goes_on(s, list, pos, goal, fewer);
        assert(events.drop_last() =~= failed_opens(fewer));
        assert(fds[fds.len() - 1] < 0);
        reveal(resumed);
        assert(after_events(s, first, events).out =~= Seq::<u8>::empty());
    }
}

/// A command that is searched for is executed at the first place on the search
/// path where it can be opened: the places before it are passed over.
pub proof fn law_first_match_is_executed(
    s: ShellState,
    list: Seq<Seq<u8>>,
    cmd: Seq<u8>,
    fds: Seq<i64>,
    fd: i64,
)
    requires
        s.task == (Task::SearchOpen { list, pos: 0, goal: Goal::Run { cmd } }),
        fds.len() < list.len() <= usize::MAX,
        forall|i: int| 0 <= i < fds.len() ==> #[trigger] fds[i] < 0,
        fd >= 0,
    ensures
        ({
            let first = Action::Open(terminated(list[0]));
            let opened = failed_opens(fds).push(Event::Open(fd));
            let found = after_events(s, first, opened);
            let closed = after_events(s, first, opened.push(Event::Close));
            &&& found.action == Action::<Seq<u8>>::Close(fd)
            &&& closed.action == Action::Exec(terminated(list[fds.len() as int]))
            &&& closed.state == (ShellState { task: Task::Run { cmd }, ..s })
            &&& closed.out.len() == 0
        }),
{
    let first = Action::Open(terminated(list[0]));
    let opened = failed_opens(fds).push(Event::Open(fd));
    law_search_goes_on(s, list, 0, Goal::Run { cmd }, fds);
    assert(opened.drop_last() =~= failed_opens(fds));
    assert(opened.push(Event::Close).drop_last() =~= opened);
    reveal(resumed);
    let found = after_events(s, first, opened);
    assert(found.out =~= Seq::<u8>::empty());
    let closed = after_events(s, first, opened.push(Event::Close));
    assert(closed.out =~= Seq::<u8>::empty());
}

/// A command that can be opened nowhere on the search path is reported, ends
/// with status 127, and is not executed: the shell prompts for the next line.
pub proof fn law_command_not_found(s: ShellState, list: Seq<Seq<u8>>, cmd: Seq<u8>, fds: Seq<i64>)
    requires
        s.task == (Task::SearchOpen { list, pos: 0, goal: Goal::Run { cmd } }),
        fds.len() == list.len() <= usize::MAX,
        list.len() > 0,
        forall|i: int| 0 <= i < fds.len() ==> #[trigger] fds[i] < 0,
    ensures
        ({
            let first = Action::Open(terminated(list[0]));
            let done = after_events(s, first, failed_opens(fds));
            let idle = ShellState { status: 127, task: Task::Line, ..s };
            &&& done.action == Action::<Seq<u8>>::ReadKey
            &&& done.state == prompting(idle)
            &&& done.out == shown(cmd) + text(": command not found\n"@) + prompting(idle).prompt
        }),
{
    let first = Action::Open(terminated(list[0]));
    let events = failed_opens(fds);
    let fewer = fds.drop_last();
    assert forall|i: int| 0 <= i < fewer.len() implies #[trigger] fewer[i] < 0 by {
        assert(fewer[i] == fds[i]);
    }
    law_search_goes_on(s, list, 0, Goal::Run { cmd }, fewer);
    assert(events.drop_last() =~= failed_opens(fewer));
    assert(fds[fds.len() - 1] < 0);
    reveal(resumed);
    let done = after_events(s, first, events);
    let idle = ShellState { status: NOT_RUN, task: Task::Line, ..s };
    let message = shown(cmd) + text(": command not found\n"@);
    assert(done.out =~= message + prompting(idle).prompt);
}

/// A piece of a file, as the kernel hands it over.
pub struct Chunk {
    pub n: i64,
    pub buf: Seq<u8>,
}

/// The events that hand over `chunks`.
pub open spec fn reads(chunks: Seq<Chunk>) -> Seq<Event<Seq<u8>>> {
    Seq::new(chunks.len(), |i: int| Event::ReadFile { n: chunks[i].n, buf: chunks[i].buf })
}

/// The contents of `chunks`.
pub open spec fn contents(chunks: Seq<Chunk>) -> Seq<u8>
    decreases chunks.len(),
{
    if chunks.len() == 0 {
        Seq::empty()
    } else {
        contents(chunks.drop_last()) + chunks.last().buf.take(chunks.last().n as int)
    }
}

/// `cat` writes what it reads, all of it and in order, and asks for more until
/// there is no more.
pub proof fn law_cat_writes_what_it_reads(
    s: ShellState,
    args: Seq<Seq<u8>>,
    pos: usize,
    failed: bool,
    fd: i64,
    chunks: Seq<Chunk>,
)
    requires
        s.task == (SeqTask::CatRead { args, pos, failed, fd }),
        forall|i: int| 0 <= i < chunks.len() ==> (#[trigger] chunks[i]).n > 0,
    ensures
        after_events(s, Action::ReadFile(fd), reads(chunks)) == (Step {
            state: s,
            out: contents(chunks),
            action: Action::ReadFile(fd),
        }),
    decreases chunks.len(),
{
    if chunks.len() > 0 {
        let fewer = chunks.drop_last();
        assert forall|i: int| 0 <= i < fewer.len() implies (#[trigger] fewer[i]).n > 0 by {
            assert(fewer[i] == chunks[i]);
        }
        law_cat_writes_what_it_reads(s, args, pos, failed, fd, fewer);
        assert(reads(chunks).drop_last() =~= reads(fewer));
        let last = chunks[chunks.len() - 1];
        assert(last.n > 0);
        reveal(resumed);
        let piece = last.buf.take(last.n as int);
        assert(piece + Seq::<u8>::empty() =~= piece);
    }
}

/// What the kernel answers for one argument of `cat`: the file it opened, or a
/// negative number; if it did open one, the pieces that are read from it and
/// the answer that ends the reading.
pub struct CatFile {
    pub fd: i64,
    pub chunks: Seq<Chunk>,
    pub end: Chunk,
}

/// Whether the pieces hold something and the last answer says that there is no
/// more.
pub open spec fn cat_file_ok(f: CatFile) -> bool {
    &&& forall|i: int| 0 <= i < f.chunks.len() ==> (#[trigger] f.chunks[i]).n > 0
    &&& f.end.n <= 0
}

/// The answers for one argument, in order.
pub open spec fn file_events(f: CatFile) -> Seq<Event<Seq<u8>>> {
    if f.fd < 0 {
        seq![Event::Open(f.fd)]
    } else {
        seq![Event::Open(f.fd)] + reads(f.chunks.push(f.end)) + seq![Event::Close]
    }
}

/// What `cat` asks for, for the argument `arg`: to open the file; if that went
/// well, to read from it as long as there is something, and to close it once.
pub open spec fn file_requests(cwd: Seq<u8>, arg: Seq<u8>, f: CatFile) -> Seq<Action<Seq<u8>>> {
    let opening = Action::Open(resolved(cwd, arg) + seq![0u8]);
    if f.fd < 0 {
        seq![opening]
    } else {
        seq![opening] + Seq::new(f.chunks.len() + 1, |i: int| Action::ReadFile(f.fd)) + seq![
            Action::Close(f.fd),
        ]
    }
}

/// What `cat` writes for the argument `arg`: the contents of the file, or that
/// it cannot be opened.
pub open spec fn file_output(arg: Seq<u8>, f: CatFile) -> Seq<u8> {
    if f.fd < 0 {
        text("cat: "@) + shown(arg) + text(": cannot open\n"@)
    } else {
        contents(f.chunks)
    }
}

/// The answers for all of `files`, in order.
pub open spec fn all_events(files: Seq<CatFile>) -> Seq<Event<Seq<u8>>>
    decreases files.len(),
{
    if files.len() == 0 {
        Seq::empty()
    } else {
        all_events(files.drop_last()) + file_events(files.last())
    }
}

/// What `cat` asks for, for the first of `args` that `files` are about.
pub open spec fn all_requests(cwd: Seq<u8>, args: Seq<Seq<u8>>, files: Seq<CatFile>) -> Seq<
    Action<Seq<u8>>,
>
    decreases files.len(),
{
    if files.len() == 0 {
        Seq::empty()
    } else {
        all_requests(cwd, args, files.drop_last()) + file_requests(
            cwd,
            args[files.len() - 1],
            files.last(),
        )
    }
}

/// What `cat` writes for the first of `args` that `files` are about.
pub open spec fn all_output(args: Seq<Seq<u8>>, files: Seq<CatFile>) -> Seq<u8>
    decreases files.len(),
{
    if files.len() == 0 {
        Seq::empty()
    } else {
        all_output(args, files.drop_last()) + file_output(args[files.len() - 1], files.last())
    }
}

/// Whether one of `files` could not be opened.
pub open spec fn open_failed(files: Seq<CatFile>) -> bool {
    exists|i: int| 0 <= i < files.len() && (#[trigger] files[i]).fd < 0
}

proof fn lemma_cat_open(s: ShellState, args: Seq<Seq<u8>>, pos: int, failed: bool, fd: i64)
    requires
        0 <= pos < args.len() <= usize::MAX,
    ensures
        ({
            let now = settled(cat_from(s, args, pos, failed));
            let next = settled(cat_from(s, args, pos + 1, true));
            let opened = stepped(now.state, Event::Open(fd));
            &&& now.action == Action::Open(resolved(s.cwd, args[pos]) + seq![0u8])
            &&& fd < 0 ==> opened == (Step {
                out: text("cat: "@) + shown(args[pos]) + text(": cannot open\n"@) + next.out,
                ..next
            })
            &&& fd >= 0 ==> opened == (Step {
                state: ShellState {
                    task: Task::CatRead { args, pos: pos as usize, failed, fd },
                    ..s
                },
                out: Seq::empty(),
                action: Action::ReadFile(fd),
            })
        }),
{
    reveal(resumed);
    let path = resolved(s.cwd, args[pos]);
    assert(path.push(0) =~= path + seq![0u8]);
    let now = settled(cat_from(s, args, pos, failed));
    let next = settled(cat_from(s, args, pos + 1, true));
    let opened = stepped(now.state, Event::Open(fd));
    let message = text("cat: "@) + shown(args[pos]) + text(": cannot open\n"@);
    if fd < 0 {
        assert(opened.out =~= message + next.out);
    }
}

proof fn lemma_cat_end(
    s: ShellState,
    args: Seq<Seq<u8>>,
    pos: int,
    failed: bool,
    fd: i64,
    end: Chunk,
)
    requires
        0 <= pos < args.len() <= usize::MAX,
        s.task == (SeqTask::CatRead { args, pos: pos as usize, failed, fd }),
        end.n <= 0,
    ensures
        ({
            let ended = stepped(s, Event::ReadFile { n: end.n, buf: end.buf });
            &&& ended.action == Action::<Seq<u8>>::Close(fd)
            &&& ended.out == Seq::<u8>::empty()
            &&& stepped(ended.state, Event::Close) == settled(cat_from(s, args, pos + 1, failed))
        }),
{
    reveal(resumed);
}

proof fn lemma_cat_file(
    s: ShellState,
    args: Seq<Seq<u8>>,
    pos: int,
    failed: bool,
    f: CatFile,
)
    requires
        0 <= pos < args.len() <= usize::MAX,
        cat_file_ok(f),
    ensures
        ({
            let now = settled(cat_from(s, args, pos, failed));
            let next = settled(cat_from(s, args, pos + 1, failed || f.fd < 0));
            &&& after_events(now.state, now.action, file_events(f)) == (Step {
                state: next.state,
                out: file_output(args[pos], f) + next.out,
                action: next.action,
            })
            &&& requests(now.state, now.action, file_events(f)) == file_requests(
                s.cwd,
                args[pos],
                f,
            )
        }),
{
    let now = settled(cat_from(s, args, pos, failed));
    let opened = stepped(now.state, Event::Open(f.fd));
    lemma_cat_open(s, args, pos, failed, f.fd);
    lemma_one_event(now.state, now.action, Event::Open(f.fd));
    if f.fd >= 0 {
        lemma_cat_body(opened.state, args, pos, failed, f);
        let body = reads(f.chunks.push(f.end)) + seq![Event::Close];
        let opening = seq![Event::<Seq<u8>>::Open(f.fd)];
        lemma_events_join(now.state, now.action, opening, body);
        assert(opening + body =~= file_events(f));
        let next = settled(cat_from(opened.state, args, pos + 1, failed));
        assert(next == settled(cat_from(s, args, pos + 1, failed)));
        assert(Seq::<u8>::empty() + (contents(f.chunks) + next.out) =~= contents(f.chunks)
            + next.out);
        assert(requests(now.state, now.action, file_events(f)) =~= file_requests(
            s.cwd,
            args[pos],
            f,
        ));
    }
}

proof fn lemma_cat_body(s: ShellState, args: Seq<Seq<u8>>, pos: int, failed: bool, f: CatFile)
    requires
        0 <= pos < args.len() <= usize::MAX,
        cat_file_ok(f),
        s.task == (SeqTask::CatRead { args, pos: pos as usize, failed, fd: f.fd }),
    ensures
        ({
            let next = settled(cat_from(s, args, pos + 1, failed));
            let body = reads(f.chunks.push(f.end)) + seq![Event::Close];
            &&& after_events(s, Action::ReadFile(f.fd), body) == (Step {
                state: next.state,
                out: contents(f.chunks) + next.out,
                action: next.action,
            })
            &&& requests(s, Action::ReadFile(f.fd), body) == Seq::new(
                f.chunks.len() + 1,
                |i: int| Action::<Seq<u8>>::ReadFile(f.fd),
            ) + seq![Action::Close(f.fd)]
        }),
{
    let first = Action::<Seq<u8>>::ReadFile(f.fd);
    let last = Event::ReadFile { n: f.end.n, buf: f.end.buf };
    let more = reads(f.chunks);
    let end = seq![last];
    let close = seq![Event::<Seq<u8>>::Close];
    let ended = stepped(s, last);
    let next = settled(cat_from(s, args, pos + 1, failed));
    law_cat_writes_what_it_reads(s, args, pos as usize, failed, f.fd, f.chunks);
    lemma_read_requests(s, args, pos as usize, failed, f.fd, f.chunks);
    lemma_cat_end(s, args, pos, failed, f.fd, f.end);
    lemma_one_event(s, first, last);
    lemma_one_event(ended.state, ended.action, Event::Close);
    lemma_events_join(s, first, more, end);
    lemma_events_join(s, first, more + end, close);
    assert(reads(f.chunks.push(f.end)) =~= more + end);
    assert(contents(f.chunks) + Seq::<u8>::empty() =~= contents(f.chunks));
    assert(requests(s, first, more + end + close) =~= Seq::new(
        f.chunks.len() + 1,
        |i: int| Action::<Seq<u8>>::ReadFile(f.fd),
    ) + seq![Action::Close(f.fd)]);
}

proof fn lemma_read_requests(
    s: ShellState,
    args: Seq<Seq<u8>>,
    pos: usize,
    failed: bool,
    fd: i64,
    chunks: Seq<Chunk>,
)
    requires
        s.task == (SeqTask::CatRead { args, pos, failed, fd }),
        forall|i: int| 0 <= i < chunks.len() ==> (#[trigger] chunks[i]).n > 0,
    ensures
        requests(s, Action::ReadFile(fd), reads(chunks)) == Seq::new(
            chunks.len(),
            |i: int| Action::<Seq<u8>>::ReadFile(fd),
        ),
{
    let all = requests(s, Action::ReadFile(fd), reads(chunks));
    assert forall|i: int| 0 <= i < all.len() implies all[i] == Action::<Seq<u8>>::ReadFile(fd) by {
        let some = chunks.take(i);
        assert forall|k: int| 0 <= k < some.len() implies (#[trigger] some[k]).n > 0 by {
            assert(some[k] == chunks[k]);
        }
        law_cat_writes_what_it_reads(s, args, pos, failed, fd, some);
        assert(reads(chunks).take(i) =~= reads(some));
    }
}

#[verifier::rlimit(30)]
proof fn lemma_cat_files(s: ShellState, args: Seq<Seq<u8>>, files: Seq<CatFile>)
    requires
        files.len() <= args.len() <= usize::MAX,
        forall|i: int| 0 <= i < files.len() ==> cat_file_ok(#[trigger] files[i]),
    ensures
        ({
            let now = settled(cat_from(s, args, 0, false));
            let next = settled(cat_from(s, args, files.len() as int, open_failed(files)));
            &&& files.len() > 0 ==> after_events(now.state, now.action, all_events(files)) == (
            Step {
                state: next.state,
                out: all_output(args, files) + next.out,
                action: next.action,
            })
            &&& requests(now.state, now.action, all_events(files)) == all_requests(
                s.cwd,
                args,
                files,
            )
        }),
    decreases files.len(),
{
    let now = settled(cat_from(s, args, 0, false));
    if files.len() == 0 {
        assert(requests(now.state, now.action, all_events(files)) =~= all_requests(
            s.cwd,
            args,
            files,
        ));
    } else {
        let front = files.drop_last();
        let pos = files.len() - 1;
        assert forall|i: int| 0 <= i < front.len() implies cat_file_ok(#[trigger] front[i]) by {
            assert(front[i] == files[i]);
        }
        lemma_cat_files(s, args, front);
        assert(cat_file_ok(files[pos]));
        lemma_cat_file(s, args, pos, open_failed(front), files.last());
        let middle = settled(cat_from(s, args, pos, open_failed(front)));
        let next = settled(cat_from(s, args, pos + 1, open_failed(files)));
        assert(open_failed(files) == (open_failed(front) || files.last().fd < 0)) by {
            if open_failed(front) {
                let i = choose|i: int| 0 <= i < front.len() && (#[trigger] front[i]).fd < 0;
                assert(files[i].fd < 0);
            }
            if files.last().fd < 0 {
                assert(files[pos].fd < 0);
            }
            if open_failed(files) {
                let i = choose|i: int| 0 <= i < files.len() && (#[trigger] files[i]).fd < 0;
                if i < pos {
                    assert(front[i].fd < 0);
                }
            }
        }
        lemma_events_join(now.state, now.action, all_events(front), file_events(files.last()));
        let last = file_output(args[pos], files.last());
        if front.len() == 0 {
            assert(!open_failed(front));
            assert(all_events(front) + file_events(files.last()) =~= file_events(files.last()));
            assert(all_output(args, files) =~= last);
        } else {
            assert(middle.out =~= Seq::<u8>::empty());
            assert(all_output(args, front) + middle.out + (last + next.out) =~= all_output(
                args,
                files,
            ) + next.out);
        }
    }
}

/// `cat` goes through its arguments in order, also after one that cannot be
/// opened.  It writes the contents of each file it can open and a message for
/// each other, closes each file it has opened once, and ends with status 1
/// exactly if one could not be opened.
pub proof fn law_cat(s: ShellState, args: Seq<Seq<u8>>, files: Seq<CatFile>)
    requires
        0 < args.len() <= usize::MAX,
        files.len() == args.len(),
        forall|i: int| 0 <= i < files.len() ==> cat_file_ok(#[trigger] files[i]),
    ensures
        ({
            let asked = settled(cat(s, args));
            let done = after_events(asked.state, asked.action, all_events(files));
            let status = if open_failed(files) {
                1i64
            } else {
                0i64
            };
            let idle = ShellState { status, task: Task::Line, ..s };
            &&& done == (Step {
                state: prompting(idle),
                out: all_output(args, files) + prompting(idle).prompt,
                action: Action::ReadKey,
            })
            &&& requests(asked.state, asked.action, all_events(files)) == all_requests(
                s.cwd,
                args,
                files,
            )
        }),
{
    lemma_cat_files(s, args, files);
    let next = settled(cat_from(s, args, files.len() as int, open_failed(files)));
    assert(next.out =~= prompting(next.state).prompt);
}

// Typed lines --------------------------------------------------------------------

/// The events of typing `typed`.
pub open spec fn keystrokes(typed: Seq<u8>) -> Seq<Event<Seq<u8>>> {
    Seq::new(typed.len(), |i: int| Event::Key(typed[i]))
}

/// The shell with `line` as the current input.
pub open spec fn with_line(s: ShellState, line: Seq<u8>) -> ShellState {
    ShellState { editor: EditorState { line, ..s.editor }, ..s }
}

proof fn lemma_typing(s: ShellState, typed: Seq<u8>)
    requires
        s.task is Line,
        s.editor.keys == KeyState::Ready,
        s.editor.line.len() == 0,
        forall|i: int| 0 <= i < typed.len() ==> printable(#[trigger] typed[i]),
    ensures
        after_events(s, Action::ReadKey, keystrokes(typed)) == (Step {
            state: with_line(s, cut(typed, MAX_LINE - 1)),
            out: cut(typed, MAX_LINE - 1),
            action: Action::ReadKey,
        }),
    decreases typed.len(),
{
    if typed.len() == 0 {
        assert(s.editor.line =~= typed);
        assert(typed =~= Seq::<u8>::empty());
    } else {
        let front = typed.drop_last();
        assert forall|i: int| 0 <= i < front.len() implies printable(#[trigger] front[i]) by {
            assert(front[i] == typed[i]);
        }
        lemma_typing(s, front);
        assert(keystrokes(typed).drop_last() =~= keystrokes(front));
        assert(printable(typed[typed.len() - 1]));
        reveal(key_effect);
        let before = cut(front, MAX_LINE - 1);
        let after = cut(typed, MAX_LINE - 1);
        if front.len() < MAX_LINE - 1 {
            assert(before.push(typed.last()) =~= after);
            assert(before + seq![typed.last()] =~= after);
        } else {
            assert(before =~= after);
            assert(before + Seq::<u8>::empty() =~= after);
        }
    }
}

/// A line that is typed at a fresh prompt and entered is echoed, remembered,
/// executed as it was typed, as far as there was room for it, and followed by
/// what it leads to: its request, or the next prompt.
pub proof fn law_typed_line_is_executed(s: ShellState, typed: Seq<u8>, enter: u8)
    requires
        s.task is Line,
        s.editor.keys == KeyState::Ready,
        s.editor.line.len() == 0,
        typed.len() > 0,
        commits(enter),
        forall|i: int| 0 <= i < typed.len() ==> printable(#[trigger] typed[i]),
    ensures
        ({
            let line = cut(typed, MAX_LINE - 1);
            after_events(s, Action::ReadKey, keystrokes(typed.push(enter))) == settled(
                after_writing(
                    line.push(NEWLINE),
                    executed(remembering(with_line(s, line), line), line),
                ),
            )
        }),
{
    let line = cut(typed, MAX_LINE - 1);
    lemma_typing(s, typed);
    assert(keystrokes(typed.push(enter)).drop_last() =~= keystrokes(typed));
    reveal(key_effect);
    let o = executed(remembering(with_line(s, line), line), line);
    let prompt = prompting(o.state).prompt;
    assert(line + (seq![NEWLINE] + o.out) =~= line.push(NEWLINE) + o.out);
    assert(line + (seq![NEWLINE] + o.out + prompt) =~= line.push(NEWLINE) + o.out + prompt);
}

/// Ctrl-C drops the input: nothing is executed or remembered, and the next
/// prompt is shown.
pub proof fn law_ctrl_c_cancels(s: ShellState)
    requires
        s.editor.keys == KeyState::Ready,
    ensures
        key_pressed(s, CTRL_C).state == prompting(s),
        key_pressed(s, CTRL_C).action == Action::<Seq<u8>>::ReadKey,
        key_pressed(s, CTRL_C).out == text("^C\n"@) + prompting(s).prompt,
{
    reveal(key_effect);
    assert(text("^C\n"@) + Seq::<u8>::empty() =~= text("^C\n"@));
}

// Command lines ------------------------------------------------------------------

/// A blank line and a comment do nothing.
pub proof fn law_blank_line(s: ShellState, line: Seq<u8>)
    requires
        trimmed(line).len() == 0 || trimmed(line)[0] == HASH,
    ensures
        executed(s, line) == (Outcome { state: s, out: Seq::empty(), action: None }),
{
    reveal(executed);
}

/// A word that needs no quotes anywhere on a command line.
pub open spec fn bare_word(w: Seq<u8>) -> bool {
    &&& plain_word(w)
    &&& w.len() <= MAX_ARG
    &&& forall|k: int| 0 <= k < w.len() ==> literal(Mode::Plain, #[trigger] w[k])
}

proof fn lemma_spaced_bytes(ws: Seq<Seq<u8>>)
    requires
        forall|i: int| 0 <= i < ws.len() ==> bare_word(#[trigger] ws[i]),
    ensures
        forall|k: int| 0 <= k < spaced(ws).len() ==> literal(Mode::Plain, #[trigger] spaced(ws)[k]),
        ws.len() > 0 ==> spaced(ws).len() > 0 && spaced(ws)[0] == ws[0][0] && spaced(ws).last()
            == ws.last().last(),
    decreases ws.len(),
{
    if ws.len() > 0 {
        assert(bare_word(ws[0]));
        if ws.len() > 1 {
            let rest = ws.skip(1);
            assert forall|i: int| 0 <= i < rest.len() implies bare_word(#[trigger] rest[i]) by {
                assert(rest[i] == ws[i + 1]);
            }
            lemma_spaced_bytes(rest);
            let n = ws[0].len();
            assert forall|k: int| 0 <= k < spaced(ws).len() implies literal(
                Mode::Plain,
                #[trigger] spaced(ws)[k],
            ) by {
                if k < n {
                    assert(spaced(ws)[k] == ws[0][k]);
                } else if k > n {
                    assert(spaced(ws)[k] == spaced(rest)[k - n - 1]);
                }
            }
            assert(rest.last() == ws.last());
            assert(spaced(ws).last() == spaced(rest).last());
        }
    }
}

pub(crate) proof fn lemma_already_trimmed(l: Seq<u8>)
    requires
        l.len() > 0 ==> !is_space(l[0]) && !is_space(l.last()),
    ensures
        trimmed(l) == l,
{
}

/// A line of bare words runs the command that the first word names, with the
/// other words as its arguments, unless it is a comment or an assignment.
pub proof fn law_plain_command_line(s: ShellState, ws: Seq<Seq<u8>>)
    requires
        0 < ws.len() <= MAX_ARGS,
        forall|i: int| 0 <= i < ws.len() ==> bare_word(#[trigger] ws[i]),
        spaced(ws).len() <= MAX_EXPANDED,
        ws[0][0] != HASH,
        !is_assignment(spaced(ws)),
    ensures
        executed(s, spaced(ws)) == dispatched(s, ws[0], ws.skip(1)),
{
    let l = spaced(ws);
    assert(bare_word(ws[0]) && bare_word(ws[ws.len() - 1]));
    lemma_spaced_bytes(ws);
    lemma_already_trimmed(l);
    law_literal_prefix(s.env, s.status, Mode::Plain, l, Seq::empty());
    assert(l + Seq::<u8>::empty() =~= l);
    assert(marked(l, false) + Seq::<Mark>::empty() =~= marked(l, false));
    assert forall|i: int| 0 <= i < ws.len() implies plain_word(#[trigger] ws[i]) by {
        assert(bare_word(ws[i]));
    }
    law_split_undoes_join(ws);
    let ms = unquoted(ws);
    assert(shortened(ms) =~= ms) by {
        assert forall|i: int| 0 <= i < ms.len() implies shortened(ms)[i] == ms[i] by {
            assert(bare_word(ws[i]));
        }
    }
    assert(words_of(ms) =~= ws) by {
        assert forall|i: int| 0 <= i < ws.len() implies words_of(ms)[i] == ws[i] by {
            assert(unmarked(marked(ws[i], false)) =~= ws[i]);
        }
    }
    reveal(executed);
    reveal(command_marks);
    assert(command_marks(s, l) == ms);
    assert(ms.skip(1) =~= unquoted(ws.skip(1)));
    lemma_export_dispatched(s, ws.skip(1));
}

proof fn lemma_export_dispatched(s: ShellState, args: Seq<Seq<u8>>)
    ensures
        dispatched(s, text("export"@), args) == export(s, unquoted(args)),
{
    lemma_initials();
    reveal(dispatched);
}

/// `NAME=value` sets the variable to the expansion of the value, and neither
/// writes anything nor changes the exit status.
pub proof fn law_assignment(s: ShellState, name: Seq<u8>, value: Seq<u8>)
    requires
        0 < name.len() <= MAX_VAR_NAME,
        forall|k: int| 0 <= k < name.len() ==> is_name_byte(#[trigger] name[k]),
        value.len() > 0 ==> !is_space(value.last()),
        lookup(s.env, name) is Some || s.env.len() < MAX_VARS,
    ensures
        ({
            let o = executed(s, name.push(EQUALS) + value);
            &&& lookup(o.state.env, name) == Some(
                cut(expansion(s.env, s.status, value), MAX_VAR_VAL as int),
            )
            &&& o.out.len() == 0
            &&& o.action is None
            &&& o.state == (ShellState { env: o.state.env, ..s })
        }),
{
    let l = name.push(EQUALS) + value;
    assert(is_name_byte(name[0]));
    lemma_already_trimmed(l);
    assert forall|k: int| 0 <= k < name.len() implies l[k] != EQUALS by {
        assert(l[k] == name[k]);
        assert(is_name_byte(name[k]));
    }
    lemma_first_index_is(l, EQUALS, name.len() as int);
    assert forall|k: int| 0 <= k < name.len() implies is_name_byte(#[trigger] l[k]) by {
        assert(l[k] == name[k]);
    }
    assert(l.take(name.len() as int) =~= name);
    assert(l.skip(name.len() as int + 1) =~= value);
    reveal(executed);
    law_get_after_set(s.env, name, expansion(s.env, s.status, value));
}

/// `export NAME=value` sets the variable to the value with its `$` expressions
/// replaced; a value in which no `$` starts one is kept byte for byte.
pub proof fn law_export(s: ShellState, name: Seq<u8>, value: Seq<Mark>)
    requires
        name.len() <= MAX_VAR_NAME,
        !name.contains(EQUALS),
        lookup(s.env, name) is Some || s.env.len() < MAX_VARS,
    ensures
        ({
            let o = export(s, seq![marked(name.push(EQUALS), false) + value]);
            &&& lookup(o.state.env, name) == Some(
                cut(substitution(s.env, s.status, value), MAX_VAR_VAL as int),
            )
            &&& no_dollar(value) ==> lookup(o.state.env, name) == Some(
                cut(unmarked(value), MAX_VAR_VAL as int),
            )
        }),
{
    let arg = marked(name.push(EQUALS), false) + value;
    let bytes = unmarked(arg);
    assert forall|k: int| 0 <= k < name.len() implies bytes[k] != EQUALS by {
        assert(bytes[k] == name[k]);
    }
    lemma_first_index_is(bytes, EQUALS, name.len() as int);
    assert(bytes.take(name.len() as int) =~= name);
    assert(arg.skip(name.len() as int + 1) =~= value);
    reveal_with_fuel(all_exported, 2);
    assert(seq![arg].drop_last() =~= Seq::<Seq<Mark>>::empty());
    law_get_after_set(s.env, name, substitution(s.env, s.status, value));
    if no_dollar(value) {
        law_substitution_keeps(s.env, s.status, value);
    }
}

/// No `$` in `m` starts an expression: each is literal.
pub open spec fn no_dollar(m: Seq<Mark>) -> bool {
    forall|k: int| 0 <= k < m.len() ==> (#[trigger] m[k]).byte != DOLLAR || m[k].quoted
}

/// The command line `export NAME=raw`.
pub open spec fn export_line(name: Seq<u8>, raw: Seq<u8>) -> Seq<u8> {
    text("export"@).push(SPACE) + (name.push(EQUALS) + raw)
}

/// What the line `export NAME=raw` comes to when it sets the variable to
/// `value`.
pub open spec fn export_sets(s: ShellState, o: Outcome, name: Seq<u8>, value: Seq<u8>) -> bool {
    &&& lookup(o.state.env, name) == Some(cut(value, MAX_VAR_VAL as int))
    &&& o.state == (ShellState { env: o.state.env, status: 0, task: Task::Line, ..s })
    &&& o.out.len() == 0
    &&& o.action is None
}

proof fn lemma_export_line(s: ShellState, name: Seq<u8>, raw: Seq<u8>, value: Seq<Mark>)
    requires
        0 < name.len() <= MAX_VAR_NAME,
        forall|k: int| 0 <= k < name.len() ==> is_name_byte(#[trigger] name[k]),
        lookup(s.env, name) is Some || s.env.len() < MAX_VARS,
        raw.len() > 0,
        !is_space(raw.last()),
        expanded(s.env, s.status, Mode::Plain, raw) == value,
        forall|k: int| 0 <= k < value.len() ==> word_mark(#[trigger] value[k]),
        name.len() + 1 + value.len() <= MAX_ARG,
        no_dollar(value),
    ensures
        export_sets(s, executed(s, export_line(name, raw)), name, unmarked(value)),
{
    let cmd = text("export"@);
    let front = name.push(EQUALS);
    let whole = front + raw;
    let arg = marked(front, false) + value;
    lemma_export_is_bare();
    assert(!name.contains(EQUALS)) by {
        assert forall|k: int| 0 <= k < name.len() implies name[k] != EQUALS by {
            assert(is_name_byte(name[k]));
        }
    }
    assert forall|k: int| 0 <= k < front.len() implies literal(
        Mode::Plain,
        #[trigger] front[k],
    ) by {
        if k < name.len() {
            assert(front[k] == name[k]);
            assert(is_name_byte(name[k]));
        }
    }
    law_literal_prefix(s.env, s.status, Mode::Plain, front, raw);
    assert forall|k: int| 0 <= k < arg.len() implies word_mark(#[trigger] arg[k]) by {
        if k < name.len() {
            assert(arg[k].byte == name[k]);
            assert(is_name_byte(name[k]));
        } else if k > name.len() {
            assert(arg[k] == value[k - front.len()]);
        }
    }
    let l = export_line(name, raw);
    assert(!is_assignment(l)) by {
        lemma_first_index(l, EQUALS);
        let k = first_index(l, EQUALS) as int;
        assert(l[6] == SPACE);
        if k < l.len() && k < 6 {
            assert(l[k] == cmd[k]);
        }
        if is_assignment(l) {
            assert(is_name_byte(l[6]));
        }
    }
    lemma_one_word_after(s, cmd, whole, arg);
    let ms = seq![marked(cmd, false), arg];
    assert(unmarked(marked(cmd, false)) =~= cmd);
    assert(words_of(ms)[0] == cmd);
    assert(ms.skip(1) =~= seq![arg]);
    reveal(executed);
    assert(executed(s, l) == export(s, seq![arg]));
    law_export(s, name, value);
}

/// `export NAME='text'` sets the variable to the text, byte for byte, whatever
/// stands in it.
pub proof fn law_export_single_quoted(s: ShellState, name: Seq<u8>, t: Seq<u8>)
    requires
        0 < name.len() <= MAX_VAR_NAME,
        forall|k: int| 0 <= k < name.len() ==> is_name_byte(#[trigger] name[k]),
        lookup(s.env, name) is Some || s.env.len() < MAX_VARS,
        !t.contains(SINGLE_QUOTE),
        name.len() + 1 + t.len() <= MAX_ARG,
    ensures
        export_sets(
            s,
            executed(s, export_line(name, seq![SINGLE_QUOTE] + t + seq![SINGLE_QUOTE])),
            name,
            t,
        ),
{
    let raw = seq![SINGLE_QUOTE] + t + seq![SINGLE_QUOTE];
    law_single_quotes(s.env, s.status, t);
    lemma_export_line(s, name, raw, marked(t, true));
    assert(unmarked(marked(t, true)) =~= t);
}

/// In `export NAME=value`, a backslash makes the byte after it literal, be it a
/// dollar sign, a backslash, a quote or a space.
pub proof fn law_export_escaped(s: ShellState, name: Seq<u8>, a: Seq<u8>, c: u8, b: Seq<u8>)
    requires
        0 < name.len() <= MAX_VAR_NAME,
        forall|k: int| 0 <= k < name.len() ==> is_name_byte(#[trigger] name[k]),
        lookup(s.env, name) is Some || s.env.len() < MAX_VARS,
        a.len() > 0 ==> bare_word(a),
        b.len() > 0 ==> bare_word(b),
        b.len() > 0 || !is_space(c),
        name.len() + 1 + a.len() + 1 + b.len() <= MAX_ARG,
    ensures
        export_sets(
            s,
            executed(s, export_line(name, a + seq![BACKSLASH, c] + b)),
            name,
            a.push(c) + b,
        ),
{
    lemma_escaped_word(s, a, c, b);
    let m = marked(a, false) + (marked(seq![c], true) + marked(b, false));
    assert(no_dollar(m)) by {
        assert forall|k: int| 0 <= k < m.len() implies (#[trigger] m[k]).byte != DOLLAR
            || m[k].quoted by {
            if k < a.len() {
                assert(literal(Mode::Plain, a[k]));
            } else if k > a.len() {
                assert(literal(Mode::Plain, b[k - a.len() - 1]));
            }
        }
    }
    lemma_export_line(s, name, a + seq![BACKSLASH, c] + b, m);
}

proof fn lemma_export_is_bare()
    ensures
        bare_word(text("export"@)),
        text("export"@)[0] != HASH,
        text("export"@).len() == 6,
        forall|k: int| 0 <= k < 6 ==> #[trigger] text("export"@)[k] != EQUALS,
{
    reveal_strlit("export");
    vstd::utf8::is_ascii_chars_encode_utf8("export"@);
    assert(text("export"@) =~= seq![
        'e' as u8,
        'x' as u8,
        'p' as u8,
        'o' as u8,
        'r' as u8,
        't' as u8,
    ]);
}

/// Entering a line puts it into the history before it is executed, whatever it
/// does then.
pub proof fn law_entered_line_is_remembered(s: ShellState, b: u8)
    requires
        s.task is Line,
        key_effect(s.editor, b, s.prompt).done,
        key_effect(s.editor, b, s.prompt).state.line.len() > 0,
    ensures
        key_pressed(s, b).state.editor.history.entries == remembered(
            s.editor.history,
            key_effect(s.editor, b, s.prompt).state.line,
        ).entries,
{
    let k = key_effect(s.editor, b, s.prompt);
    let typed = ShellState { editor: k.state, ..s };
    let ready = remembering(typed, k.state.line);
    law_key_keeps_entries(s.editor, b, s.prompt);
    reveal(executed);
    let ws = command_words(ready, trimmed(k.state.line));
    if ws.len() > 0 {
        law_command_keeps(ready, ws[0], ws.skip(1));
    }
}

proof fn lemma_one_word_after(s: ShellState, cmd: Seq<u8>, raw: Seq<u8>, m: Seq<Mark>)
    requires
        bare_word(cmd),
        0 < m.len() <= MAX_ARG,
        forall|k: int| 0 <= k < m.len() ==> word_mark(#[trigger] m[k]),
        expanded(s.env, s.status, Mode::Plain, raw) == m,
        raw.len() > 0,
        !is_space(raw.last()),
    ensures
        trimmed(cmd.push(SPACE) + raw) == cmd.push(SPACE) + raw,
        command_marks(s, cmd.push(SPACE) + raw) == seq![marked(cmd, false), m],
{
    let front = cmd.push(SPACE);
    let l = front + raw;
    lemma_already_trimmed(l);
    assert forall|k: int| 0 <= k < front.len() implies literal(
        Mode::Plain,
        #[trigger] front[k],
    ) by {
        if k < cmd.len() {
            assert(front[k] == cmd[k]);
        }
    }
    law_literal_prefix(s.env, s.status, Mode::Plain, front, raw);
    let gap = Mark { byte: SPACE, quoted: false };
    let first = marked(cmd, false);
    let rest = seq![gap] + m;
    assert(marked(front, false) + m =~= first + rest);
    assert forall|k: int| 0 <= k < first.len() implies word_mark(#[trigger] first[k]) by {
        assert(!is_space(cmd[k]));
    }
    law_first_word(first, rest);
    law_leading_space(gap, m);
    law_first_word(m, Seq::empty());
    assert(m + Seq::<Mark>::empty() =~= m);
    assert(seq![m] + words(Seq::<Mark>::empty()) =~= seq![m]);
    let ms = seq![first, m];
    assert(seq![first] + seq![m] =~= ms);
    assert(shortened(ms) =~= ms);
    reveal(command_marks);
    assert(command_marks(s, l) == ms);
}

proof fn lemma_export_unmarked(s: ShellState, m: Seq<Mark>)
    requires
        !unmarked(m).contains(DOLLAR),
    ensures
        export(s, seq![m]) == export(s, seq![marked(unmarked(m), false)]),
{
    let t = unmarked(m);
    let m2 = marked(t, false);
    assert(unmarked(m2) =~= t);
    let k = first_index(t, EQUALS) as int;
    lemma_first_index(t, EQUALS);
    if k < t.len() {
        let v = m.skip(k + 1);
        let v2 = m2.skip(k + 1);
        assert forall|i: int| 0 <= i < v.len() implies (#[trigger] v[i]).byte != DOLLAR by {
            assert(t.contains(t[i + k + 1]));
        }
        assert forall|i: int| 0 <= i < v2.len() implies (#[trigger] v2[i]).byte != DOLLAR by {
            assert(t.contains(t[i + k + 1]));
        }
        law_substitution_keeps(s.env, s.status, v);
        law_substitution_keeps(s.env, s.status, v2);
        assert(unmarked(v) =~= unmarked(v2));
    }
    reveal_with_fuel(all_exported, 2);
    assert(seq![m].drop_last() =~= Seq::<Seq<Mark>>::empty());
    assert(seq![m2].drop_last() =~= Seq::<Seq<Mark>>::empty());
}

proof fn lemma_one_argument(s: ShellState, cmd: Seq<u8>, raw: Seq<u8>, t: Seq<u8>, m: Seq<Mark>)
    requires
        bare_word(cmd),
        cmd[0] != HASH,
        0 < t.len() <= MAX_ARG,
        unmarked(m) == t,
        forall|k: int| 0 <= k < m.len() ==> word_mark(#[trigger] m[k]),
        expanded(s.env, s.status, Mode::Plain, raw) == m,
        raw.len() > 0,
        !is_space(raw.last()),
        !is_assignment(cmd.push(SPACE) + raw),
        cmd != text("export"@) || !t.contains(DOLLAR),
    ensures
        executed(s, cmd.push(SPACE) + raw) == dispatched(s, cmd, seq![t]),
{
    lemma_one_word_after(s, cmd, raw, m);
    let ms = seq![marked(cmd, false), m];
    assert(unmarked(marked(cmd, false)) =~= cmd);
    assert(words_of(ms) =~= seq![cmd, t]);
    assert(words_of(ms).skip(1) =~= seq![t]);
    assert(ms.skip(1) =~= seq![m]);
    reveal(executed);
    if cmd == text("export"@) {
        lemma_export_unmarked(s, m);
        lemma_export_dispatched(s, seq![t]);
        assert(unquoted(seq![t]) =~= seq![marked(t, false)]);
    }
}

/// A command that is given text between double quotes gets that text as one
/// argument, spaces and all.
pub proof fn law_quoted_argument(s: ShellState, cmd: Seq<u8>, t: Seq<u8>)
    requires
        bare_word(cmd),
        cmd[0] != HASH,
        0 < t.len() <= MAX_ARG,
        forall|k: int| 0 <= k < t.len() ==> literal(Mode::Double, #[trigger] t[k]),
        !is_assignment(cmd.push(SPACE) + (seq![DOUBLE_QUOTE] + t + seq![DOUBLE_QUOTE])),
    ensures
        executed(s, cmd.push(SPACE) + (seq![DOUBLE_QUOTE] + t + seq![DOUBLE_QUOTE]))
            == dispatched(s, cmd, seq![t]),
{
    let raw = seq![DOUBLE_QUOTE] + t + seq![DOUBLE_QUOTE];
    law_double_quotes(s.env, s.status, t);
    assert(unmarked(marked(t, true)) =~= t);
    assert forall|k: int| 0 <= k < t.len() implies t[k] != DOLLAR by {
        assert(literal(Mode::Double, t[k]));
    }
    lemma_one_argument(s, cmd, raw, t, marked(t, true));
}

/// A command that is given text between single quotes gets that text as one
/// argument, byte for byte.  (`export` takes each `$` in it as literal, which the
/// text alone does not say.)
pub proof fn law_single_quoted_argument(s: ShellState, cmd: Seq<u8>, t: Seq<u8>)
    requires
        bare_word(cmd),
        cmd[0] != HASH,
        0 < t.len() <= MAX_ARG,
        !t.contains(SINGLE_QUOTE),
        !is_assignment(cmd.push(SPACE) + (seq![SINGLE_QUOTE] + t + seq![SINGLE_QUOTE])),
        cmd != text("export"@) || !t.contains(DOLLAR),
    ensures
        executed(s, cmd.push(SPACE) + (seq![SINGLE_QUOTE] + t + seq![SINGLE_QUOTE]))
            == dispatched(s, cmd, seq![t]),
{
    let raw = seq![SINGLE_QUOTE] + t + seq![SINGLE_QUOTE];
    law_single_quotes(s.env, s.status, t);
    assert(unmarked(marked(t, true)) =~= t);
    lemma_one_argument(s, cmd, raw, t, marked(t, true));
}

/// In an argument of a command, a backslash makes the byte after it literal,
/// be it a space, a quote, a dollar sign or a backslash.  (Whitespace at the
/// end of a line is taken off before that.)
pub proof fn law_escaped_argument(s: ShellState, cmd: Seq<u8>, a: Seq<u8>, c: u8, b: Seq<u8>)
    requires
        bare_word(cmd),
        cmd[0] != HASH,
        a.len() + 1 + b.len() <= MAX_ARG,
        a.len() > 0 ==> bare_word(a),
        b.len() > 0 ==> bare_word(b),
        b.len() > 0 || !is_space(c),
        !is_assignment(cmd.push(SPACE) + (a + seq![BACKSLASH, c] + b)),
        cmd != text("export"@) || c != DOLLAR,
    ensures
        executed(s, cmd.push(SPACE) + (a + seq![BACKSLASH, c] + b)) == dispatched(
            s,
            cmd,
            seq![a.push(c) + b],
        ),
{
    let raw = a + seq![BACKSLASH, c] + b;
    let t = a.push(c) + b;
    lemma_escaped_word(s, a, c, b);
    assert forall|k: int| 0 <= k < t.len() && c != DOLLAR implies t[k] != DOLLAR by {
        if k < a.len() {
            assert(literal(Mode::Plain, a[k]));
        } else if k > a.len() {
            assert(literal(Mode::Plain, b[k - a.len() - 1]));
        }
    }
    lemma_one_argument(
        s,
        cmd,
        raw,
        t,
        marked(a, false) + (marked(seq![c], true) + marked(b, false)),
    );
}

proof fn lemma_escaped_word(s: ShellState, a: Seq<u8>, c: u8, b: Seq<u8>)
    requires
        a.len() > 0 ==> bare_word(a),
        b.len() > 0 ==> bare_word(b),
        b.len() > 0 || !is_space(c),
    ensures
        ({
            let raw = a + seq![BACKSLASH, c] + b;
            let m = marked(a, false) + (marked(seq![c], true) + marked(b, false));
            &&& expanded(s.env, s.status, Mode::Plain, raw) == m
            &&& unmarked(m) == a.push(c) + b
            &&& forall|k: int| 0 <= k < m.len() ==> word_mark(#[trigger] m[k])
            &&& !is_space(raw.last())
        }),
{
    let raw = a + seq![BACKSLASH, c] + b;
    let m = marked(a, false) + (marked(seq![c], true) + marked(b, false));
    law_literal_prefix(s.env, s.status, Mode::Plain, b, Seq::empty());
    assert(b + Seq::<u8>::empty() =~= b);
    assert(marked(b, false) + Seq::<Mark>::empty() =~= marked(b, false));
    law_escape(s.env, s.status, c, b);
    law_literal_prefix(s.env, s.status, Mode::Plain, a, seq![BACKSLASH, c] + b);
    assert(a + (seq![BACKSLASH, c] + b) =~= raw);
    assert(unmarked(m) =~= a.push(c) + b);
    assert forall|k: int| 0 <= k < m.len() implies word_mark(#[trigger] m[k]) by {
        if k < a.len() {
            assert(!is_space(a[k]));
        } else if k > a.len() {
            assert(!is_space(b[k - a.len() - 1]));
        }
    }
    if b.len() > 0 {
        assert(raw.last() == b[b.len() - 1]);
        assert(!is_space(b[b.len() - 1]));
    }
}

proof fn lemma_exit_is_bare()
    ensures
        bare_word(text("exit"@)),
        text("exit"@)[0] != HASH,
        text("exit"@).len() == 4,
        forall|k: int| 0 <= k < 4 ==> #[trigger] text("exit"@)[k] != EQUALS,
{
    reveal_strlit("exit");
    vstd::utf8::is_ascii_chars_encode_utf8("exit"@);
    assert(text("exit"@) =~= seq!['e' as u8, 'x' as u8, 'i' as u8, 't' as u8]);
}

/// Ctrl-D on an empty line exits with the status of the last command.
pub proof fn law_ctrl_d_exits(s: ShellState)
    requires
        s.editor.keys == KeyState::Ready,
        s.editor.line.len() == 0,
    ensures
        key_pressed(s, CTRL_D).action == Action::<Seq<u8>>::Exit(s.status),
        key_pressed(s, CTRL_D).state.task is Halted,
        key_pressed(s, CTRL_D).out == text("exit\n"@),
{
    reveal(key_effect);
    let exit = text("exit"@);
    let k = key_effect(s.editor, CTRL_D, s.prompt);
    let ready = remembering(ShellState { editor: k.state, ..s }, exit);
    lemma_exit_is_bare();
    lemma_first_index(exit, EQUALS);
    assert(spaced(seq![exit]) == exit);
    law_plain_command_line(ready, seq![exit]);
    assert(seq![exit].skip(1) =~= Seq::<Seq<u8>>::empty());
    lemma_initials();
    reveal(dispatched);
    assert(k.out + Seq::<u8>::empty() =~= k.out);
}

// Single commands ----------------------------------------------------------------

/// Once `cd` has succeeded, or the kernel has said that it cannot change
/// directories, relative paths start from where `cd` went; a refused `cd`
/// changes nothing but the exit status.
pub proof fn law_cd(s: ShellState, args: Seq<Seq<u8>>, r: i64)
    ensures
        ({
            let asked = cd(s, args);
            let done = resumed(asked.state, Event::Chdir(r));
            &&& done.action is None
            &&& r >= 0 || r == -ENOSYS ==> done.state == (ShellState {
                cwd: cut(resolved(s.cwd, cd_target(s.env, args)), MAX_CWD as int),
                status: 0,
                task: Task::Line,
                ..s
            }) && done.out.len() == 0
            &&& r < 0 && r != -ENOSYS ==> done.state == (ShellState {
                status: 1,
                task: Task::Line,
                ..s
            })
        }),
{
    reveal(resumed);
}

/// `type` looks for a command where running it looks: it asks to open the same
/// files in the same order.
pub proof fn law_type_looks_where_running_looks(s: ShellState, cmd: Seq<u8>, args: Seq<Seq<u8>>)
    requires
        !builtin_names().contains(cmd),
        cmd.len() > 0,
        cmd[0] != SLASH,
    ensures
        ({
            let told = type_from(s, seq![cmd], 0, false);
            let run = dispatched(s, cmd, args);
            let list = search_list(s.env, cmd);
            let tell: SeqGoal = Goal::Type { args: seq![cmd], pos: 0, missing: false };
            &&& list.len() == 0 ==> told.action is None && run.action is None
            &&& list.len() > 0 ==> {
                &&& told.action == run.action
                &&& told.state.task == (Task::SearchOpen { list, pos: 0, goal: tell })
                &&& run.state.task == (Task::SearchOpen { list, pos: 0, goal: Goal::Run { cmd } })
            }
        }),
{
    lemma_not_built_in(s, cmd, args);
    if search_list(s.env, cmd).len() == 0 {
        assert(type_from(s, seq![cmd], 1, true).action is None);
    }
}

proof fn lemma_no_built_in_name(cmd: Seq<u8>)
    requires
        !builtin_names().contains(cmd),
    ensures
        cmd != text("cat"@) && cmd != text("cd"@) && cmd != text("clear"@) && cmd != text("echo"@),
        cmd != text("env"@) && cmd != text("exec"@) && cmd != text("exit"@),
        cmd != text("export"@) && cmd != text("false"@) && cmd != text("help"@),
        cmd != text("history"@) && cmd != text("ls"@) && cmd != text("pwd"@),
        cmd != text("source"@) && cmd != text("true"@) && cmd != text("type"@),
        cmd != text("uname"@) && cmd != text("unset"@),
{
    let names = builtin_names();
    assert forall|i: int| 0 <= i < names.len() implies names[i] != cmd by {
        assert(names.contains(names[i]));
    }
    assert(names[0] != cmd && names[1] != cmd && names[2] != cmd && names[3] != cmd && names[4]
        != cmd && names[5] != cmd && names[6] != cmd && names[7] != cmd && names[8] != cmd);
    assert(names[9] != cmd && names[10] != cmd && names[11] != cmd && names[12] != cmd
        && names[13] != cmd && names[14] != cmd && names[15] != cmd && names[16] != cmd
        && names[17] != cmd);
}

pub(crate) proof fn lemma_not_built_in(s: ShellState, cmd: Seq<u8>, args: Seq<Seq<u8>>)
    requires
        !builtin_names().contains(cmd),
    ensures
        dispatched(s, cmd, args) == external(s, cmd),
{
    lemma_no_built_in_name(cmd);
    reveal(dispatched);
}

} // verus!
