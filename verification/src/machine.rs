//! What the shell asks of the kernel, and the answers it gets.
//!
//! The types here are generic in the byte strings (`B`) and lists of byte
//! strings (`L`) that they hold: at run time those are vectors, in contracts
//! they are sequences.
use crate::bytes::views;
use vstd::prelude::*;

verus! {

/// What the shell waits for.
#[verifier::ext_equal]
pub enum Action<B> {
    /// Read one byte from stdin.
    ReadKey,
    /// Change the working directory to this path.
    Chdir(B),
    /// Open the file at this NUL-terminated path.
    Open(B),
    /// Close this file.
    Close(i64),
    /// Read directory records from this file.
    ReadDir(i64),
    /// Read data from this file.
    ReadFile(i64),
    /// Execute the binary at this NUL-terminated path.
    Exec(B),
    /// Exit with this code.
    Exit(i64),
}

/// The answer to an [`Action`].
#[verifier::ext_equal]
pub enum Event<B> {
    /// The byte that was read from stdin.
    Key(u8),
    /// The result of changing the working directory.
    Chdir(i64),
    /// The file that was opened; negative on failure.
    Open(i64),
    /// The file was closed.
    Close,
    /// The number of bytes of directory records that were read into `buf`;
    /// negative on failure.
    ReadDir { n: i64, buf: B },
    /// The number of bytes that were read into `buf`; negative on failure.
    ReadFile { n: i64, buf: B },
    /// The exit code of the binary; negative if it could not be executed.
    Exec(i64),
}

/// Why the search path is searched.
#[verifier::ext_equal]
pub enum Goal<B, L> {
    /// `type` shows how `args[pos]` is resolved; `missing` tells whether an
    /// earlier one was not found.
    Type { args: L, pos: usize, missing: bool },
    /// `cmd` is to be executed.
    Run { cmd: B },
}

/// What the shell is in the middle of.
#[verifier::ext_equal]
pub enum Task<B, L> {
    /// Reading a line.
    Line,
    /// `cd` asked to change to `path`, which `target` stands for.
    Cd { target: B, path: B },
    /// `ls` asked to open `path`.
    LsOpen { path: B },
    /// `ls` asked for the records in `fd`.
    LsRead { fd: i64 },
    /// `ls` got records and asked to close the directory.
    LsClose { n: i64, buf: B },
    /// `cat` asked to open `args[pos]`; `failed` tells whether an earlier file
    /// could not be opened.
    CatOpen { args: L, pos: usize, failed: bool },
    /// `cat` asked for data from `fd`.
    CatRead { args: L, pos: usize, failed: bool, fd: i64 },
    /// `cat` asked to close `args[pos]`.
    CatClose { args: L, pos: usize, failed: bool },
    /// `exec` asked to execute `arg`.
    Exec { arg: B },
    /// The search asked to open `list[pos]`.
    SearchOpen { list: L, pos: usize, goal: Goal<B, L> },
    /// The search found `found` and asked to close it.
    SearchClose { found: B, goal: Goal<B, L> },
    /// The command `cmd` is being executed.
    Run { cmd: B },
    /// The shell has exited.
    Halted,
}

impl View for Action<Vec<u8>> {
    type V = Action<Seq<u8>>;

    open spec fn view(&self) -> Action<Seq<u8>> {
        match *self {
            Action::ReadKey => Action::ReadKey,
            Action::Chdir(path) => Action::Chdir(path@),
            Action::Open(path) => Action::Open(path@),
            Action::Close(fd) => Action::Close(fd),
            Action::ReadDir(fd) => Action::ReadDir(fd),
            Action::ReadFile(fd) => Action::ReadFile(fd),
            Action::Exec(path) => Action::Exec(path@),
            Action::Exit(code) => Action::Exit(code),
        }
    }
}

impl View for Event<Vec<u8>> {
    type V = Event<Seq<u8>>;

    open spec fn view(&self) -> Event<Seq<u8>> {
        match *self {
            Event::Key(b) => Event::Key(b),
            Event::Chdir(r) => Event::Chdir(r),
            Event::Open(fd) => Event::Open(fd),
            Event::Close => Event::Close,
            Event::ReadDir { n, buf } => Event::ReadDir { n, buf: buf@ },
            Event::ReadFile { n, buf } => Event::ReadFile { n, buf: buf@ },
            Event::Exec(code) => Event::Exec(code),
        }
    }
}

impl View for Goal<Vec<u8>, Vec<Vec<u8>>> {
    type V = Goal<Seq<u8>, Seq<Seq<u8>>>;

    open spec fn view(&self) -> Goal<Seq<u8>, Seq<Seq<u8>>> {
        match *self {
            Goal::Type { args, pos, missing } => Goal::Type { args: views(args@), pos, missing },
            Goal::Run { cmd } => Goal::Run { cmd: cmd@ },
        }
    }
}

impl View for Task<Vec<u8>, Vec<Vec<u8>>> {
    type V = Task<Seq<u8>, Seq<Seq<u8>>>;

    open spec fn view(&self) -> Task<Seq<u8>, Seq<Seq<u8>>> {
        match *self {
            Task::Line => Task::Line,
            Task::Cd { target, path } => Task::Cd { target: target@, path: path@ },
            Task::LsOpen { path } => Task::LsOpen { path: path@ },
            Task::LsRead { fd } => Task::LsRead { fd },
            Task::LsClose { n, buf } => Task::LsClose { n, buf: buf@ },
            Task::CatOpen { args, pos, failed } => Task::CatOpen {
                args: views(args@),
                pos,
                failed,
            },
            Task::CatRead { args, pos, failed, fd } => Task::CatRead {
                args: views(args@),
                pos,
                failed,
                fd,
            },
            Task::CatClose { args, pos, failed } => Task::CatClose {
                args: views(args@),
                pos,
                failed,
            },
            Task::Exec { arg } => Task::Exec { arg: arg@ },
            Task::SearchOpen { list, pos, goal } => Task::SearchOpen {
                list: views(list@),
                pos,
                goal: goal@,
            },
            Task::SearchClose { found, goal } => Task::SearchClose { found: found@, goal: goal@ },
            Task::Run { cmd } => Task::Run { cmd: cmd@ },
            Task::Halted => Task::Halted,
        }
    }
}

/// Whether `event` answers what the shell waits for in `task`.
pub open spec fn answers<B, L>(task: Task<B, L>, event: Event<B>) -> bool {
    match event {
        Event::Key(_) => task is Line,
        Event::Chdir(_) => task is Cd,
        Event::Open(_) => task is LsOpen || task is CatOpen || task is SearchOpen,
        Event::Close => task is LsClose || task is CatClose || task is SearchClose,
        Event::ReadDir { .. } => task is LsRead,
        Event::ReadFile { .. } => task is CatRead,
        Event::Exec(_) => task is Exec || task is Run,
    }
}

} // verus!
