//! The line editor: one line of input, key by key.
use crate::builtins::{builtin_names, builtins, lemma_short_names};
use crate::bytes::{copy, cut, cut_copy, text, ESC, NEWLINE, OPEN_BRACKET, SPACE};
use crate::history::{
    history_ok, no_history, remembered, History, HistoryState, HIST_ENTRY, MAX_LINE,
};
use crate::io::{
    law_write_nothing, law_writes_join, lemma_writes_3, lemma_writes_4, write_byte, write_bytes,
    write_str, wrote, StdoutWriter,
};
use vstd::prelude::*;

verus! {

pub const CTRL_C: u8 = 0x03;
pub const CTRL_D: u8 = 0x04;
pub const BACKSPACE: u8 = 0x08;
pub const TAB: u8 = 0x09;
pub const CARRIAGE_RETURN: u8 = 0x0d;
pub const CTRL_U: u8 = 0x15;
pub const DELETE: u8 = 0x7f;

/// How far the editor is into an escape sequence.
#[derive(Clone, Copy, PartialEq, Eq, Structural)]
pub enum KeyState {
    /// Not in an escape sequence.
    Ready,
    /// After `ESC`.
    Escape,
    /// After `ESC [`.
    Bracket,
    /// After `ESC [ 3`; the `~` is still to come.
    Tilde,
}

/// What a [`LineEditor`] stands for.
#[verifier::ext_equal]
pub struct EditorState {
    /// The current input.
    pub line: Seq<u8>,
    pub history: HistoryState,
    pub keys: KeyState,
}

/// Limits that every editor keeps.
pub open spec fn editor_ok(s: EditorState) -> bool {
    &&& s.line.len() < MAX_LINE
    &&& history_ok(s.history)
}

/// What a key does: the editor after it, what appears on the terminal, and
/// whether the line is complete.
#[verifier::ext_equal]
pub struct KeyResult {
    pub state: EditorState,
    pub out: Seq<u8>,
    pub done: bool,
}

/// Backspace, space, backspace: erases one character on the terminal.
pub open spec fn rub_out() -> Seq<u8> {
    seq![BACKSPACE, SPACE, BACKSPACE]
}

/// Erases `n` characters on the terminal.
pub open spec fn rub_outs(n: nat) -> Seq<u8>
    decreases n,
{
    if n == 0 {
        Seq::empty()
    } else {
        rub_outs((n - 1) as nat) + rub_out()
    }
}

/// The built-in commands that start with `prefix`.
pub open spec fn completions(prefix: Seq<u8>) -> Seq<Seq<u8>> {
    builtin_names().filter(|c: Seq<u8>| prefix.is_prefix_of(c))
}

/// The matches as they are listed, each with two spaces after it.
pub open spec fn listed(matches: Seq<Seq<u8>>) -> Seq<u8>
    decreases matches.len(),
{
    if matches.len() == 0 {
        Seq::empty()
    } else {
        listed(matches.drop_last()) + matches.last() + seq![SPACE, SPACE]
    }
}

/// The editor with `line` in place of its input, the user being at `pos` in
/// the history.
pub open spec fn replaced(s: EditorState, line: Seq<u8>, pos: int) -> KeyResult {
    KeyResult {
        state: EditorState { line, history: HistoryState { browse: pos, ..s.history }, ..s },
        out: rub_outs(s.line.len()) + line,
        done: false,
    }
}

/// The key has no effect.
pub open spec fn ignored(s: EditorState) -> KeyResult {
    KeyResult { state: s, out: Seq::empty(), done: false }
}

/// Up arrow: go back to the previous history entry, keeping the live input for
/// later.
pub open spec fn key_up(s: EditorState) -> KeyResult {
    let h = if s.history.browse == 0 {
        HistoryState { saved: s.line, ..s.history }
    } else {
        s.history
    };
    let s = EditorState { history: h, ..s };
    let pos = h.browse + 1;
    if pos > h.entries.len() {
        ignored(s)
    } else {
        replaced(s, h.entries[h.entries.len() - pos], pos)
    }
}

/// Down arrow: go on to the next more recent entry, or back to the live input.
pub open spec fn key_down(s: EditorState) -> KeyResult {
    let h = s.history;
    if h.browse == 0 {
        ignored(s)
    } else if h.browse == 1 {
        replaced(s, h.saved, 0)
    } else {
        replaced(s, h.entries[h.entries.len() - (h.browse - 1)], h.browse - 1)
    }
}

/// Tab: a single match replaces the input, with a space after it; several
/// matches are listed and the prompt and input shown again.
pub open spec fn key_tab(s: EditorState, prompt: Seq<u8>) -> KeyResult {
    let matches = completions(s.line);
    if matches.len() == 0 {
        ignored(s)
    } else if matches.len() == 1 {
        let line = cut(matches[0], MAX_LINE - 2).push(SPACE);
        KeyResult {
            state: EditorState { line, ..s },
            out: rub_outs(s.line.len()) + line,
            done: false,
        }
    } else {
        KeyResult {
            state: s,
            out: seq![NEWLINE] + listed(matches) + seq![NEWLINE] + prompt + s.line,
            done: false,
        }
    }
}

/// A byte that the terminal shows as a character.
pub open spec fn printable(b: u8) -> bool {
    0x20 <= b < 0x7f
}

/// A key outside an escape sequence.
pub open spec fn key_ready(s: EditorState, b: u8, prompt: Seq<u8>) -> KeyResult {
    if b == CARRIAGE_RETURN || b == NEWLINE {
        KeyResult { state: s, out: seq![NEWLINE], done: true }
    } else if b == ESC {
        ignored(EditorState { keys: KeyState::Escape, ..s })
    } else if b == BACKSPACE || b == DELETE {
        if s.line.len() > 0 {
            KeyResult {
                state: EditorState { line: s.line.drop_last(), ..s },
                out: rub_out(),
                done: false,
            }
        } else {
            ignored(s)
        }
    } else if b == CTRL_U {
        KeyResult {
            state: EditorState { line: Seq::empty(), ..s },
            out: rub_outs(s.line.len()),
            done: false,
        }
    } else if b == CTRL_C {
        KeyResult {
            state: EditorState { line: Seq::empty(), ..s },
            out: text("^C\n"@),
            done: true,
        }
    } else if b == CTRL_D {
        if s.line.len() == 0 {
            KeyResult {
                state: EditorState { line: text("exit"@), ..s },
                out: text("exit\n"@),
                done: true,
            }
        } else {
            ignored(s)
        }
    } else if b == TAB {
        key_tab(s, prompt)
    } else if printable(b) && s.line.len() < MAX_LINE - 1 {
        KeyResult {
            state: EditorState { line: s.line.push(b), ..s },
            out: seq![b],
            done: false,
        }
    } else {
        ignored(s)
    }
}

/// What key `b` does while a line is read after `prompt`.
#[verifier::opaque]
pub open spec fn key_effect(s: EditorState, b: u8, prompt: Seq<u8>) -> KeyResult {
    let ready = EditorState { keys: KeyState::Ready, ..s };
    match s.keys {
        KeyState::Ready => key_ready(s, b, prompt),
        KeyState::Escape => if b == OPEN_BRACKET {
            ignored(EditorState { keys: KeyState::Bracket, ..s })
        } else {
            ignored(ready)
        },
        KeyState::Bracket => if b == 'A' as u8 {
            key_up(ready)
        } else if b == 'B' as u8 {
            key_down(ready)
        } else if b == '3' as u8 {
            ignored(EditorState { keys: KeyState::Tilde, ..s })
        } else {
            ignored(ready)
        },
        KeyState::Tilde => ignored(ready),
    }
}

/// The editor at the start of a new line.
pub open spec fn fresh_line(s: EditorState) -> EditorState {
    EditorState {
        line: Seq::empty(),
        history: HistoryState { browse: 0, ..s.history },
        keys: KeyState::Ready,
    }
}

pub struct LineEditor {
    buf: Vec<u8>,
    history: History,
    keys: KeyState,
}

impl View for LineEditor {
    type V = EditorState;

    closed spec fn view(&self) -> EditorState {
        EditorState { line: self.buf@, history: self.history@, keys: self.keys }
    }
}

impl LineEditor {
    pub closed spec fn wf(&self) -> bool {
        &&& self.buf@.len() < MAX_LINE
        &&& self.history.wf()
    }

    /// A well-formed editor keeps the limits.
    pub proof fn lemma_ok(&self)
        requires
            self.wf(),
        ensures
            editor_ok(self@),
    {
        self.history.lemma_ok();
    }

    /// An editor with no input and no history.
    pub fn new() -> (r: Self)
        ensures
            r.wf(),
            r@ == (EditorState {
                line: Seq::empty(),
                history: no_history(),
                keys: KeyState::Ready,
            }),
    {
        LineEditor { buf: Vec::new(), history: History::new(), keys: KeyState::Ready }
    }

    /// The current input.
    pub fn line(&self) -> (r: &[u8])
        ensures
            r@ == self@.line,
    {
        self.buf.as_slice()
    }

    /// How far the editor is into an escape sequence.
    pub fn key_state(&self) -> (r: KeyState)
        ensures
            r == self@.keys,
    {
        self.keys
    }

    /// The lines entered so far.
    pub fn history(&self) -> (r: &History)
        requires
            self.wf(),
        ensures
            r.wf(),
            r@ == self@.history,
    {
        &self.history
    }

    /// Append `line` to the history.
    pub fn remember(&mut self, line: &[u8])
        requires
            old(self).wf(),
        ensures
            final(self).wf(),
            final(self)@ == (EditorState {
                history: remembered(old(self)@.history, line@),
                ..old(self)@
            }),
    {
        self.history.push(line);
    }

    /// Start to read a line: forget the current input and show `prompt`.
    pub fn read_line_start(&mut self, prompt: &[u8], out: &mut StdoutWriter)
        requires
            old(self).wf(),
            old(out).wf(),
        ensures
            final(self).wf(),
            final(out).wf(),
            final(self)@ == fresh_line(old(self)@),
            final(out)@ == wrote(old(out)@, prompt@),
    {
        self.buf = Vec::new();
        self.history.set_browse(0);
        self.keys = KeyState::Ready;
        write_bytes(out, prompt);
        assert(self.buf@ =~= Seq::<u8>::empty());
    }

    /// Take one key while a line is read.  Returns whether the line is
    /// complete.
    ///
    /// Handles:
    /// * Printable ASCII: echoed and appended to the input.
    /// * BS / DEL: erase the last character.
    /// * Ctrl-U: erase the entire line.
    /// * Ctrl-C: cancel; the line is complete and empty.
    /// * Ctrl-D on an empty line: the line is `exit`.
    /// * Tab: complete built-in commands.
    /// * `ESC [ A` / `ESC [ B`: history previous / next.
    /// * CR / LF: commit the line.
    pub fn read_line_key(&mut self, b: u8, prompt: &[u8], out: &mut StdoutWriter) -> (r: bool)
        requires
            old(self).wf(),
            old(out).wf(),
        ensures
            final(self).wf(),
            final(out).wf(),
            final(self)@ == key_effect(old(self)@, b, prompt@).state,
            final(out)@ == wrote(old(out)@, key_effect(old(self)@, b, prompt@).out),
            r == key_effect(old(self)@, b, prompt@).done,
    {
        proof {
            reveal(key_effect);
            self.lemma_ok();
            law_write_nothing(out@);
        }
        match self.keys {
            KeyState::Ready => {
                return self.ready_key(b, prompt, out);
            },
            KeyState::Escape => {
                self.keys = if b == OPEN_BRACKET {
                    KeyState::Bracket
                } else {
                    KeyState::Ready
                };
            },
            KeyState::Bracket => {
                self.keys = KeyState::Ready;
                if b == 'A' as u8 {
                    self.history_prev(out);
                } else if b == 'B' as u8 {
                    self.history_next(out);
                } else if b == '3' as u8 {
                    self.keys = KeyState::Tilde;
                }
            },
            KeyState::Tilde => {
                self.keys = KeyState::Ready;
            },
        }
        false
    }

    /// Take one key outside an escape sequence.
    fn ready_key(&mut self, b: u8, prompt: &[u8], out: &mut StdoutWriter) -> (r: bool)
        requires
            old(self).wf(),
            old(out).wf(),
            old(self)@.keys == KeyState::Ready,
        ensures
            final(self).wf(),
            final(out).wf(),
            final(self)@ == key_ready(old(self)@, b, prompt@).state,
            final(out)@ == wrote(old(out)@, key_ready(old(self)@, b, prompt@).out),
            r == key_ready(old(self)@, b, prompt@).done,
    {
        proof {
            law_write_nothing(out@);
        }
        if b == CARRIAGE_RETURN || b == NEWLINE {
            write_byte(out, NEWLINE);
            return true;
        }
        if b == ESC {
            self.keys = KeyState::Escape;
        } else if b == BACKSPACE || b == DELETE {
            if self.buf.len() > 0 {
                let _ = self.buf.pop();
                write_rub_out(out);
            }
        } else if b == CTRL_U {
            self.erase_input(out);
        } else if b == CTRL_C {
            write_str(out, "^C\n");
            self.buf = Vec::new();
            assert(self.buf@ =~= Seq::<u8>::empty());
            return true;
        } else if b == CTRL_D {
            if self.buf.len() == 0 {
                write_str(out, "exit\n");
                self.buf = copy("exit".as_bytes());
                proof {
                    lemma_exit_len();
                }
                return true;
            }
        } else if b == TAB {
            self.tab_complete(prompt, out);
        } else if b >= 0x20 && b < 0x7f {
            if self.buf.len() < MAX_LINE - 1 {
                self.buf.push(b);
                write_byte(out, b);
            }
        }
        false
    }

    /// Replace the current input with the previous history entry.
    fn history_prev(&mut self, out: &mut StdoutWriter)
        requires
            old(self).wf(),
            old(out).wf(),
        ensures
            final(self).wf(),
            final(out).wf(),
            final(self)@ == key_up(old(self)@).state,
            final(out)@ == wrote(old(out)@, key_up(old(self)@).out),
    {
        proof {
            self.lemma_ok();
            law_write_nothing(out@);
        }
        if self.history.browsing() == 0 {
            self.history.save(self.buf.as_slice());
        }
        let pos: usize = self.history.browsing() + 1;
        let entry: Vec<u8> = match self.history.get(pos) {
            Some(e) => copy(e),
            None => {
                return;
            },
        };
        proof {
            self.history.lemma_ok();
            assert(entry@.len() <= HIST_ENTRY);
        }
        self.erase_input(out);
        write_bytes(out, entry.as_slice());
        proof {
            law_writes_join(old(out)@, rub_outs(old(self)@.line.len()), entry@);
        }
        self.buf = entry;
        self.history.set_browse(pos);
    }

    /// Replace the current input with the next (more recent) history entry or
    /// restore the saved live input.
    fn history_next(&mut self, out: &mut StdoutWriter)
        requires
            old(self).wf(),
            old(out).wf(),
        ensures
            final(self).wf(),
            final(out).wf(),
            final(self)@ == key_down(old(self)@).state,
            final(out)@ == wrote(old(out)@, key_down(old(self)@).out),
    {
        proof {
            self.lemma_ok();
            self.history.lemma_ok();
            law_write_nothing(out@);
        }
        if self.history.browsing() == 0 {
            return;
        }
        let pos: usize = self.history.browsing() - 1;
        let line: Vec<u8> = if pos == 0 {
            copy(self.history.saved_line())
        } else {
            match self.history.get(pos) {
                Some(e) => copy(e),
                None => Vec::new(),
            }
        };
        assert(line@.len() < MAX_LINE);
        self.erase_input(out);
        write_bytes(out, line.as_slice());
        proof {
            law_writes_join(old(out)@, rub_outs(old(self)@.line.len()), line@);
        }
        self.buf = line;
        self.history.set_browse(pos);
    }

    /// Erase the current input, on the terminal as well.
    fn erase_input(&mut self, out: &mut StdoutWriter)
        requires
            old(self).wf(),
            old(out).wf(),
        ensures
            final(self).wf(),
            final(out).wf(),
            final(self)@ == (EditorState { line: Seq::empty(), ..old(self)@ }),
            final(out)@ == wrote(old(out)@, rub_outs(old(self)@.line.len())),
    {
        let n: usize = self.buf.len();
        let mut i: usize = 0;
        proof {
            law_write_nothing(out@);
        }
        while i < n
            invariant
                i <= n,
                out.wf(),
                old(out).wf(),
                out@ == wrote(old(out)@, rub_outs(i as nat)),
            decreases n - i,
        {
            write_rub_out(out);
            proof {
                law_writes_join(old(out)@, rub_outs(i as nat), rub_out());
            }
            i += 1;
        }
        self.buf = Vec::new();
        assert(self.buf@ =~= Seq::<u8>::empty());
    }

    /// Tab-complete the current input against the built-in command list.
    fn tab_complete(&mut self, prompt: &[u8], out: &mut StdoutWriter)
        requires
            old(self).wf(),
            old(out).wf(),
        ensures
            final(self).wf(),
            final(out).wf(),
            final(self)@ == key_tab(old(self)@, prompt@).state,
            final(out)@ == wrote(old(out)@, key_tab(old(self)@, prompt@).out),
    {
        let ghost w0 = out@;
        let ghost line0 = self.buf@;
        proof {
            law_write_nothing(out@);
        }
        let matches: Vec<&'static str> = find_completions(self.buf.as_slice());
        let ghost all = completions(line0);
        if matches.len() == 0 {
        } else if matches.len() == 1 {
            self.erase_input(out);
            let mut line: Vec<u8> = cut_copy(matches[0].as_bytes(), MAX_LINE - 2);
            line.push(SPACE);
            write_bytes(out, line.as_slice());
            proof {
                law_writes_join(w0, rub_outs(line0.len()), line@);
            }
            self.buf = line;
        } else {
            write_byte(out, NEWLINE);
            let ghost head = seq![NEWLINE];
            let mut i: usize = 0;
            assert(head + listed(all.take(0)) =~= head);
            while i < matches.len()
                invariant
                    i <= matches@.len(),
                    matches@.len() == all.len(),
                    forall|k: int|
                        0 <= k < matches@.len() ==> text(#[trigger] matches@[k]@) == all[k],
                    out.wf(),
                    w0.captured.len() <= crate::io::PIPE_BUF_SIZE,
                    out@ == wrote(w0, head + listed(all.take(i as int))),
                decreases matches@.len() - i,
            {
                write_str(out, matches[i]);
                write_str(out, "  ");
                i += 1;
                proof {
                    let sofar = head + listed(all.take(i - 1));
                    lemma_two_spaces();
                    lemma_writes_3(w0, sofar, all[i - 1], seq![SPACE, SPACE]);
                    assert(all.take(i as int).drop_last() =~= all.take(i - 1));
                    assert(head + listed(all.take(i as int)) =~= sofar + all[i - 1] + seq![
                        SPACE,
                        SPACE,
                    ]);
                }
            }
            assert(all.take(i as int) =~= all);
            write_byte(out, NEWLINE);
            write_bytes(out, prompt);
            write_bytes(out, self.buf.as_slice());
            proof {
                lemma_writes_4(w0, head + listed(all), seq![NEWLINE], prompt@, line0);
            }
        }
    }
}

/// Erase one character on the terminal.
fn write_rub_out(out: &mut StdoutWriter)
    requires
        old(out).wf(),
    ensures
        final(out).wf(),
        final(out)@ == wrote(old(out)@, rub_out()),
{
    let bs: [u8; 3] = [BACKSPACE, SPACE, BACKSPACE];
    assert(bs@ =~= rub_out());
    write_bytes(out, &bs);
}

pub(crate) proof fn lemma_exit_len()
    ensures
        text("exit"@).len() == 4,
{
    reveal_strlit("exit");
    vstd::utf8::is_ascii_chars_encode_utf8("exit"@);
}

proof fn lemma_two_spaces()
    ensures
        text("  "@) == seq![SPACE, SPACE],
{
    reveal_strlit("  ");
    vstd::utf8::is_ascii_chars_encode_utf8("  "@);
    assert(text("  "@) =~= seq![SPACE, SPACE]);
}

/// Whether `prefix` is how `s` starts.
fn starts_with(s: &[u8], prefix: &[u8]) -> (r: bool)
    ensures
        r == prefix@.is_prefix_of(s@),
{
    if s.len() < prefix.len() {
        return false;
    }
    let r: bool = crate::bytes::same(&s[0..prefix.len()], prefix);
    r
}

/// The built-in commands that start with `prefix`.
fn find_completions(prefix: &[u8]) -> (r: Vec<&'static str>)
    ensures
        r@.len() == completions(prefix@).len(),
        forall|i: int| 0 <= i < r@.len() ==> text(#[trigger] r@[i]@) == completions(prefix@)[i],
{
    let names: Vec<&'static str> = builtins();
    let ghost all = builtin_names();
    let ghost pred = |c: Seq<u8>| prefix@.is_prefix_of(c);
    let mut r: Vec<&'static str> = Vec::new();
    let mut i: usize = 0;
    reveal(Seq::filter);
    assert(all.take(0).filter(pred).len() == 0);
    while i < names.len()
        invariant
            i <= names@.len(),
            names@.len() == all.len(),
            forall|k: int| 0 <= k < names@.len() ==> text(#[trigger] names@[k]@) == all[k],
            pred == (|c: Seq<u8>| prefix@.is_prefix_of(c)),
            r@.len() == all.take(i as int).filter(pred).len(),
            forall|k: int|
                0 <= k < r@.len() ==> text(#[trigger] r@[k]@) == all.take(i as int).filter(pred)[k],
        decreases names@.len() - i,
    {
        let name: &'static str = names[i];
        let ghost found = all.take(i as int).filter(pred);
        assert(all.take(i + 1).drop_last() =~= all.take(i as int));
        assert(all.take(i + 1).filter(pred) == if pred(all[i as int]) {
            found.push(all[i as int])
        } else {
            found
        }) by {
            reveal(Seq::filter);
        }
        if starts_with(name.as_bytes(), prefix) {
            r.push(name);
        }
        i += 1;
    }
    assert(all.take(i as int) =~= all);
    r
}

// Laws -------------------------------------------------------------------------

/// What a series of keys does.  Keys after the one that completes the line have
/// no effect.
pub open spec fn keys_effect(s: EditorState, keys: Seq<u8>, prompt: Seq<u8>) -> KeyResult
    decreases keys.len(),
{
    if keys.len() == 0 {
        ignored(s)
    } else {
        let before = keys_effect(s, keys.drop_last(), prompt);
        if before.done {
            before
        } else {
            let last = key_effect(before.state, keys.last(), prompt);
            KeyResult { state: last.state, out: before.out + last.out, done: last.done }
        }
    }
}

proof fn lemma_one_more_key(s: EditorState, keys: Seq<u8>, b: u8, prompt: Seq<u8>)
    ensures
        ({
            let before = keys_effect(s, keys, prompt);
            let last = key_effect(before.state, b, prompt);
            !before.done ==> keys_effect(s, keys.push(b), prompt) == (KeyResult {
                state: last.state,
                out: before.out + last.out,
                done: last.done,
            })
        }),
{
    assert(keys.push(b).drop_last() =~= keys);
}

/// No key takes the input or the history past its limits.
pub proof fn law_key_keeps_limits(s: EditorState, b: u8, prompt: Seq<u8>)
    requires
        editor_ok(s),
    ensures
        editor_ok(key_effect(s, b, prompt).state),
{
    reveal(key_effect);
    lemma_exit_len();
}

/// No key but those that complete a line changes what is remembered, and those
/// do not either: the history changes only when the line is entered.
pub proof fn law_key_keeps_entries(s: EditorState, b: u8, prompt: Seq<u8>)
    ensures
        key_effect(s, b, prompt).state.history.entries == s.history.entries,
        key_effect(s, b, prompt).state.history.last == s.history.last,
{
    reveal(key_effect);
}

proof fn lemma_printable_key(s: EditorState, b: u8, prompt: Seq<u8>)
    requires
        s.keys == KeyState::Ready,
        printable(b),
    ensures
        key_effect(s, b, prompt) == if s.line.len() < MAX_LINE - 1 {
            KeyResult {
                state: EditorState { line: s.line.push(b), ..s },
                out: seq![b],
                done: false,
            }
        } else {
            ignored(s)
        },
{
    reveal(key_effect);
}

/// Printable characters are echoed and appended, as far as there is room.
pub proof fn law_typing_appends(s: EditorState, typed: Seq<u8>, prompt: Seq<u8>)
    requires
        s.keys == KeyState::Ready,
        s.line.len() < MAX_LINE,
        forall|i: int| 0 <= i < typed.len() ==> printable(#[trigger] typed[i]),
    ensures
        keys_effect(s, typed, prompt) == (KeyResult {
            state: EditorState { line: cut(s.line + typed, MAX_LINE - 1), ..s },
            out: cut(typed, MAX_LINE - 1 - s.line.len()),
            done: false,
        }),
    decreases typed.len(),
{
    if typed.len() == 0 {
        assert(s.line + typed =~= s.line);
        assert(typed =~= Seq::<u8>::empty());
    } else {
        let front = typed.drop_last();
        assert forall|i: int| 0 <= i < front.len() implies printable(#[trigger] front[i]) by {
            assert(front[i] == typed[i]);
        }
        law_typing_appends(s, front, prompt);
        assert(printable(typed[typed.len() - 1]));
        let room = MAX_LINE - 1 - s.line.len();
        let before = cut(s.line + front, MAX_LINE - 1);
        lemma_printable_key(EditorState { line: before, ..s }, typed.last(), prompt);
        if front.len() < room {
            assert(before.push(typed.last()) =~= cut(s.line + typed, MAX_LINE - 1));
            assert(cut(front, room) + seq![typed.last()] =~= cut(typed, room));
        } else {
            assert(before =~= cut(s.line + typed, MAX_LINE - 1));
            assert(cut(front, room) + Seq::<u8>::empty() =~= cut(typed, room));
        }
    }
}

/// Whether `b` commits a line.
pub open spec fn commits(b: u8) -> bool {
    b == CARRIAGE_RETURN || b == NEWLINE
}

/// What was typed at a fresh prompt and committed with Enter is the line that
/// comes back, as far as there was room.
pub proof fn law_typed_line_comes_back(s: EditorState, typed: Seq<u8>, enter: u8, prompt: Seq<u8>)
    requires
        commits(enter),
        forall|i: int| 0 <= i < typed.len() ==> printable(#[trigger] typed[i]),
    ensures
        keys_effect(fresh_line(s), typed.push(enter), prompt) == (KeyResult {
            state: EditorState { line: cut(typed, MAX_LINE - 1), ..fresh_line(s) },
            out: cut(typed, MAX_LINE - 1).push(NEWLINE),
            done: true,
        }),
{
    reveal(key_effect);
    law_typing_appends(fresh_line(s), typed, prompt);
    lemma_one_more_key(fresh_line(s), typed, enter, prompt);
    let line = cut(typed, MAX_LINE - 1);
    assert(Seq::<u8>::empty() + typed =~= typed);
    assert(line + seq![NEWLINE] =~= line.push(NEWLINE));
}

/// Backspace undoes a typed character.
pub proof fn law_backspace_undoes(s: EditorState, b: u8, prompt: Seq<u8>)
    requires
        s.keys == KeyState::Ready,
        s.line.len() < MAX_LINE - 1,
        printable(b),
    ensures
        keys_effect(s, seq![b, BACKSPACE], prompt).state == s,
        !keys_effect(s, seq![b, BACKSPACE], prompt).done,
{
    reveal(key_effect);
    let none = Seq::<u8>::empty();
    lemma_one_more_key(s, none, b, prompt);
    lemma_one_more_key(s, none.push(b), BACKSPACE, prompt);
    assert(none.push(b).push(BACKSPACE) =~= seq![b, BACKSPACE]);
    assert(s.line.push(b).drop_last() =~= s.line);
}

/// The keys of the arrow that ends in `dir`, pressed `n` times.
pub open spec fn arrows(dir: u8, n: nat) -> Seq<u8>
    decreases n,
{
    if n == 0 {
        Seq::empty()
    } else {
        arrows(dir, (n - 1) as nat) + seq![ESC, OPEN_BRACKET, dir]
    }
}

/// The up arrow, pressed `n` times.
pub open spec fn ups(n: nat) -> Seq<u8> {
    arrows('A' as u8, n)
}

/// The down arrow, pressed `n` times.
pub open spec fn downs(n: nat) -> Seq<u8> {
    arrows('B' as u8, n)
}

/// The editor `s`, which is at its live input, once the user has gone back to
/// place `pos` in the history: the live input is kept, and in its place stands
/// the entry at `pos`, or the live input itself where `pos` is 0.
pub open spec fn gone_back(s: EditorState, pos: nat) -> EditorState {
    EditorState {
        line: if pos == 0 {
            s.line
        } else {
            s.history.entries[s.history.entries.len() - pos]
        },
        history: HistoryState { browse: pos as int, saved: s.line, ..s.history },
        ..s
    }
}

proof fn lemma_arrow(s: EditorState, keys: Seq<u8>, dir: u8, prompt: Seq<u8>)
    requires
        !keys_effect(s, keys, prompt).done,
        keys_effect(s, keys, prompt).state.keys == KeyState::Ready,
        dir == 'A' as u8 || dir == 'B' as u8,
    ensures
        ({
            let before = keys_effect(s, keys, prompt);
            let moved = if dir == 'A' as u8 {
                key_up(before.state)
            } else {
                key_down(before.state)
            };
            keys_effect(s, keys + seq![ESC, OPEN_BRACKET, dir], prompt) == (KeyResult {
                state: moved.state,
                out: before.out + moved.out,
                done: false,
            })
        }),
{
    reveal(key_effect);
    let before = keys_effect(s, keys, prompt);
    let k1 = keys.push(ESC);
    let k2 = k1.push(OPEN_BRACKET);
    lemma_one_more_key(s, keys, ESC, prompt);
    lemma_one_more_key(s, k1, OPEN_BRACKET, prompt);
    lemma_one_more_key(s, k2, dir, prompt);
    assert(k2.push(dir) =~= keys + seq![ESC, OPEN_BRACKET, dir]);
    assert(before.out + Seq::<u8>::empty() =~= before.out);
    assert(EditorState { keys: KeyState::Ready, ..keys_effect(s, k2, prompt).state }
        == before.state);
}

proof fn lemma_ups(s: EditorState, k: nat, prompt: Seq<u8>)
    requires
        s.keys == KeyState::Ready,
        s.history.browse == 0,
        k <= s.history.entries.len(),
    ensures
        !keys_effect(s, ups(k), prompt).done,
        keys_effect(s, ups(k), prompt).state == if k == 0 {
            s
        } else {
            gone_back(s, k)
        },
    decreases k,
{
    if k > 0 {
        lemma_ups(s, (k - 1) as nat, prompt);
        lemma_arrow(s, ups((k - 1) as nat), 'A' as u8, prompt);
    }
}

/// Going back in the history shows the entries from the most recent one on, and
/// going on again shows them in the opposite order: after `k` steps back and
/// `j` on, the user is at place `k - j`.
pub proof fn law_history_walk(s: EditorState, k: nat, j: nat, prompt: Seq<u8>)
    requires
        s.keys == KeyState::Ready,
        s.history.browse == 0,
        0 < k <= s.history.entries.len(),
        j <= k,
    ensures
        !keys_effect(s, ups(k) + downs(j), prompt).done,
        keys_effect(s, ups(k) + downs(j), prompt).state == gone_back(s, (k - j) as nat),
    decreases j,
{
    if j == 0 {
        lemma_ups(s, k, prompt);
        assert(ups(k) + downs(0) =~= ups(k));
    } else {
        let i = (j - 1) as nat;
        law_history_walk(s, k, i, prompt);
        lemma_arrow(s, ups(k) + downs(i), 'B' as u8, prompt);
        assert(ups(k) + downs(i) + seq![ESC, OPEN_BRACKET, 'B' as u8] =~= ups(k) + downs(j));
    }
}

/// Going back any number of entries in the history and on again as many
/// restores the live input; going on further changes nothing and writes
/// nothing.
pub proof fn law_up_down_restores(s: EditorState, k: nat, prompt: Seq<u8>)
    requires
        s.keys == KeyState::Ready,
        s.history.browse == 0,
        1 <= k <= s.history.entries.len(),
    ensures
        ({
            let back = keys_effect(s, ups(k) + downs(k), prompt);
            &&& !back.done
            &&& back.state == (EditorState {
                history: HistoryState { saved: s.line, ..s.history },
                ..s
            })
            &&& keys_effect(s, ups(k) + downs(k) + downs(1), prompt) == back
        }),
{
    law_history_walk(s, k, k, prompt);
    let keys = ups(k) + downs(k);
    lemma_arrow(s, keys, 'B' as u8, prompt);
    assert(downs(1) =~= seq![ESC, OPEN_BRACKET, 'B' as u8]) by {
        assert(downs(0) =~= Seq::<u8>::empty());
    }
    let out = keys_effect(s, keys, prompt).out;
    assert(out + Seq::<u8>::empty() =~= out);
}

/// Tab offers the built-in commands that start with the input: all of them, and
/// nothing else.
pub proof fn law_completions(prefix: Seq<u8>, name: Seq<u8>)
    ensures
        completions(prefix).contains(name) <==> builtin_names().contains(name)
            && prefix.is_prefix_of(name),
{
    let pred = |c: Seq<u8>| prefix.is_prefix_of(c);
    if completions(prefix).contains(name) {
        let k = choose|k: int|
            0 <= k < completions(prefix).len() && completions(prefix)[k] == name;
        builtin_names().lemma_filter_contains_rev(pred, name);
        builtin_names().lemma_filter_pred(pred, k);
    }
    if builtin_names().contains(name) && prefix.is_prefix_of(name) {
        let i = choose|i: int| 0 <= i < builtin_names().len() && builtin_names()[i] == name;
        builtin_names().lemma_filter_contains(pred, i);
    }
}

/// Erasing `n` characters takes `n` times backspace, space, backspace.
pub proof fn law_rub_outs(n: nat)
    ensures
        rub_outs(n).len() == 3 * n,
        forall|i: int|
            0 <= i < 3 * n ==> #[trigger] rub_outs(n)[i] == if i % 3 == 1 {
                0x20u8
            } else {
                0x08u8
            },
    decreases n,
{
    if n > 0 {
        law_rub_outs((n - 1) as nat);
    }
}

/// The names among `names` that start with `prefix`, each with two spaces after
/// it, in order.
pub open spec fn matching_list(names: Seq<Seq<u8>>, prefix: Seq<u8>) -> Seq<u8>
    decreases names.len(),
{
    if names.len() == 0 {
        Seq::empty()
    } else if prefix.is_prefix_of(names.last()) {
        matching_list(names.drop_last(), prefix) + names.last() + seq![0x20u8, 0x20]
    } else {
        matching_list(names.drop_last(), prefix)
    }
}

proof fn lemma_matches(names: Seq<Seq<u8>>, prefix: Seq<u8>)
    ensures
        ({
            let found = names.filter(|c: Seq<u8>| prefix.is_prefix_of(c));
            &&& listed(found) == matching_list(names, prefix)
            &&& (forall|i: int|
                0 <= i < names.len() ==> !prefix.is_prefix_of(#[trigger] names[i]))
                ==> found.len() == 0
            &&& forall|i: int|
                0 <= i < names.len() && prefix.is_prefix_of(#[trigger] names[i]) ==> found.len()
                    > 0
            &&& forall|i: int, j: int|
                0 <= i < j < names.len() && prefix.is_prefix_of(#[trigger] names[i])
                    && prefix.is_prefix_of(#[trigger] names[j]) ==> found.len() > 1
        }),
    decreases names.len(),
{
    reveal(Seq::filter);
    if names.len() > 0 {
        let front = names.drop_last();
        lemma_matches(front, prefix);
        let pred = |c: Seq<u8>| prefix.is_prefix_of(c);
        let found = names.filter(pred);
        let before = front.filter(pred);
        if pred(names.last()) {
            assert(found == before.push(names.last()));
            assert(found.drop_last() =~= before);
        } else {
            assert(found == before);
        }
        assert forall|i: int|
            0 <= i < names.len() && prefix.is_prefix_of(#[trigger] names[i]) implies found.len()
            > 0 by {
            if i < front.len() {
                assert(front[i] == names[i]);
            }
        }
        assert forall|i: int, j: int|
            0 <= i < j < names.len() && prefix.is_prefix_of(#[trigger] names[i])
                && prefix.is_prefix_of(#[trigger] names[j]) implies found.len() > 1 by {
            assert(front[i] == names[i]);
            if j < front.len() {
                assert(front[j] == names[j]);
            }
        }
        if forall|i: int| 0 <= i < names.len() ==> !prefix.is_prefix_of(#[trigger] names[i]) {
            assert forall|i: int| 0 <= i < front.len() implies !prefix.is_prefix_of(
                #[trigger] front[i],
            ) by {
                assert(front[i] == names[i]);
            }
            assert(!prefix.is_prefix_of(names[names.len() - 1]));
        }
    }
}

proof fn lemma_single_match(names: Seq<Seq<u8>>, prefix: Seq<u8>, i: int)
    requires
        0 <= i < names.len(),
        prefix.is_prefix_of(names[i]),
        forall|j: int| 0 <= j < names.len() && prefix.is_prefix_of(#[trigger] names[j]) ==> j == i,
    ensures
        names.filter(|c: Seq<u8>| prefix.is_prefix_of(c)) == seq![names[i]],
    decreases names.len(),
{
    reveal(Seq::filter);
    let front = names.drop_last();
    let pred = |c: Seq<u8>| prefix.is_prefix_of(c);
    if i == names.len() - 1 {
        assert forall|j: int| 0 <= j < front.len() implies !prefix.is_prefix_of(
            #[trigger] front[j],
        ) by {
            assert(front[j] == names[j]);
        }
        lemma_matches(front, prefix);
        assert(front.filter(pred) =~= Seq::<Seq<u8>>::empty());
        assert(names.filter(pred) =~= seq![names[i]]);
    } else {
        assert forall|j: int| 0 <= j < front.len() && prefix.is_prefix_of(
            #[trigger] front[j],
        ) implies j == i by {
            assert(front[j] == names[j]);
        }
        assert(front[i] == names[i]);
        lemma_single_match(front, prefix, i);
        assert(!pred(names[names.len() - 1]));
    }
}

/// Tab without a matching built-in name does nothing.
pub proof fn law_tab_no_match(s: EditorState, prompt: Seq<u8>)
    requires
        s.keys == KeyState::Ready,
        forall|i: int|
            0 <= i < builtin_names().len() ==> !s.line.is_prefix_of(#[trigger] builtin_names()[i]),
    ensures
        key_effect(s, 0x09, prompt) == (KeyResult { state: s, out: Seq::empty(), done: false }),
{
    reveal(key_effect);
    lemma_matches(builtin_names(), s.line);
}

/// Tab completes the input, with a space after it, if exactly one built-in name
/// starts with it; the old input is erased on the terminal first.
pub proof fn law_tab_completes(s: EditorState, i: int, prompt: Seq<u8>)
    requires
        s.keys == KeyState::Ready,
        0 <= i < builtin_names().len(),
        s.line.is_prefix_of(builtin_names()[i]),
        forall|j: int|
            0 <= j < builtin_names().len() && s.line.is_prefix_of(#[trigger] builtin_names()[j])
                ==> j == i,
    ensures
        key_effect(s, 0x09, prompt) == (KeyResult {
            state: EditorState { line: builtin_names()[i].push(0x20), ..s },
            out: rub_outs(s.line.len()) + builtin_names()[i].push(0x20),
            done: false,
        }),
{
    reveal(key_effect);
    lemma_short_names();
    lemma_single_match(builtin_names(), s.line, i);
}

/// Tab leaves the input alone if two built-in names start with it, and lists
/// all that do on a line of their own, before it shows the prompt and the input
/// again.
pub proof fn law_tab_lists(s: EditorState, i: int, j: int, prompt: Seq<u8>)
    requires
        s.keys == KeyState::Ready,
        0 <= i < j < builtin_names().len(),
        s.line.is_prefix_of(builtin_names()[i]),
        s.line.is_prefix_of(builtin_names()[j]),
    ensures
        key_effect(s, 0x09, prompt) == (KeyResult {
            state: s,
            out: seq![0x0au8] + matching_list(builtin_names(), s.line) + seq![0x0au8] + prompt
                + s.line,
            done: false,
        }),
{
    reveal(key_effect);
    lemma_matches(builtin_names(), s.line);
}

/// Backspace and DEL take off the last character, whatever it is, and rub it
/// out on the terminal; on an empty line they do nothing.
pub proof fn law_backspace(s: EditorState, b: u8, prompt: Seq<u8>)
    requires
        s.keys == KeyState::Ready,
        b == 0x08 || b == 0x7f,
    ensures
        s.line.len() > 0 ==> key_effect(s, b, prompt) == (KeyResult {
            state: EditorState { line: s.line.take(s.line.len() - 1), ..s },
            out: seq![0x08u8, 0x20, 0x08],
            done: false,
        }),
        s.line.len() == 0 ==> key_effect(s, b, prompt) == (KeyResult {
            state: s,
            out: Seq::empty(),
            done: false,
        }),
{
    reveal(key_effect);
    if s.line.len() > 0 {
        assert(s.line.drop_last() =~= s.line.take(s.line.len() - 1));
    }
}

/// Ctrl-U takes off the whole input and rubs out as many characters.
pub proof fn law_ctrl_u(s: EditorState, prompt: Seq<u8>)
    requires
        s.keys == KeyState::Ready,
    ensures
        key_effect(s, 0x15, prompt) == (KeyResult {
            state: EditorState { line: Seq::empty(), ..s },
            out: rub_outs(s.line.len()),
            done: false,
        }),
{
    reveal(key_effect);
}

/// Enter completes the line as it stands; Ctrl-C completes it as an empty one;
/// Ctrl-D completes an empty line as `exit` and does nothing on any other.
pub proof fn law_completing_keys(s: EditorState, b: u8, prompt: Seq<u8>)
    requires
        s.keys == KeyState::Ready,
    ensures
        b == 0x0a || b == 0x0d ==> key_effect(s, b, prompt) == (KeyResult {
            state: s,
            out: seq![0x0au8],
            done: true,
        }),
        key_effect(s, 0x03, prompt) == (KeyResult {
            state: EditorState { line: Seq::empty(), ..s },
            out: text("^C\n"@),
            done: true,
        }),
        s.line.len() == 0 ==> key_effect(s, 0x04, prompt) == (KeyResult {
            state: EditorState { line: text("exit"@), ..s },
            out: text("exit\n"@),
            done: true,
        }),
        s.line.len() > 0 ==> key_effect(s, 0x04, prompt) == (KeyResult {
            state: s,
            out: Seq::empty(),
            done: false,
        }),
{
    reveal(key_effect);
}

/// A printable character is appended and echoed while the input is shorter than
/// 255 bytes, and ignored then; a byte that neither is printable nor has a
/// meaning of its own is ignored.
pub proof fn law_other_keys(s: EditorState, b: u8, prompt: Seq<u8>)
    requires
        s.keys == KeyState::Ready,
    ensures
        0x20 <= b < 0x7f && s.line.len() < 255 ==> key_effect(s, b, prompt) == (KeyResult {
            state: EditorState { line: s.line.push(b), ..s },
            out: seq![b],
            done: false,
        }),
        0x20 <= b < 0x7f && s.line.len() >= 255 ==> key_effect(s, b, prompt) == (KeyResult {
            state: s,
            out: Seq::empty(),
            done: false,
        }),
        (b >= 0x80 || (b < 0x20 && b != 0x03 && b != 0x04 && b != 0x08 && b != 0x09 && b != 0x0a
            && b != 0x0d && b != 0x15 && b != 0x1b)) ==> key_effect(s, b, prompt) == (KeyResult {
            state: s,
            out: Seq::empty(),
            done: false,
        }),
{
    reveal(key_effect);
}

/// Escape sequences other than the up and down arrows do nothing: ESC and any
/// byte but `[`, ESC `[` and any byte but `A`, `B` and `3`, and ESC `[ 3` and
/// any byte.
pub proof fn law_ignored_sequences(s: EditorState, x: u8, prompt: Seq<u8>)
    requires
        s.keys == KeyState::Ready,
    ensures
        x != 0x5b ==> keys_effect(s, seq![0x1bu8, x], prompt) == (KeyResult {
            state: s,
            out: Seq::empty(),
            done: false,
        }),
        x != 0x41 && x != 0x42 && x != 0x33 ==> keys_effect(s, seq![0x1bu8, 0x5b, x], prompt) == (
        KeyResult { state: s, out: Seq::empty(), done: false }),
        keys_effect(s, seq![0x1bu8, 0x5b, 0x33, x], prompt) == (KeyResult {
            state: s,
            out: Seq::empty(),
            done: false,
        }),
{
    reveal(key_effect);
    let none = Seq::<u8>::empty();
    let k1 = none.push(0x1b);
    let k2 = k1.push(0x5b);
    let k3 = k2.push(0x33);
    lemma_one_more_key(s, none, 0x1b, prompt);
    lemma_one_more_key(s, k1, x, prompt);
    lemma_one_more_key(s, k1, 0x5b, prompt);
    lemma_one_more_key(s, k2, x, prompt);
    lemma_one_more_key(s, k2, 0x33, prompt);
    lemma_one_more_key(s, k3, x, prompt);
    assert(k1.push(x) =~= seq![0x1bu8, x]);
    assert(k2.push(x) =~= seq![0x1bu8, 0x5b, x]);
    assert(k3.push(x) =~= seq![0x1bu8, 0x5b, 0x33, x]);
    assert(none + none =~= none);
}

/// The up arrow goes back one entry and shows it in place of the input, unless
/// there is none further back; the down arrow goes on by one, to the kept input
/// in the end, unless the user is there already.  Where the place changes, the
/// old input is rubbed out and the new one written; else nothing is.
pub proof fn law_arrows(s: EditorState, prompt: Seq<u8>)
    requires
        s.keys == KeyState::Ready,
        0 <= s.history.browse <= s.history.entries.len(),
    ensures
        ({
            let up = keys_effect(s, seq![0x1bu8, 0x5b, 0x41], prompt);
            let down = keys_effect(s, seq![0x1bu8, 0x5b, 0x42], prompt);
            let h = s.history;
            let n = h.entries.len();
            let kept = if h.browse == 0 {
                s.line
            } else {
                h.saved
            };
            &&& !up.done && !down.done
            &&& up.state.keys == KeyState::Ready && down.state.keys == KeyState::Ready
            &&& h.browse < n ==> {
                &&& up.state.line == h.entries[n - 1 - h.browse]
                &&& up.state.history == (HistoryState { browse: h.browse + 1, saved: kept, ..h })
                &&& up.out == rub_outs(s.line.len()) + up.state.line
            }
            &&& h.browse == n ==> {
                &&& up.state == (EditorState { history: HistoryState { saved: kept, ..h }, ..s })
                &&& up.out.len() == 0
            }
            &&& h.browse > 1 ==> down.state.line == h.entries[n - (h.browse - 1)]
            &&& h.browse == 1 ==> down.state.line == h.saved
            &&& h.browse > 0 ==> {
                &&& down.state.history == (HistoryState { browse: h.browse - 1, ..h })
                &&& down.out == rub_outs(s.line.len()) + down.state.line
            }
            &&& h.browse == 0 ==> down.state == s && down.out.len() == 0
        }),
{
    let none = Seq::<u8>::empty();
    lemma_arrow(s, none, 'A' as u8, prompt);
    lemma_arrow(s, none, 'B' as u8, prompt);
    assert(none + seq![ESC, OPEN_BRACKET, 'A' as u8] =~= seq![0x1bu8, 0x5b, 0x41]);
    assert(none + seq![ESC, OPEN_BRACKET, 'B' as u8] =~= seq![0x1bu8, 0x5b, 0x42]);
    assert(none + key_up(s).out =~= key_up(s).out);
    assert(none + key_down(s).out =~= key_down(s).out);
}

/// A new line starts with no input, at the live input, and forgets nothing.
pub proof fn law_fresh_line(s: EditorState)
    ensures
        fresh_line(s).line.len() == 0,
        fresh_line(s).keys == KeyState::Ready,
        fresh_line(s).history == (HistoryState { browse: 0, ..s.history }),
{
}

} // verus!
