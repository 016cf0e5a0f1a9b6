//! The command history: a ring buffer of the lines entered last.
use crate::bytes::{copy, cut, cut_copy, same, trim, trimmed};
use vstd::prelude::*;

verus! {

/// Maximum length of a single input line (bytes), including room for an end.
pub const MAX_LINE: usize = 256;

/// Number of history entries retained.
pub const HIST_CAP: usize = 20;

/// Maximum length of a history entry (bytes).
pub const HIST_ENTRY: usize = 128;

/// What a [`History`] stands for.
#[verifier::ext_equal]
pub struct HistoryState {
    /// The retained lines, the oldest first.
    pub entries: Seq<Seq<u8>>,
    /// How far the user has gone back: 0 is the live input, 1 the most recent
    /// entry, and so on.
    pub browse: int,
    /// The live input as it was when the user started to go back.
    pub saved: Seq<u8>,
    /// The line entered last, in full but for surrounding whitespace; empty if
    /// there is none.
    pub last: Seq<u8>,
}

/// Limits that every history keeps.
pub open spec fn history_ok(h: HistoryState) -> bool {
    &&& h.entries.len() <= HIST_CAP
    &&& forall|i: int|
        0 <= i < h.entries.len() ==> 0 < (#[trigger] h.entries[i]).len() <= HIST_ENTRY
    &&& 0 <= h.browse <= h.entries.len()
    &&& h.saved.len() < MAX_LINE
    &&& h.last.len() > 0 ==> h.entries.len() > 0 && h.entries.last() == cut(
        h.last,
        HIST_ENTRY as int,
    )
}

/// The retained lines with `entry` as the most recent one.  The oldest makes
/// room when there is none.
pub open spec fn with_entry(entries: Seq<Seq<u8>>, entry: Seq<u8>) -> Seq<Seq<u8>> {
    if entries.len() < HIST_CAP {
        entries.push(entry)
    } else {
        entries.push(entry).skip(1)
    }
}

/// Whether `line`, which has no surrounding whitespace, repeats the line before
/// it or what has been retained of that.
pub open spec fn repeats(h: HistoryState, line: Seq<u8>) -> bool {
    h.last == line || (h.entries.len() > 0 && h.entries.last() == line)
}

/// The history after `line` has been entered.  Surrounding whitespace is
/// dropped; an empty line and a repeated one are skipped; a long line is cut.
pub open spec fn remembered(h: HistoryState, line: Seq<u8>) -> HistoryState {
    let t = trimmed(line);
    if t.len() == 0 {
        h
    } else if repeats(h, t) {
        HistoryState { last: t, ..h }
    } else {
        HistoryState { entries: with_entry(h.entries, cut(t, HIST_ENTRY as int)), last: t, ..h }
    }
}

/// The history of a shell in which nothing has been entered yet.
pub open spec fn no_history() -> HistoryState {
    HistoryState { entries: Seq::empty(), browse: 0, saved: Seq::empty(), last: Seq::empty() }
}

pub struct History {
    /// The slots of the ring that are in use.
    slots: Vec<Vec<u8>>,
    /// The slot that the next line goes to.
    next: usize,
    /// See [`HistoryState::browse`].
    browse: usize,
    /// See [`HistoryState::saved`].
    saved: Vec<u8>,
    /// See [`HistoryState::last`].
    last: Vec<u8>,
}

/// The slot of entry `i`, where `next` is written to next and `len` slots are
/// in use.
spec fn slot(next: int, len: int, i: int) -> int {
    let k = next + HIST_CAP - len + i;
    if k >= HIST_CAP {
        k - HIST_CAP
    } else {
        k
    }
}

impl View for History {
    type V = HistoryState;

    closed spec fn view(&self) -> HistoryState {
        HistoryState {
            entries: Seq::new(
                self.slots@.len(),
                |i: int| self.slots@[slot(self.next as int, self.slots@.len() as int, i)]@,
            ),
            browse: self.browse as int,
            saved: self.saved@,
            last: self.last@,
        }
    }
}

impl History {
    pub closed spec fn wf(&self) -> bool {
        &&& self.slots@.len() <= HIST_CAP
        &&& self.next < HIST_CAP
        &&& self.slots@.len() < HIST_CAP ==> self.next == self.slots@.len()
        &&& history_ok(self@)
    }

    /// A well-formed history keeps the limits.
    pub proof fn lemma_ok(&self)
        requires
            self.wf(),
        ensures
            history_ok(self@),
    {
    }

    /// An empty history.
    pub fn new() -> (r: Self)
        ensures
            r.wf(),
            r@ == no_history(),
    {
        let r = History {
            slots: Vec::new(),
            next: 0,
            browse: 0,
            saved: Vec::new(),
            last: Vec::new(),
        };
        assert(r@.entries =~= Seq::<Seq<u8>>::empty());
        r
    }

    /// Append `line` to history, skipping empty lines and consecutive
    /// duplicates.
    pub fn push(&mut self, line: &[u8])
        requires
            old(self).wf(),
        ensures
            final(self).wf(),
            final(self)@ == remembered(old(self)@, line@),
    {
        let line: &[u8] = trim(line);
        if line.len() == 0 {
            return;
        }
        let ghost h0 = self@;
        let ghost n = self.slots@.len() as int;
        let used: usize = self.slots.len();
        if same(self.last.as_slice(), line) {
            return;
        }
        self.last = copy(line);
        assert(self@.entries =~= h0.entries);
        if used > 0 {
            let prev: usize = if self.next == 0 {
                HIST_CAP - 1
            } else {
                self.next - 1
            };
            assert(slot(self.next as int, n, n - 1) == prev);
            assert(h0.entries.last() == self.slots@[prev as int]@);
            if same(self.slots[prev].as_slice(), line) {
                return;
            }
        }
        let entry: Vec<u8> = cut_copy(line, HIST_ENTRY);
        let ghost all = h0.entries.push(entry@);
        let idx: usize = self.next;
        if used < HIST_CAP {
            self.slots.push(entry);
            self.next = if idx + 1 == HIST_CAP {
                0
            } else {
                idx + 1
            };
            assert(self@.entries =~= all);
        } else {
            self.slots[idx] = entry;
            self.next = if idx + 1 == HIST_CAP {
                0
            } else {
                idx + 1
            };
            assert(self@.entries =~= all.skip(1));
        }
    }

    /// Get the entry at `pos`, where 1 is the most recent, 2 the second most
    /// recent, and so on.
    pub fn get(&self, pos: usize) -> (r: Option<&[u8]>)
        requires
            self.wf(),
        ensures
            r is Some <==> 1 <= pos <= self@.entries.len(),
            r matches Some(entry) ==> entry@ == self@.entries[self@.entries.len() - pos],
    {
        if pos == 0 || pos > self.slots.len() {
            return None;
        }
        let idx: usize = if self.next >= pos {
            self.next - pos
        } else {
            self.next + HIST_CAP - pos
        };
        assert(idx == slot(self.next as int, self.slots@.len() as int, self.slots@.len() - pos));
        Some(self.slots[idx].as_slice())
    }

    /// The number of retained entries.
    pub fn len(&self) -> (r: usize)
        requires
            self.wf(),
        ensures
            r == self@.entries.len(),
    {
        self.slots.len()
    }

    /// Go to place `pos`, where 0 is the live input.
    pub(crate) fn set_browse(&mut self, pos: usize)
        requires
            old(self).wf(),
            pos <= old(self)@.entries.len(),
        ensures
            final(self).wf(),
            final(self)@ == (HistoryState { browse: pos as int, ..old(self)@ }),
    {
        self.browse = pos;
        assert(self@.entries =~= old(self)@.entries);
    }

    /// Keep `line` as the live input.
    pub(crate) fn save(&mut self, line: &[u8])
        requires
            old(self).wf(),
            line@.len() < MAX_LINE,
        ensures
            final(self).wf(),
            final(self)@ == (HistoryState { saved: line@, ..old(self)@ }),
    {
        self.saved = copy(line);
        assert(self@.entries =~= old(self)@.entries);
    }

    /// Where the user is, as in [`HistoryState::browse`].
    pub(crate) fn browsing(&self) -> (r: usize)
        ensures
            r == self@.browse,
    {
        self.browse
    }

    /// The live input that was kept.
    pub(crate) fn saved_line(&self) -> (r: &[u8])
        ensures
            r@ == self@.saved,
    {
        self.saved.as_slice()
    }
}

// Laws -------------------------------------------------------------------------

/// After a line has been entered it is the most recent entry: trimmed, and cut
/// to the length of an entry.
pub proof fn law_history_most_recent(h: HistoryState, line: Seq<u8>)
    requires
        trimmed(line).len() > 0,
        history_ok(h),
    ensures
        remembered(h, line).entries.len() > 0,
        remembered(h, line).entries.last() == cut(trimmed(line), HIST_ENTRY as int),
{
}

/// The history never outgrows its ring, and what it keeps of the earlier lines
/// is the most recent ones, in order.
pub proof fn law_history_bounded(h: HistoryState, line: Seq<u8>)
    requires
        h.entries.len() <= HIST_CAP,
    ensures
        remembered(h, line).entries.len() <= HIST_CAP,
        ({
            let after = remembered(h, line).entries;
            after != h.entries ==> forall|k: int|
                1 < k <= after.len() ==> #[trigger] after[after.len() - k] == h.entries[
                h.entries.len() - (k - 1)]
        }),
{
}

/// Entering a line twice in a row, or an empty line, remembers nothing new.
pub proof fn law_history_skips(h: HistoryState, line: Seq<u8>)
    ensures
        remembered(remembered(h, line), line) == remembered(h, line),
        trimmed(line).len() == 0 ==> remembered(h, line) == h,
{
}

/// As long as the lines entered fit an entry, no two neighbours in the history
/// are equal.
pub proof fn law_history_no_repeats(h: HistoryState, line: Seq<u8>)
    requires
        trimmed(line).len() <= HIST_ENTRY,
        h.entries.len() <= HIST_CAP,
        forall|i: int| 0 <= i < h.entries.len() - 1 ==> #[trigger] h.entries[i] != h.entries[i + 1],
    ensures
        ({
            let after = remembered(h, line).entries;
            forall|i: int| 0 <= i < after.len() - 1 ==> #[trigger] after[i] != after[i + 1]
        }),
{
    let entries = h.entries;
    let after = remembered(h, line).entries;
    assert forall|i: int| 0 <= i < after.len() - 1 implies #[trigger] after[i] != after[i + 1] by {
        let shift = if after == entries {
            0int
        } else {
            entries.len() + 1 - after.len()
        };
        if i + shift < entries.len() {
            assert(after[i] == entries[i + shift]);
        }
        if i + shift + 1 < entries.len() {
            assert(after[i + 1] == entries[i + shift + 1]);
        }
    }
}

/// A line that is neither empty nor a repeat of the line before it is appended,
/// without the whitespace around it and cut to 128 bytes; what was there before
/// stays, but for the oldest of 20 entries.
pub proof fn law_history_appends(h: HistoryState, line: Seq<u8>)
    requires
        h.entries.len() <= 20,
        trimmed(line).len() > 0,
        trimmed(line) != h.last,
        h.entries.len() > 0 ==> trimmed(line) != h.entries[h.entries.len() - 1],
    ensures
        ({
            let t = trimmed(line);
            let entry = if t.len() <= 128 {
                t
            } else {
                t.take(128)
            };
            let after = remembered(h, line);
            &&& h.entries.len() < 20 ==> after.entries == h.entries.push(entry)
            &&& h.entries.len() == 20 ==> after.entries == h.entries.skip(1).push(entry)
            &&& after.last == t
            &&& after.browse == h.browse && after.saved == h.saved
        }),
{
    if h.entries.len() == 20 {
        let entry = cut(trimmed(line), HIST_ENTRY as int);
        assert(h.entries.push(entry).skip(1) =~= h.entries.skip(1).push(entry));
    }
}

/// A line that repeats the one before it leaves the entries as they are.
pub proof fn law_history_repeat(h: HistoryState, line: Seq<u8>)
    requires
        trimmed(line) == h.last || (h.entries.len() > 0 && trimmed(line)
            == h.entries[h.entries.len() - 1]),
    ensures
        remembered(h, line).entries == h.entries,
        remembered(h, line).browse == h.browse,
        remembered(h, line).saved == h.saved,
{
}

} // verus!
