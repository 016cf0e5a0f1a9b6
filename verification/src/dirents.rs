//! Directory listings out of `getdents64` records.
//!
//! A record holds an inode number (8 bytes), an offset (8), the record's length
//! (2, little-endian), the file type (1) and the name up to a NUL.
use crate::bytes::{find_byte, first_index, lemma_first_index_is, NEWLINE, NUL, SLASH};
use crate::io::{
    law_write_nothing, lemma_writes_3, lemma_writes_4, write_byte, write_bytes, wrote, StdoutWriter,
    PIPE_BUF_SIZE,
};
use vstd::prelude::*;

verus! {

/// The file type of a directory.
pub const DT_DIR: u8 = 4;

/// Bytes of a record before the name.
pub const DIRENT_HEADER: usize = 19;

/// The length that the record at `off` gives for itself.
pub open spec fn record_len(buf: Seq<u8>, off: int) -> int {
    buf[off + 16] + 256 * buf[off + 17]
}

/// The name in the record of length `len` at `off`.
pub open spec fn record_name(buf: Seq<u8>, off: int, len: int) -> Seq<u8> {
    let field = buf.subrange(off + DIRENT_HEADER, off + len);
    field.take(first_index(field, NUL) as int)
}

/// The line that lists the record of length `len` at `off`: its name, and a
/// slash if it is a directory.
pub open spec fn record_line(buf: Seq<u8>, off: int, len: int) -> Seq<u8> {
    record_name(buf, off, len) + if buf[off + 18] == DT_DIR {
        seq![SLASH, NEWLINE]
    } else {
        seq![NEWLINE]
    }
}

/// The listing of the records from `off` on, where the kernel returned `n`
/// bytes of records.  A record that is all header is skipped; one of length
/// zero ends the listing.
pub open spec fn listing(buf: Seq<u8>, n: int, off: int) -> Seq<u8>
    decreases if off < n { n - off } else { 0 },
{
    if off + DIRENT_HEADER < n {
        let len = record_len(buf, off);
        if len <= 0 {
            Seq::empty()
        } else if len > DIRENT_HEADER {
            record_line(buf, off, len) + listing(buf, n, off + len)
        } else {
            listing(buf, n, off + len)
        }
    } else {
        Seq::empty()
    }
}

/// Every record that [`listing`] comes to lies within the buffer.
pub open spec fn listable(buf: Seq<u8>, n: int, off: int) -> bool
    decreases if off < n { n - off } else { 0 },
{
    off + DIRENT_HEADER < n ==> {
        &&& off + 17 < buf.len()
        &&& record_len(buf, off) > DIRENT_HEADER ==> off + record_len(buf, off) <= buf.len()
        &&& record_len(buf, off) > 0 ==> listable(buf, n, off + record_len(buf, off))
    }
}

/// The length that the record at `off` gives for itself.
fn read_len(buf: &[u8], off: usize) -> (r: u64)
    requires
        off + 17 < buf@.len(),
    ensures
        r == record_len(buf@, off as int),
        r < 0x1_0000,
{
    assert(off < buf.len());
    (buf[off + 16] as u64) + 256 * (buf[off + 17] as u64)
}

/// Whether the listing of `n` bytes of records stays within the buffer.
pub fn is_listable(buf: &[u8], n: i64) -> (r: bool)
    requires
        n >= 0,
    ensures
        r == listable(buf@, n as int, 0),
{
    let mut off: u64 = 0;
    let end: u64 = n as u64;
    while off + 19 < end
        invariant
            end == n,
            off < 0x8000_0000_0001_0000,
            listable(buf@, n as int, 0) == listable(buf@, n as int, off as int),
            n >= 0,
        decreases if off < end { end - off } else { 0 },
    {
        let room: u64 = buf.len() as u64;
        if off + 17 >= room {
            return false;
        }
        let len: u64 = read_len(buf, off as usize);
        if len > DIRENT_HEADER as u64 && off + len > room {
            return false;
        }
        if len == 0 {
            return true;
        }
        off += len;
    }
    true
}

/// Write the listing of `n` bytes of records.
pub fn write_listing(buf: &[u8], n: i64, out: &mut StdoutWriter)
    requires
        n >= 0,
        listable(buf@, n as int, 0),
        old(out).wf(),
    ensures
        final(out).wf(),
        final(out)@ == wrote(old(out)@, listing(buf@, n as int, 0)),
{
    let mut off: u64 = 0;
    let end: u64 = n as u64;
    let ghost w0 = out@;
    let ghost all = listing(buf@, n as int, 0);
    let ghost mut done = Seq::<u8>::empty();
    proof {
        law_write_nothing(out@);
        assert(done + all =~= all);
    }
    while off + 19 < end
        invariant
            end == n,
            n >= 0,
            off < 0x8000_0000_0001_0000,
            listable(buf@, n as int, off as int),
            out.wf(),
            w0.captured.len() <= PIPE_BUF_SIZE,
            out@ == wrote(w0, done),
            all == done + listing(buf@, n as int, off as int),
            all == listing(buf@, n as int, 0),
        ensures
            all == done,
        decreases if off < end { end - off } else { 0 },
    {
        let ghost o = off as int;
        let room: usize = buf.len();
        assert(o + 17 < room);
        let at: usize = off as usize;
        let len: u64 = read_len(buf, at);
        if len == 0 {
            assert(all =~= done);
            break;
        }
        if len > DIRENT_HEADER as u64 {
            assert(off + len <= buf@.len());
            let start: usize = at + DIRENT_HEADER;
            let stop: usize = (off + len) as usize;
            let field: &[u8] = &buf[start..stop];
            let name_end: usize = find_byte(field, 0, NUL);
            assert(field@.skip(0) =~= field@);
            write_bytes(out, &field[0..name_end]);
            assert(field@.subrange(0, name_end as int) =~= record_name(buf@, o, len as int));
            if buf[at + 18] == DT_DIR {
                write_byte(out, SLASH);
            }
            write_byte(out, NEWLINE);
            proof {
                let line = record_line(buf@, o, len as int);
                let name = record_name(buf@, o, len as int);
                lemma_writes_4(w0, done, name, seq![SLASH], seq![NEWLINE]);
                lemma_writes_3(w0, done, name, seq![NEWLINE]);
                assert(done + name + seq![SLASH] + seq![NEWLINE] =~= done + (name + seq![
                    SLASH,
                    NEWLINE,
                ]));
                assert(done + name + seq![NEWLINE] =~= done + (name + seq![NEWLINE]));
                assert(done + (line + listing(buf@, n as int, o + len)) =~= (done + line)
                    + listing(buf@, n as int, o + len));
                done = done + line;
            }
        }
        off += len;
    }
    assert(all =~= done);
}

// Laws -------------------------------------------------------------------------

/// A directory entry: what stands before the length of its record, its file
/// type and name, and what fills the record up after the name.
pub struct Entry {
    pub lead: Seq<u8>,
    pub file_type: u8,
    pub name: Seq<u8>,
    pub padding: Seq<u8>,
}

/// The length of the record of `e`.
pub open spec fn entry_len(e: Entry) -> int {
    DIRENT_HEADER + e.name.len() + 1 + e.padding.len()
}

/// Whether `e` can stand in a record.
pub open spec fn entry_ok(e: Entry) -> bool {
    e.lead.len() == 16 && entry_len(e) < 0x1_0000 && !e.name.contains(NUL)
}

/// The record of `e`.
pub open spec fn entry_record(e: Entry) -> Seq<u8> {
    e.lead + seq![(entry_len(e) % 256) as u8, (entry_len(e) / 256) as u8, e.file_type] + e.name
        + seq![NUL] + e.padding
}

/// The records of `es`, one after the other.
pub open spec fn records(es: Seq<Entry>) -> Seq<u8>
    decreases es.len(),
{
    if es.len() == 0 {
        Seq::empty()
    } else {
        entry_record(es[0]) + records(es.skip(1))
    }
}

/// The names of `es`, one to a line, with a slash after those of directories.
pub open spec fn entry_lines(es: Seq<Entry>) -> Seq<u8>
    decreases es.len(),
{
    if es.len() == 0 {
        Seq::empty()
    } else {
        es[0].name + if es[0].file_type == DT_DIR {
            seq![SLASH, NEWLINE]
        } else {
            seq![NEWLINE]
        } + entry_lines(es.skip(1))
    }
}

proof fn lemma_records(before: Seq<u8>, es: Seq<Entry>, after: Seq<u8>)
    requires
        forall|i: int| 0 <= i < es.len() ==> entry_ok(#[trigger] es[i]),
    ensures
        ({
            let buf = before + records(es) + after;
            let n = before.len() + records(es).len();
            &&& listable(buf, n as int, before.len() as int)
            &&& listing(buf, n as int, before.len() as int) == entry_lines(es)
        }),
    decreases es.len(),
{
    let buf = before + records(es) + after;
    let n = before.len() + records(es).len();
    let off = before.len() as int;
    if es.len() > 0 {
        let e = es[0];
        assert(entry_ok(e));
        let len = entry_len(e);
        let rec = entry_record(e);
        assert(rec.len() == len);
        let rest = es.skip(1);
        assert forall|i: int| 0 <= i < rest.len() implies entry_ok(#[trigger] rest[i]) by {
            assert(rest[i] == es[i + 1]);
        }
        lemma_records(before + rec, rest, after);
        assert(before + rec + records(rest) + after =~= buf);
        assert(buf[off + 16] == rec[16] && buf[off + 17] == rec[17] && buf[off + 18] == rec[18]);
        assert(record_len(buf, off) == len);
        let field = buf.subrange(off + DIRENT_HEADER, off + len);
        let k = e.name.len() as int;
        assert forall|i: int| 0 <= i < k implies field[i] != NUL by {
            assert(field[i] == rec[DIRENT_HEADER + i]);
            assert(e.name.contains(e.name[i]));
        }
        assert(field[k] == rec[DIRENT_HEADER + k]);
        lemma_first_index_is(field, NUL, k);
        assert(field.take(k) =~= e.name);
    }
}

/// The listing of directory records shows each name on a line of its own, in
/// order, with a slash after those of directories, whatever stands in the
/// buffer after the records.
pub proof fn law_listing(es: Seq<Entry>, after: Seq<u8>)
    requires
        forall|i: int| 0 <= i < es.len() ==> entry_ok(#[trigger] es[i]),
    ensures
        listable(records(es) + after, records(es).len() as int, 0),
        listing(records(es) + after, records(es).len() as int, 0) == entry_lines(es),
{
    lemma_records(Seq::empty(), es, after);
    assert(Seq::<u8>::empty() + records(es) =~= records(es));
}

proof fn lemma_records_end(before: Seq<u8>, es: Seq<Entry>, after: Seq<u8>, n: int)
    requires
        forall|i: int| 0 <= i < es.len() ==> entry_ok(#[trigger] es[i]),
        n >= before.len() + records(es).len(),
        n <= before.len() + records(es).len() + 19 || (after.len() >= 18 && after[16] == 0
            && after[17] == 0),
    ensures
        listing(before + records(es) + after, n, before.len() as int) == entry_lines(es),
    decreases es.len(),
{
    let buf = before + records(es) + after;
    let off = before.len() as int;
    if es.len() > 0 {
        let e = es[0];
        assert(entry_ok(e));
        let len = entry_len(e);
        let rec = entry_record(e);
        assert(rec.len() == len);
        let rest = es.skip(1);
        assert forall|i: int| 0 <= i < rest.len() implies entry_ok(#[trigger] rest[i]) by {
            assert(rest[i] == es[i + 1]);
        }
        lemma_records_end(before + rec, rest, after, n);
        assert(before + rec + records(rest) + after =~= buf);
        assert(buf[off + 16] == rec[16] && buf[off + 17] == rec[17] && buf[off + 18] == rec[18]);
        assert(record_len(buf, off) == len);
        let field = buf.subrange(off + DIRENT_HEADER, off + len);
        let k = e.name.len() as int;
        assert forall|i: int| 0 <= i < k implies field[i] != NUL by {
            assert(field[i] == rec[DIRENT_HEADER + i]);
            assert(e.name.contains(e.name[i]));
        }
        assert(field[k] == rec[DIRENT_HEADER + k]);
        lemma_first_index_is(field, NUL, k);
        assert(field.take(k) =~= e.name);
    } else {
        assert(buf =~= before + after);
        if after.len() >= 18 {
            assert(buf[off + 16] == after[16] && buf[off + 17] == after[17]);
        }
    }
}

/// The listing ends where there is no room for a name any more, and at a record
/// that gives its length as zero.
pub proof fn law_listing_ends(es: Seq<Entry>, after: Seq<u8>, n: int)
    requires
        forall|i: int| 0 <= i < es.len() ==> entry_ok(#[trigger] es[i]),
        n >= records(es).len(),
        n <= records(es).len() + 19 || (after.len() >= 18 && after[16] == 0 && after[17] == 0),
    ensures
        listing(records(es) + after, n, 0) == entry_lines(es),
{
    lemma_records_end(Seq::empty(), es, after, n);
    assert(Seq::<u8>::empty() + records(es) =~= records(es));
}

/// A record that has no room for a name is passed over.
pub proof fn law_header_is_skipped(buf: Seq<u8>, n: int, off: int)
    requires
        off + 19 < n,
        0 < buf[off + 16] <= 19,
        buf[off + 17] == 0,
    ensures
        listing(buf, n, off) == listing(buf, n, off + buf[off + 16]),
{
}

/// A name that no NUL ends fills its record, and the file type 4 is that of a
/// directory.
pub proof fn law_unterminated_name(buf: Seq<u8>, n: int, off: int, len: int)
    requires
        off + 19 < n,
        0 <= off,
        19 < len,
        off + len <= buf.len(),
        buf[off + 16] + 256 * buf[off + 17] == len,
        forall|i: int| off + 19 <= i < off + len ==> #[trigger] buf[i] != 0,
    ensures
        listing(buf, n, off) == buf.subrange(off + 19, off + len) + (if buf[off + 18] == 4 {
            seq![0x2fu8, 0x0a]
        } else {
            seq![0x0au8]
        }) + listing(buf, n, off + len),
{
    let field = buf.subrange(off + 19, off + len);
    assert forall|k: int| 0 <= k < field.len() implies field[k] != NUL by {
        assert(field[k] == buf[off + 19 + k]);
    }
    lemma_first_index_is(field, NUL, field.len() as int);
    assert(field.take(field.len() as int) =~= field);
}

} // verus!
