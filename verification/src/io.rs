//! Terminal output, number formatting and number parsing.
//!
//! All output goes through [`write_bytes`].  It is meant for stdout, unless
//! pipe-capture mode is active, in which case it is redirected into an
//! in-process buffer so that it can be piped to the next command.
use crate::bytes::{append, text, DASH, DIGIT_0};
use vstd::prelude::*;

verus! {

/// Size of the in-process pipe capture buffer (bytes).
pub const PIPE_BUF_SIZE: usize = 4096;

// Writer -----------------------------------------------------------------------

/// What a [`StdoutWriter`] stands for.
#[verifier::ext_equal]
pub struct WriterState {
    /// Output is being captured for a pipe.
    pub capturing: bool,
    /// What was captured since capturing last started.
    pub captured: Seq<u8>,
    /// What was written to stdout and not yet taken for delivery.
    pub sent: Seq<u8>,
}

/// The terminal side of the shell's output: collects the bytes that are on
/// their way to stdout, or captures them while a pipe asks for them.
pub struct StdoutWriter {
    capturing: bool,
    captured: Vec<u8>,
    sent: Vec<u8>,
}

impl View for StdoutWriter {
    type V = WriterState;

    closed spec fn view(&self) -> WriterState {
        WriterState {
            capturing: self.capturing,
            captured: self.captured@,
            sent: self.sent@,
        }
    }
}

/// The writer state after `bs` is written in state `w`: the capture buffer
/// takes what it has room for and the rest is discarded; stdout takes all.
pub open spec fn wrote(w: WriterState, bs: Seq<u8>) -> WriterState {
    if w.capturing {
        WriterState {
            captured: crate::bytes::cut(w.captured + bs, PIPE_BUF_SIZE as int),
            ..w
        }
    } else {
        WriterState { sent: w.sent + bs, ..w }
    }
}

impl StdoutWriter {
    /// The capture buffer never holds more than [`PIPE_BUF_SIZE`] bytes.
    pub open spec fn wf(&self) -> bool {
        self@.captured.len() <= PIPE_BUF_SIZE
    }

    /// A writer that has written nothing and captures nothing.
    pub fn new() -> (r: Self)
        ensures
            r.wf(),
            r@ == (WriterState {
                capturing: false,
                captured: Seq::empty(),
                sent: Seq::empty(),
            }),
    {
        StdoutWriter { capturing: false, captured: Vec::new(), sent: Vec::new() }
    }

    /// Take the bytes that are waiting for delivery to stdout.
    pub fn take_sent(&mut self) -> (r: Vec<u8>)
        requires
            old(self).wf(),
        ensures
            final(self).wf(),
            r@ == old(self)@.sent,
            final(self)@ == (WriterState { sent: Seq::empty(), ..old(self)@ }),
    {
        let mut r: Vec<u8> = Vec::new();
        std::mem::swap(&mut r, &mut self.sent);
        r
    }
}

/// Start capturing all subsequent output into the internal pipe buffer.
/// Resets the buffer length to zero.
pub fn pipe_capture_start(w: &mut StdoutWriter)
    requires
        old(w).wf(),
    ensures
        final(w).wf(),
        final(w)@ == (WriterState {
            capturing: true,
            captured: Seq::empty(),
            ..old(w)@
        }),
{
    w.capturing = true;
    w.captured = Vec::new();
}

/// Stop capturing and return the bytes that were captured.
pub fn pipe_capture_end(w: &mut StdoutWriter) -> (r: &[u8])
    requires
        old(w).wf(),
    ensures
        final(w).wf(),
        r@ == old(w)@.captured,
        final(w)@ == (WriterState { capturing: false, ..old(w)@ }),
{
    w.capturing = false;
    w.captured.as_slice()
}

/// Returns `true` while output is being captured for a pipe.
pub fn is_capturing(w: &StdoutWriter) -> (r: bool)
    ensures
        r == w@.capturing,
{
    w.capturing
}

/// Write `bs` to stdout, or into the pipe capture buffer if capturing is
/// active.
///
/// All other write helpers funnel through this function so that capture mode
/// works transparently for every built-in command.  When the capture buffer is
/// full, additional bytes are silently discarded.
pub fn write_bytes(w: &mut StdoutWriter, bs: &[u8])
    requires
        old(w).wf(),
    ensures
        final(w).wf(),
        final(w)@ == wrote(old(w)@, bs@),
{
    if w.capturing {
        let avail: usize = PIPE_BUF_SIZE - w.captured.len();
        let n: usize = if bs.len() < avail {
            bs.len()
        } else {
            avail
        };
        append(&mut w.captured, &bs[0..n]);
        assert(w.captured@ =~= crate::bytes::cut(old(w)@.captured + bs@, PIPE_BUF_SIZE as int));
    } else {
        append(&mut w.sent, bs);
    }
}

/// Write a single byte to stdout (or the active pipe buffer).
pub fn write_byte(w: &mut StdoutWriter, b: u8)
    requires
        old(w).wf(),
    ensures
        final(w).wf(),
        final(w)@ == wrote(old(w)@, seq![b]),
{
    let one: [u8; 1] = [b];
    assert(one@ =~= seq![b]);
    write_bytes(w, &one);
}

/// Write a `&str` to stdout (or the active pipe buffer).
pub fn write_str(w: &mut StdoutWriter, s: &str)
    requires
        old(w).wf(),
    ensures
        final(w).wf(),
        final(w)@ == wrote(old(w)@, text(s@)),
{
    write_bytes(w, s.as_bytes());
}

/// Writing one string after another is writing the two joined, whether they go
/// to stdout or into the capture buffer.
pub proof fn law_writes_join(w: WriterState, a: Seq<u8>, b: Seq<u8>)
    requires
        w.captured.len() <= PIPE_BUF_SIZE,
    ensures
        wrote(wrote(w, a), b) == wrote(w, a + b),
{
    assert(w.sent + a + b =~= w.sent + (a + b));
    assert(w.captured + a + b =~= w.captured + (a + b));
    assert(wrote(wrote(w, a), b).captured =~= wrote(w, a + b).captured);
}

/// [`law_writes_join`] for three strings.
pub proof fn lemma_writes_3(w: WriterState, a: Seq<u8>, b: Seq<u8>, c: Seq<u8>)
    requires
        w.captured.len() <= PIPE_BUF_SIZE,
    ensures
        wrote(wrote(wrote(w, a), b), c) == wrote(w, a + b + c),
{
    law_writes_join(w, a, b);
    law_writes_join(w, a + b, c);
}

/// [`law_writes_join`] for four strings.
pub proof fn lemma_writes_4(w: WriterState, a: Seq<u8>, b: Seq<u8>, c: Seq<u8>, d: Seq<u8>)
    requires
        w.captured.len() <= PIPE_BUF_SIZE,
    ensures
        wrote(wrote(wrote(wrote(w, a), b), c), d) == wrote(w, a + b + c + d),
{
    lemma_writes_3(w, a, b, c);
    law_writes_join(w, a + b + c, d);
}

/// Writing nothing changes nothing.
pub proof fn law_write_nothing(w: WriterState)
    requires
        w.captured.len() <= PIPE_BUF_SIZE,
    ensures
        wrote(w, Seq::empty()) == w,
{
    assert(w.captured + Seq::<u8>::empty() =~= w.captured);
    assert(w.sent + Seq::<u8>::empty() =~= w.sent);
}

/// Everything written between the start and the end of a capture comes back
/// when the capture ends, up to the size of the buffer, and none of it goes to
/// stdout.
pub proof fn law_capture(w: WriterState, bs: Seq<u8>)
    ensures
        ({
            let started = WriterState { capturing: true, captured: Seq::empty(), ..w };
            &&& wrote(started, bs).captured == crate::bytes::cut(bs, PIPE_BUF_SIZE as int)
            &&& wrote(started, bs).sent == w.sent
            &&& wrote(started, bs).capturing
        }),
{
    assert(Seq::<u8>::empty() + bs =~= bs);
}

// Number formatting ------------------------------------------------------------

/// The decimal digits of `n`.
pub open spec fn decimal(n: nat) -> Seq<u8>
    decreases n,
{
    if n < 10 {
        seq![(DIGIT_0 + n) as u8]
    } else {
        decimal(n / 10).push((DIGIT_0 + n % 10) as u8)
    }
}

/// The decimal digits of `n`, after a `-` if it is negative.
pub open spec fn signed_decimal(n: int) -> Seq<u8> {
    if n < 0 {
        seq![DASH] + decimal((-n) as nat)
    } else {
        decimal(n as nat)
    }
}

/// Ten to the power of `k`.
pub open spec fn pow10(k: nat) -> nat
    decreases k,
{
    if k == 0 {
        1
    } else {
        10 * pow10((k - 1) as nat)
    }
}

/// A number below ten to the power of `k` has at most `k` digits.
pub proof fn lemma_decimal_len(n: nat, k: nat)
    requires
        n < pow10(k),
        k > 0,
    ensures
        1 <= decimal(n).len() <= k,
    decreases k,
{
    if n >= 10 {
        assert(k > 1) by {
            if k == 1 {
                assert(pow10(0) == 1);
            }
        }
        lemma_decimal_len(n / 10, (k - 1) as nat);
    }
}

proof fn lemma_pow10_20()
    ensures
        pow10(20) == 100_000_000_000_000_000_000,
{
    reveal_with_fuel(pow10, 21);
}

/// Format a `u64` into `buf` as decimal.  Returns the used slice: the digits
/// stand at the end of the buffer, except that the single digit of zero stands
/// at its start.
pub fn fmt_u64(n: u64, buf: &mut [u8; 20]) -> (r: &[u8])
    ensures
        r@ == decimal(n as nat),
        1 <= r@.len() <= 20,
        n == 0 ==> final(buf)@ == old(buf)@.update(0, DIGIT_0),
        n > 0 ==> final(buf)@ == old(buf)@.take(20 - r@.len()) + r@,
{
    if n == 0 {
        buf[0] = DIGIT_0;
        let r: &[u8] = &buf[0..1];
        assert(r@ =~= decimal(0));
        return r;
    }
    proof {
        lemma_pow10_20();
        lemma_decimal_len(n as nat, 20);
    }
    let mut m: u64 = n;
    let mut pos: usize = 20;
    assert(buf@.skip(20) =~= Seq::<u8>::empty());
    assert(decimal(n as nat) =~= decimal(m as nat) + buf@.skip(20));
    while m > 0
        invariant
            pos <= 20,
            m < pow10(pos as nat),
            buf@.len() == 20,
            n > 0,
            decimal(n as nat) == if m > 0 {
                decimal(m as nat) + buf@.skip(pos as int)
            } else {
                buf@.skip(pos as int)
            },
            buf@.take(pos as int) == old(buf)@.take(pos as int),
        decreases m,
    {
        let ghost b0 = buf@;
        let ghost m0 = m;
        assert(pos > 0) by {
            assert(pow10(0) == 1);
        }
        pos -= 1;
        buf[pos] = DIGIT_0 + (m % 10) as u8;
        m /= 10;
        assert(buf@.skip(pos as int) =~= seq![(DIGIT_0 + m0 % 10) as u8] + b0.skip(pos + 1));
        proof {
            if m0 < 10 {
                assert(decimal(n as nat) =~= buf@.skip(pos as int));
            } else {
                assert(decimal(n as nat) =~= decimal(m as nat) + buf@.skip(pos as int));
            }
        }
        assert(buf@.take(pos as int) =~= b0.take(pos + 1).take(pos as int));
        assert(old(buf)@.take(pos as int) =~= old(buf)@.take(pos + 1).take(pos as int));
    }
    assert(buf@ =~= buf@.take(pos as int) + buf@.skip(pos as int));
    let r: &[u8] = &buf[pos..20];
    assert(r@ =~= buf@.skip(pos as int));
    r
}

/// Format an `i64` into `buf` as decimal.  Returns the used slice, which is
/// the start of the buffer.
pub fn fmt_i64(n: i64, buf: &mut [u8; 21]) -> (r: &[u8])
    ensures
        r@ == signed_decimal(n as int),
        1 <= r@.len() <= 21,
        final(buf)@ == r@ + old(buf)@.skip(r@.len() as int),
{
    let mut tmp: [u8; 20] = [0u8; 20];
    let neg: bool = n < 0;
    let magnitude: u64 = if neg {
        (-(n as i128)) as u64
    } else {
        n as u64
    };
    let digits: &[u8] = fmt_u64(magnitude, &mut tmp);
    let mut pos: usize = 0;
    if neg {
        buf[0] = DASH;
        pos = 1;
    }
    let start: usize = pos;
    let mut i: usize = 0;
    while i < digits.len()
        invariant
            start == if neg { 1int } else { 0int },
            pos == start + i,
            i <= digits@.len() <= 20,
            buf@.len() == 21,
            neg ==> buf@[0] == DASH,
            buf@.subrange(start as int, pos as int) == digits@.take(i as int),
            buf@.skip(pos as int) == old(buf)@.skip(pos as int),
        decreases digits@.len() - i,
    {
        let ghost b0 = buf@;
        buf[pos] = digits[i];
        pos += 1;
        i += 1;
        assert(buf@.subrange(start as int, pos as int) =~= b0.subrange(start as int, pos - 1).push(
            digits@[i - 1],
        ));
        assert(digits@.take(i as int) =~= digits@.take(i - 1).push(digits@[i - 1]));
        assert(buf@.skip(pos as int) =~= b0.skip(pos - 1).skip(1));
        assert(old(buf)@.skip(pos as int) =~= old(buf)@.skip(pos - 1).skip(1));
    }
    assert(digits@.take(i as int) =~= digits@);
    let r: &[u8] = &buf[0..pos];
    proof {
        if neg {
            assert(r@ =~= seq![DASH] + digits@);
        } else {
            assert(r@ =~= digits@);
        }
        assert(buf@ =~= r@ + old(buf)@.skip(pos as int));
    }
    r
}

// Number parsing ---------------------------------------------------------------

/// Every byte of `s` is a decimal digit.
pub open spec fn all_digits(s: Seq<u8>) -> bool {
    forall|k: int| 0 <= k < s.len() ==> crate::bytes::is_digit(#[trigger] s[k])
}

/// The number that a string of decimal digits stands for.
pub open spec fn digits_value(s: Seq<u8>) -> nat
    decreases s.len(),
{
    if s.len() == 0 {
        0
    } else {
        (10 * digits_value(s.drop_last()) + (s.last() - DIGIT_0)) as nat
    }
}

/// What a decimal integer stands for: an optional `-` and then at least one
/// digit, nothing else.  There is no number where the digits alone exceed
/// `i64::MAX`.
pub open spec fn parsed(s: Seq<u8>) -> Option<i64> {
    let neg = s.len() > 0 && s[0] == DASH;
    let digits = if neg {
        s.skip(1)
    } else {
        s
    };
    if digits.len() == 0 || !all_digits(digits) || digits_value(digits) > i64::MAX {
        None
    } else if neg {
        Some((-digits_value(digits)) as i64)
    } else {
        Some(digits_value(digits) as i64)
    }
}

proof fn lemma_value_grows(s: Seq<u8>, i: int)
    requires
        0 <= i <= s.len(),
        all_digits(s),
    ensures
        digits_value(s.take(i)) <= digits_value(s),
    decreases s.len(),
{
    if i < s.len() {
        lemma_value_grows(s.drop_last(), i);
        assert(s.drop_last().take(i) =~= s.take(i));
    } else {
        assert(s.take(i) =~= s);
    }
}

/// Parse a decimal integer from a byte string.
pub fn parse_i64(s: &[u8]) -> (r: Option<i64>)
    ensures
        r == parsed(s@),
{
    let neg: bool = s.len() > 0 && s[0] == DASH;
    let start: usize = if neg {
        1
    } else {
        0
    };
    let ghost digits = if neg {
        s@.skip(1)
    } else {
        s@
    };
    if start == s.len() {
        return None;
    }
    let mut n: i64 = 0;
    let mut i: usize = start;
    assert(digits.take(0) =~= Seq::<u8>::empty());
    while i < s.len()
        invariant
            start <= i <= s@.len(),
            start == if neg { 1int } else { 0int },
            digits == if neg { s@.skip(1) } else { s@ },
            neg == (s@.len() > 0 && s@[0] == DASH),
            forall|k: int| 0 <= k < i - start ==> crate::bytes::is_digit(#[trigger] digits[k]),
            n == digits_value(digits.take(i - start)),
            n >= 0,
        decreases s@.len() - i,
    {
        let b: u8 = s[i];
        assert(b == digits[i - start]);
        if !crate::bytes::is_digit(b) {
            return None;
        }
        assert(digits.take(i - start + 1).drop_last() =~= digits.take(i - start));
        proof {
            if all_digits(digits) {
                lemma_value_grows(digits, i - start + 1);
            }
        }
        match n.checked_mul(10) {
            None => {
                return None;
            },
            Some(m) => match m.checked_add((b - DIGIT_0) as i64) {
                None => {
                    return None;
                },
                Some(m2) => {
                    n = m2;
                },
            },
        }
        i += 1;
    }
    assert(digits.take(i - start) =~= digits);
    if neg {
        Some(-n)
    } else {
        Some(n)
    }
}

proof fn lemma_decimal_digits(n: nat)
    ensures
        decimal(n).len() > 0,
        all_digits(decimal(n)),
        digits_value(decimal(n)) == n,
    decreases n,
{
    if n < 10 {
        assert(decimal(n).drop_last() =~= Seq::<u8>::empty());
        assert(digits_value(decimal(n).drop_last()) == 0);
    } else {
        lemma_decimal_digits(n / 10);
        assert(decimal(n).drop_last() =~= decimal(n / 10));
    }
}

/// Parsing gives back the number that was formatted, but for the one number
/// whose digits exceed `i64::MAX`.
pub proof fn law_number_round_trip(n: i64)
    requires
        n != i64::MIN,
    ensures
        parsed(signed_decimal(n as int)) == Some(n),
{
    if n < 0 {
        lemma_decimal_digits((-n) as nat);
        assert(signed_decimal(n as int).skip(1) =~= decimal((-n) as nat));
    } else {
        lemma_decimal_digits(n as nat);
        assert(crate::bytes::is_digit(decimal(n as nat)[0]));
    }
}

/// Two numbers are formatted alike only if they are equal.
pub proof fn law_number_format_injective(a: int, b: int)
    requires
        signed_decimal(a) == signed_decimal(b),
    ensures
        a == b,
{
    lemma_decimal_digits(if a < 0 { (-a) as nat } else { a as nat });
    lemma_decimal_digits(if b < 0 { (-b) as nat } else { b as nat });
    let da = decimal(if a < 0 { (-a) as nat } else { a as nat });
    let db = decimal(if b < 0 { (-b) as nat } else { b as nat });
    assert(crate::bytes::is_digit(da[0]) && crate::bytes::is_digit(db[0]));
    if a < 0 && b < 0 {
        assert(da =~= signed_decimal(a).skip(1));
        assert(db =~= signed_decimal(b).skip(1));
    } else if a < 0 {
        assert(signed_decimal(a)[0] == DASH);
    } else if b < 0 {
        assert(signed_decimal(b)[0] == DASH);
    }
}

/// Decimal digits: one digit stands for a number below ten, and a further digit
/// behind a number multiplies that by ten and adds to it.  A minus sign stands
/// before the digits of a negative number.
pub proof fn law_decimal(n: nat, d: nat)
    requires
        d < 10,
    ensures
        decimal(d) == seq![(0x30 + d) as u8],
        n > 0 ==> decimal(10 * n + d) == decimal(n).push((0x30 + d) as u8),
        signed_decimal(n as int) == decimal(n),
        n > 0 ==> signed_decimal(-(n as int)) == seq![0x2du8] + decimal(n),
{
    assert((10 * n + d) / 10 == n);
    assert((10 * n + d) % 10 == d);
}

/// Parsing: a digit stands for itself; a further digit behind a number
/// multiplies that by ten and adds to it, as long as the result fits; a minus
/// sign before digits makes the number negative; nothing else parses.
pub proof fn law_parse(s: Seq<u8>, c: u8)
    ensures
        0x30 <= c <= 0x39 ==> parsed(seq![c]) == Some((c - 0x30) as i64),
        s.len() > 0 && s[0] != 0x2d && 0x30 <= c <= 0x39 ==> parsed(s.push(c)) == match parsed(
            s,
        ) {
            Some(n) if 10 * n + (c - 0x30) <= i64::MAX => Some((10 * n + (c - 0x30)) as i64),
            _ => None,
        },
        s.len() > 0 && s[0] != 0x2d ==> parsed(seq![0x2du8] + s) == match parsed(s) {
            Some(n) => Some((-n) as i64),
            None => None,
        },
        s.len() > 0 && !(0x30 <= c <= 0x39) ==> parsed(s.push(c)) is None,
        parsed(Seq::empty()) is None,
        parsed(seq![0x2du8]) is None,
        parsed(seq![0x2du8, 0x2d] + s) is None,
{
    assert(seq![c].drop_last() =~= Seq::<u8>::empty());
    if 0x30 <= c <= 0x39 {
        assert(digits_value(seq![c].drop_last()) == 0);
        assert(all_digits(seq![c]));
    }
    if s.len() > 0 && s[0] != 0x2d {
        let p = s.push(c);
        assert(p[0] == s[0]);
        assert(p.drop_last() =~= s);
        if 0x30 <= c <= 0x39 {
            assert(all_digits(p) == all_digits(s)) by {
                if all_digits(s) {
                    assert forall|k: int| 0 <= k < p.len() implies crate::bytes::is_digit(
                        #[trigger] p[k],
                    ) by {
                        if k < s.len() {
                            assert(crate::bytes::is_digit(s[k]));
                        }
                    }
                }
                if all_digits(p) {
                    assert forall|k: int| 0 <= k < s.len() implies crate::bytes::is_digit(
                        #[trigger] s[k],
                    ) by {
                        assert(p[k] == s[k]);
                    }
                }
            }
        }
        assert((seq![0x2du8] + s).skip(1) =~= s);
    }
    if s.len() > 0 && !(0x30 <= c <= 0x39) {
        let p = s.push(c);
        let digits = if p[0] == DASH {
            p.skip(1)
        } else {
            p
        };
        assert(digits[digits.len() - 1] == c);
        assert(!all_digits(digits));
    }
    let double = seq![0x2du8, 0x2d] + s;
    assert(double.skip(1)[0] == 0x2d);
    assert(!all_digits(double.skip(1)));
}

/// What is written while nothing is captured goes to stdout behind what went
/// there before, and the captured bytes stay.
pub proof fn law_sent(w: WriterState, bs: Seq<u8>)
    requires
        !w.capturing,
    ensures
        wrote(w, bs) == (WriterState { sent: w.sent + bs, ..w }),
{
}

} // verus!
