//! Variable expansion and quoting.
use crate::bytes::{
    cut, emit, filled, find_byte, first_index, is_name_byte, lemma_filled_empty, lemma_first_index,
    text, BACKSLASH, CLOSE_BRACE, DIGIT_0, DOLLAR, DOUBLE_QUOTE, OPEN_BRACE, QUESTION, SINGLE_QUOTE,
};
use crate::io::{fmt_i64, signed_decimal};
use crate::vars::{lookup, Binding, Vars};
use vstd::prelude::*;

verus! {

/// A byte of an expanded line, and whether it is literal: whether it stood
/// between quotes of either kind, or behind a backslash.
#[derive(Clone, Copy)]
pub struct Mark {
    pub byte: u8,
    pub quoted: bool,
}

/// Where expansion is in its input.
#[derive(Clone, Copy, PartialEq, Eq, Structural)]
pub enum Mode {
    /// Outside quotes.
    Plain,
    /// Between single quotes.
    Single,
    /// Between double quotes.
    Double,
}

/// Whether `mode` is between quotes.
pub open spec fn in_quotes(mode: Mode) -> bool {
    mode == Mode::Single || mode == Mode::Double
}

/// Every byte of `s`, marked alike.
pub open spec fn marked(s: Seq<u8>, quoted: bool) -> Seq<Mark> {
    Seq::new(s.len(), |i: int| Mark { byte: s[i], quoted })
}

/// The bytes of `m` without their marks.
pub open spec fn unmarked(m: Seq<Mark>) -> Seq<u8> {
    Seq::new(m.len(), |i: int| m[i].byte)
}

/// Words of which no byte is literal.
pub open spec fn unquoted(ws: Seq<Seq<u8>>) -> Seq<Seq<Mark>> {
    Seq::new(ws.len(), |i: int| marked(ws[i], false))
}

/// The words `ms` without their marks.
pub open spec fn words_of(ms: Seq<Seq<Mark>>) -> Seq<Seq<u8>> {
    Seq::new(ms.len(), |i: int| unmarked(ms[i]))
}

/// The bytes of `m` without their marks.
pub fn unmark(m: &[Mark]) -> (r: Vec<u8>)
    ensures
        r@ == unmarked(m@),
{
    let mut r: Vec<u8> = Vec::new();
    let mut i: usize = 0;
    while i < m.len()
        invariant
            i <= m@.len(),
            r@ == unmarked(m@).take(i as int),
        decreases m@.len() - i,
    {
        r.push(m[i].byte);
        i += 1;
        assert(r@ =~= unmarked(m@).take(i as int));
    }
    assert(r@ =~= unmarked(m@));
    r
}

/// Every byte of `s`, marked alike.
pub fn mark(s: &[u8], quoted: bool) -> (r: Vec<Mark>)
    ensures
        r@ == marked(s@, quoted),
{
    let mut r: Vec<Mark> = Vec::new();
    let mut i: usize = 0;
    while i < s.len()
        invariant
            i <= s@.len(),
            r@ == marked(s@, quoted).take(i as int),
        decreases s@.len() - i,
    {
        r.push(Mark { byte: s[i], quoted });
        i += 1;
        assert(r@ =~= marked(s@, quoted).take(i as int));
    }
    assert(r@ =~= marked(s@, quoted));
    r
}

/// The number of bytes at the start of `s` that may stand in a variable name.
pub open spec fn name_run(s: Seq<u8>) -> nat
    decreases s.len(),
{
    if s.len() == 0 || !is_name_byte(s[0]) {
        0
    } else {
        1 + name_run(s.skip(1))
    }
}

/// What a `$` expression stands for, and how many bytes after the `$` it takes.
#[verifier::ext_equal]
pub struct Dollar {
    pub value: Seq<u8>,
    pub used: nat,
}

/// The value of the variable `name`; nothing if it is not set.
pub open spec fn value_or_empty(env: Seq<Binding>, name: Seq<u8>) -> Seq<u8> {
    match lookup(env, name) {
        Some(v) => v,
        None => Seq::empty(),
    }
}

/// What a `$` stands for that is followed by `s`: `$?` is the last exit
/// status, `$$` the process name, `$0` the shell path, `${VAR}` and `$VAR` a
/// variable; any other `$` stands for itself.
pub open spec fn dollar(env: Seq<Binding>, status: i64, s: Seq<u8>) -> Dollar {
    if s.len() == 0 {
        Dollar { value: seq![DOLLAR], used: 0 }
    } else if s[0] == QUESTION {
        Dollar { value: signed_decimal(status as int), used: 1 }
    } else if s[0] == DOLLAR {
        Dollar { value: text("rsh"@), used: 1 }
    } else if s[0] == DIGIT_0 {
        Dollar { value: text("/bin/rsh"@), used: 1 }
    } else if s[0] == OPEN_BRACE {
        let k = first_index(s.skip(1), CLOSE_BRACE);
        Dollar {
            value: value_or_empty(env, s.skip(1).take(k as int)),
            used: if k < s.len() - 1 {
                k + 2
            } else {
                s.len()
            },
        }
    } else if is_name_byte(s[0]) {
        let n = name_run(s);
        Dollar { value: value_or_empty(env, s.take(n as int)), used: n }
    } else {
        Dollar { value: seq![DOLLAR], used: 0 }
    }
}

/// A byte that stands for itself in mode `mode`.
pub open spec fn literal(mode: Mode, c: u8) -> bool {
    match mode {
        Mode::Plain => c != SINGLE_QUOTE && c != DOUBLE_QUOTE && c != BACKSLASH && c != DOLLAR,
        Mode::Single => c != SINGLE_QUOTE,
        Mode::Double => c != DOUBLE_QUOTE && c != BACKSLASH && c != DOLLAR,
    }
}

/// The expansion of `s`, read in mode `mode`.
///
/// Quotes are dropped.  Between single quotes everything else stands for
/// itself.  Elsewhere `$` starts an expression and a backslash makes the byte
/// after it stand for itself; one at the end is dropped outside quotes and kept
/// between double quotes.
pub open spec fn expanded(env: Seq<Binding>, status: i64, mode: Mode, s: Seq<u8>) -> Seq<Mark>
    decreases s.len(),
{
    if s.len() == 0 {
        Seq::empty()
    } else {
        let c = s[0];
        let quoted = in_quotes(mode);
        let d = dollar(env, status, s.skip(1));
        if c == DOLLAR && mode != Mode::Single {
            proof {
                lemma_dollar_used(env, status, s.skip(1));
            }
            marked(d.value, quoted) + expanded(env, status, mode, s.skip(1 + d.used as int))
        } else if literal(mode, c) {
            marked(seq![c], quoted) + expanded(env, status, mode, s.skip(1))
        } else if c == SINGLE_QUOTE {
            expanded(
                env,
                status,
                if quoted {
                    Mode::Plain
                } else {
                    Mode::Single
                },
                s.skip(1),
            )
        } else if c == DOUBLE_QUOTE {
            expanded(
                env,
                status,
                if quoted {
                    Mode::Plain
                } else {
                    Mode::Double
                },
                s.skip(1),
            )
        } else if s.len() > 1 {
            marked(seq![s[1]], true) + expanded(env, status, mode, s.skip(2))
        } else if quoted {
            marked(s, true)
        } else {
            Seq::empty()
        }
    }
}

/// The expansion of `s` without its marks.
pub open spec fn expansion(env: Seq<Binding>, status: i64, s: Seq<u8>) -> Seq<u8> {
    unmarked(expanded(env, status, Mode::Plain, s))
}

/// `m` with its `$` expressions replaced and everything else left alone.  A
/// literal `$` starts none.
pub open spec fn substitution(env: Seq<Binding>, status: i64, m: Seq<Mark>) -> Seq<u8>
    decreases m.len(),
{
    if m.len() == 0 {
        Seq::empty()
    } else if m[0].byte == DOLLAR && !m[0].quoted {
        let d = dollar(env, status, unmarked(m.skip(1)));
        proof {
            lemma_dollar_used(env, status, unmarked(m.skip(1)));
        }
        d.value + substitution(env, status, m.skip(1 + d.used as int))
    } else {
        seq![m[0].byte] + substitution(env, status, m.skip(1))
    }
}

/// A `$` expression does not reach past the end of the input.
pub proof fn lemma_dollar_used(env: Seq<Binding>, status: i64, s: Seq<u8>)
    ensures
        dollar(env, status, s).used <= s.len(),
{
    lemma_name_run(s);
    if s.len() > 0 {
        lemma_first_index(s.skip(1), CLOSE_BRACE);
    }
}

proof fn lemma_name_run(s: Seq<u8>)
    ensures
        name_run(s) <= s.len(),
        forall|k: int| 0 <= k < name_run(s) ==> is_name_byte(#[trigger] s[k]),
        name_run(s) < s.len() ==> !is_name_byte(s[name_run(s) as int]),
    decreases s.len(),
{
    if s.len() > 0 && is_name_byte(s[0]) {
        lemma_name_run(s.skip(1));
        assert forall|k: int| 0 <= k < name_run(s) implies is_name_byte(#[trigger] s[k]) by {
            if k > 0 {
                assert(s.skip(1)[k - 1] == s[k]);
            }
        }
    }
}

proof fn lemma_name_run_is(s: Seq<u8>, n: int)
    requires
        0 <= n <= s.len(),
        forall|k: int| 0 <= k < n ==> is_name_byte(#[trigger] s[k]),
        n < s.len() ==> !is_name_byte(s[n]),
    ensures
        name_run(s) == n,
{
    lemma_name_run(s);
    let m = name_run(s) as int;
    if m < n {
        assert(is_name_byte(s[m]));
    }
    if n < m {
        assert(is_name_byte(s[n]));
    }
}

/// Add `byte` to `out` unless that has `cap` bytes already.  `content` is what
/// was added before.
fn put(
    out: &mut Vec<Mark>,
    cap: usize,
    byte: u8,
    quoted: bool,
    Ghost(content): Ghost<Seq<Mark>>,
)
    requires
        old(out)@ == cut(content, cap as int),
    ensures
        final(out)@ == cut(content + marked(seq![byte], quoted), cap as int),
{
    if out.len() < cap {
        out.push(Mark { byte, quoted });
    }
    assert(out@ =~= cut(content + marked(seq![byte], quoted), cap as int));
}

/// Add the bytes of `s` to `out` until that has `cap` bytes.  `content` is what
/// was added before.
fn put_slice(
    out: &mut Vec<Mark>,
    cap: usize,
    s: &[u8],
    quoted: bool,
    Ghost(content): Ghost<Seq<Mark>>,
)
    requires
        old(out)@ == cut(content, cap as int),
    ensures
        final(out)@ == cut(content + marked(s@, quoted), cap as int),
{
    let mut i: usize = 0;
    assert(content + marked(s@.take(0), quoted) =~= content);
    while i < s.len()
        invariant
            i <= s@.len(),
            out@ == cut(content + marked(s@.take(i as int), quoted), cap as int),
        decreases s@.len() - i,
    {
        put(out, cap, s[i], quoted, Ghost(content + marked(s@.take(i as int), quoted)));
        i += 1;
        assert(content + marked(s@.take(i - 1), quoted) + marked(seq![s@[i - 1]], quoted)
            =~= content + marked(s@.take(i as int), quoted));
    }
    assert(s@.take(i as int) =~= s@);
}

/// Expand a `$` expression whose part after the `$` starts at `input[i]`, and
/// add what it stands for to `out`, where `content` was added before.  Returns
/// the place after the expression.
fn expand_dollar(
    vars: &Vars,
    status: i64,
    input: &[u8],
    i: usize,
    quoted: bool,
    out: &mut Vec<Mark>,
    cap: usize,
    Ghost(content): Ghost<Seq<Mark>>,
) -> (r: usize)
    requires
        i <= input@.len(),
        old(out)@ == cut(content, cap as int),
    ensures
        r == i + dollar(vars@, status, input@.skip(i as int)).used,
        r <= input@.len(),
        final(out)@ == cut(
            content + marked(dollar(vars@, status, input@.skip(i as int)).value, quoted),
            cap as int,
        ),
{
    let ghost rest = input@.skip(i as int);
    if i < input.len() {
        let c: u8 = input[i];
        assert(c == rest[0]);
        if c == QUESTION {
            let mut tmp: [u8; 21] = [0u8; 21];
            put_slice(out, cap, fmt_i64(status, &mut tmp), quoted, Ghost(content));
            return i + 1;
        }
        if c == DOLLAR {
            put_slice(out, cap, "rsh".as_bytes(), quoted, Ghost(content));
            return i + 1;
        }
        if c == DIGIT_0 {
            put_slice(out, cap, "/bin/rsh".as_bytes(), quoted, Ghost(content));
            return i + 1;
        }
        if c == OPEN_BRACE {
            let start: usize = i + 1;
            let end: usize = find_byte(input, start, CLOSE_BRACE);
            let name: &[u8] = &input[start..end];
            proof {
                assert(rest.skip(1) =~= input@.skip(start as int));
                assert(name@ =~= rest.skip(1).take(end - start));
            }
            put_variable(vars, name, quoted, out, cap, Ghost(content));
            return if end < input.len() {
                end + 1
            } else {
                end
            };
        }
        if is_name_byte(c) {
            let mut end: usize = i;
            while end < input.len() && is_name_byte(input[end])
                invariant
                    i <= end <= input@.len(),
                    rest == input@.skip(i as int),
                    forall|k: int| 0 <= k < end - i ==> is_name_byte(#[trigger] rest[k]),
                decreases input@.len() - end,
            {
                assert(rest[end - i] == input@[end as int]);
                end += 1;
            }
            let name: &[u8] = &input[i..end];
            proof {
                if end < input@.len() {
                    assert(rest[end - i] == input@[end as int]);
                }
                lemma_name_run_is(rest, end - i);
                assert(name@ =~= rest.take(end - i));
            }
            put_variable(vars, name, quoted, out, cap, Ghost(content));
            return end;
        }
    }
    put(out, cap, DOLLAR, quoted, Ghost(content));
    i
}

/// Add the value of the variable `name` to `out`, where `content` was added
/// before.
fn put_variable(
    vars: &Vars,
    name: &[u8],
    quoted: bool,
    out: &mut Vec<Mark>,
    cap: usize,
    Ghost(content): Ghost<Seq<Mark>>,
)
    requires
        old(out)@ == cut(content, cap as int),
    ensures
        final(out)@ == cut(content + marked(value_or_empty(vars@, name@), quoted), cap as int),
{
    match vars.get(name) {
        Some(v) => {
            put_slice(out, cap, v, quoted, Ghost(content));
        },
        None => {
            assert(content + marked(value_or_empty(vars@, name@), quoted) =~= content);
        },
    }
}

/// Expand variables and quotes in `input`, keeping at most `cap` bytes.
///
/// Handles `$VAR`, `${VAR}`, `$?`, `$$`, `$0`; single-quoted and double-quoted
/// regions; and `\` escapes.
pub fn expand_line(vars: &Vars, status: i64, input: &[u8], cap: usize) -> (r: Vec<Mark>)
    ensures
        r@ == cut(expanded(vars@, status, Mode::Plain, input@), cap as int),
        r@.len() <= cap,
{
    let ghost env = vars@;
    let mut out: Vec<Mark> = Vec::new();
    let mut i: usize = 0;
    let mut mode: Mode = Mode::Plain;
    let ghost mut done = Seq::<Mark>::empty();
    assert(input@.skip(0) =~= input@);
    assert(done + expanded(env, status, mode, input@) =~= expanded(env, status, mode, input@));
    assert(out@ =~= cut(done, cap as int));
    while i < input.len()
        invariant
            i <= input@.len(),
            env == vars@,
            out@ == cut(done, cap as int),
            expanded(env, status, Mode::Plain, input@) == done + expanded(
                env,
                status,
                mode,
                input@.skip(i as int),
            ),
        decreases input@.len() - i,
    {
        let c: u8 = input[i];
        let quoted: bool = mode == Mode::Single || mode == Mode::Double;
        let ghost s = input@.skip(i as int);
        let ghost d = dollar(env, status, s.skip(1));
        assert(s[0] == c);
        assert(s.skip(1) =~= input@.skip(i + 1));
        if c == DOLLAR && mode != Mode::Single {
            i = expand_dollar(vars, status, input, i + 1, quoted, &mut out, cap, Ghost(done));
            proof {
                done = done + marked(d.value, quoted);
                assert(s.skip(1 + d.used as int) =~= input@.skip(i as int));
            }
        } else if is_literal(mode, c) {
            put(&mut out, cap, c, quoted, Ghost(done));
            i += 1;
            proof {
                done = done + marked(seq![c], quoted);
            }
        } else if c == SINGLE_QUOTE {
            mode = if quoted {
                Mode::Plain
            } else {
                Mode::Single
            };
            i += 1;
        } else if c == DOUBLE_QUOTE {
            mode = if quoted {
                Mode::Plain
            } else {
                Mode::Double
            };
            i += 1;
        } else if i + 1 < input.len() {
            put(&mut out, cap, input[i + 1], true, Ghost(done));
            i += 2;
            proof {
                done = done + marked(seq![s[1]], true);
                assert(s.skip(2) =~= input@.skip(i as int));
            }
        } else {
            if quoted {
                put(&mut out, cap, c, true, Ghost(done));
                proof {
                    assert(s =~= seq![c]);
                    done = done + marked(s, true);
                }
            }
            i += 1;
            assert(input@.skip(i as int) =~= Seq::<u8>::empty());
        }
        assert(expanded(env, status, Mode::Plain, input@) =~= done + expanded(
            env,
            status,
            mode,
            input@.skip(i as int),
        ));
    }
    assert(input@.skip(i as int) =~= Seq::<u8>::empty());
    assert(expanded(env, status, Mode::Plain, input@) =~= done);
    out
}

/// Replace the `$` expressions in `input`, keeping at most `cap` bytes.  Quotes,
/// backslashes and literal dollar signs are left alone.
pub fn expand_value(vars: &Vars, status: i64, input: &[Mark], cap: usize) -> (r: Vec<u8>)
    ensures
        r@ == cut(substitution(vars@, status, input@), cap as int),
{
    let bytes: Vec<u8> = unmark(input);
    let ghost all = substitution(vars@, status, input@);
    let mut out: Vec<Mark> = Vec::new();
    let mut i: usize = 0;
    let ghost mut done = Seq::<Mark>::empty();
    proof {
        assert(input@.skip(0) =~= input@);
        assert(unmarked(done) + all =~= all);
        assert(out@ =~= cut(done, cap as int));
    }
    while i < input.len()
        invariant
            i <= input@.len(),
            bytes@ == unmarked(input@),
            out@ == cut(done, cap as int),
            all == unmarked(done) + substitution(vars@, status, input@.skip(i as int)),
        decreases input@.len() - i,
    {
        let m: Mark = input[i];
        let ghost rest = input@.skip(i as int);
        let ghost done0 = done;
        proof {
            assert(rest[0] == m);
            assert(rest.skip(1) =~= input@.skip(i + 1));
            assert(unmarked(rest.skip(1)) =~= bytes@.skip(i + 1));
        }
        if m.byte == DOLLAR && !m.quoted {
            let ghost d = dollar(vars@, status, bytes@.skip(i + 1));
            i =
            expand_dollar(
                vars,
                status,
                bytes.as_slice(),
                i + 1,
                false,
                &mut out,
                cap,
                Ghost(done),
            );
            proof {
                done = done0 + marked(d.value, false);
                assert(unmarked(done) =~= unmarked(done0) + d.value);
                assert(rest.skip(1 + d.used as int) =~= input@.skip(i as int));
            }
        } else {
            put(&mut out, cap, m.byte, false, Ghost(done));
            i += 1;
            proof {
                done = done0 + marked(seq![m.byte], false);
                assert(unmarked(done) =~= unmarked(done0) + seq![m.byte]);
            }
        }
        assert(all =~= unmarked(done) + substitution(vars@, status, input@.skip(i as int)));
    }
    assert(input@.skip(i as int) =~= Seq::<Mark>::empty());
    assert(all =~= unmarked(done));
    let r: Vec<u8> = unmark(out.as_slice());
    assert(r@ =~= cut(all, cap as int));
    r
}

/// Whether `c` stands for itself in mode `mode`.
fn is_literal(mode: Mode, c: u8) -> (r: bool)
    ensures
        r == literal(mode, c),
{
    match mode {
        Mode::Plain => c != SINGLE_QUOTE && c != DOUBLE_QUOTE && c != BACKSLASH && c != DOLLAR,
        Mode::Single => c != SINGLE_QUOTE,
        Mode::Double => c != DOUBLE_QUOTE && c != BACKSLASH && c != DOLLAR,
    }
}

/// Expand variables in `input`, storing the result in `out` as far as there is
/// room.  Returns the number of bytes written to `out`.
pub fn expand_vars(vars: &Vars, status: i64, input: &[u8], out: &mut [u8]) -> (r: usize)
    ensures
        filled(old(out)@, final(out)@, r as int, expansion(vars@, status, input@)),
{
    let marks: Vec<Mark> = expand_line(vars, status, input, out.len());
    let ghost all = expansion(vars@, status, input@);
    let mut i: usize = 0;
    let mut j: usize = 0;
    let ghost out0 = out@;
    proof {
        lemma_filled_empty(out0);
    }
    assert(all.take(0) =~= Seq::<u8>::empty());
    while i < marks.len()
        invariant
            i <= marks@.len(),
            marks@ == cut(expanded(vars@, status, Mode::Plain, input@), out0.len() as int),
            all == expansion(vars@, status, input@),
            filled(out0, out@, j as int, all.take(i as int)),
        decreases marks@.len() - i,
    {
        j = emit(out, j, marks[i].byte, Ghost(out0), Ghost(all.take(i as int)));
        i += 1;
        assert(all.take(i as int) =~= all.take(i - 1).push(all[i - 1]));
    }
    assert(filled(old(out)@, out@, j as int, all)) by {
        if all.len() <= out@.len() {
            assert(all.take(i as int) =~= all);
        } else {
            assert(all.take(i as int).take(j as int) =~= all.take(j as int));
        }
    }
    j
}

// Laws -------------------------------------------------------------------------

/// Bytes that stand for themselves are expanded to themselves, whatever comes
/// after them.
pub proof fn law_literal_prefix(
    env: Seq<Binding>,
    status: i64,
    mode: Mode,
    t: Seq<u8>,
    rest: Seq<u8>,
)
    requires
        forall|k: int| 0 <= k < t.len() ==> literal(mode, #[trigger] t[k]),
    ensures
        expanded(env, status, mode, t + rest) == marked(t, in_quotes(mode)) + expanded(
            env,
            status,
            mode,
            rest,
        ),
    decreases t.len(),
{
    let quoted = in_quotes(mode);
    if t.len() == 0 {
        assert(t + rest =~= rest);
        assert(marked(t, quoted) + expanded(env, status, mode, rest) =~= expanded(
            env,
            status,
            mode,
            rest,
        ));
    } else {
        let t2 = t.skip(1);
        assert forall|k: int| 0 <= k < t2.len() implies literal(mode, #[trigger] t2[k]) by {
            assert(t2[k] == t[k + 1]);
        }
        law_literal_prefix(env, status, mode, t2, rest);
        assert((t + rest).skip(1) =~= t2 + rest);
        assert(literal(mode, t[0]));
        assert(marked(seq![t[0]], quoted) + (marked(t2, quoted) + expanded(env, status, mode, rest))
            =~= marked(t, quoted) + expanded(env, status, mode, rest));
    }
}

/// Text without quotes, backslashes and dollar signs is expanded to itself.
pub proof fn law_plain_text(env: Seq<Binding>, status: i64, t: Seq<u8>)
    requires
        forall|k: int| 0 <= k < t.len() ==> literal(Mode::Plain, #[trigger] t[k]),
    ensures
        expansion(env, status, t) == t,
{
    law_literal_prefix(env, status, Mode::Plain, t, Seq::empty());
    assert(t + Seq::<u8>::empty() =~= t);
    assert(unmarked(marked(t, false) + Seq::<Mark>::empty()) =~= t);
}

/// Text between single quotes stands for itself; only the quotes are dropped,
/// and every byte of it is marked as literal.
pub proof fn law_single_quotes(env: Seq<Binding>, status: i64, t: Seq<u8>)
    requires
        !t.contains(SINGLE_QUOTE),
    ensures
        expanded(env, status, Mode::Plain, seq![SINGLE_QUOTE] + t + seq![SINGLE_QUOTE]) == marked(
            t,
            true,
        ),
        expansion(env, status, seq![SINGLE_QUOTE] + t + seq![SINGLE_QUOTE]) == t,
{
    let end = seq![SINGLE_QUOTE];
    let s = seq![SINGLE_QUOTE] + t + end;
    assert forall|k: int| 0 <= k < t.len() implies literal(Mode::Single, #[trigger] t[k]) by {}
    law_literal_prefix(env, status, Mode::Single, t, end);
    assert(s.skip(1) =~= t + end);
    assert(end.skip(1) =~= Seq::<u8>::empty());
    assert(expanded(env, status, Mode::Plain, Seq::<u8>::empty()) =~= Seq::<Mark>::empty());
    assert(expanded(env, status, Mode::Single, end) =~= Seq::<Mark>::empty());
    assert(expanded(env, status, Mode::Plain, s) =~= marked(t, true));
    assert(unmarked(marked(t, true)) =~= t);
}

/// Between double quotes, text without quotes, backslashes and dollar signs
/// stands for itself, and every byte of it is marked as literal.
pub proof fn law_double_quotes(env: Seq<Binding>, status: i64, t: Seq<u8>)
    requires
        forall|k: int| 0 <= k < t.len() ==> literal(Mode::Double, #[trigger] t[k]),
    ensures
        expanded(env, status, Mode::Plain, seq![DOUBLE_QUOTE] + t + seq![DOUBLE_QUOTE]) == marked(
            t,
            true,
        ),
{
    let end = seq![DOUBLE_QUOTE];
    let s = seq![DOUBLE_QUOTE] + t + end;
    law_literal_prefix(env, status, Mode::Double, t, end);
    assert(s.skip(1) =~= t + end);
    assert(end.skip(1) =~= Seq::<u8>::empty());
    assert(expanded(env, status, Mode::Plain, Seq::<u8>::empty()) =~= Seq::<Mark>::empty());
    assert(expanded(env, status, Mode::Double, end) =~= Seq::<Mark>::empty());
    assert(expanded(env, status, Mode::Plain, s) =~= marked(t, true));
}

/// A backslash makes the byte after it stand for itself, whatever comes then,
/// and that byte is marked as literal.
pub proof fn law_escape(env: Seq<Binding>, status: i64, c: u8, rest: Seq<u8>)
    ensures
        expanded(env, status, Mode::Plain, seq![BACKSLASH, c] + rest) == marked(seq![c], true)
            + expanded(env, status, Mode::Plain, rest),
        expansion(env, status, seq![BACKSLASH, c]) == seq![c],
{
    assert((seq![BACKSLASH, c] + rest).skip(2) =~= rest);
    let s = seq![BACKSLASH, c];
    assert(s.skip(2) =~= Seq::<u8>::empty());
    assert(expanded(env, status, Mode::Plain, s.skip(2)) =~= Seq::<Mark>::empty());
    assert(unmarked(expanded(env, status, Mode::Plain, s)) =~= seq![c]);
}

/// Where only `$` is special, text without a `$` that starts an expression stays
/// as it is: quotes, backslashes and literal dollar signs included.
pub proof fn law_substitution_keeps(env: Seq<Binding>, status: i64, m: Seq<Mark>)
    requires
        forall|k: int| 0 <= k < m.len() ==> (#[trigger] m[k]).byte != DOLLAR || m[k].quoted,
    ensures
        substitution(env, status, m) == unmarked(m),
    decreases m.len(),
{
    if m.len() > 0 {
        let m2 = m.skip(1);
        assert forall|k: int| 0 <= k < m2.len() implies (#[trigger] m2[k]).byte != DOLLAR
            || m2[k].quoted by {
            assert(m2[k] == m[k + 1]);
        }
        law_substitution_keeps(env, status, m2);
        assert(m[0].byte != DOLLAR || m[0].quoted);
        assert(seq![m[0].byte] + unmarked(m2) =~= unmarked(m));
    } else {
        assert(unmarked(m) =~= Seq::<u8>::empty());
    }
}

proof fn lemma_lone_dollar(env: Seq<Binding>, status: i64, s: Seq<u8>)
    requires
        dollar(env, status, s).used == s.len(),
    ensures
        expansion(env, status, seq![DOLLAR] + s) == dollar(env, status, s).value,
{
    let whole = seq![DOLLAR] + s;
    assert(whole.skip(1) =~= s);
    assert(whole.skip(1 + s.len() as int) =~= Seq::<u8>::empty());
    assert(expanded(env, status, Mode::Plain, Seq::<u8>::empty()) =~= Seq::<Mark>::empty());
    assert(unmarked(expanded(env, status, Mode::Plain, whole)) =~= dollar(env, status, s).value);
}

/// `$NAME` and `${NAME}` stand for the value of the variable, or for nothing
/// if it is not set.  A name after a bare `$` does not start with `0`.
pub proof fn law_variable_value(env: Seq<Binding>, status: i64, name: Seq<u8>)
    requires
        name.len() > 0,
        forall|k: int| 0 <= k < name.len() ==> is_name_byte(#[trigger] name[k]),
    ensures
        name[0] != DIGIT_0 ==> expansion(env, status, seq![DOLLAR] + name) == value_or_empty(
            env,
            name,
        ),
        expansion(env, status, seq![DOLLAR] + (seq![OPEN_BRACE] + name + seq![CLOSE_BRACE]))
            == value_or_empty(env, name),
{
    assert(is_name_byte(name[0]));
    lemma_name_run_is(name, name.len() as int);
    assert(name.take(name.len() as int) =~= name);
    if name[0] != DIGIT_0 {
        lemma_lone_dollar(env, status, name);
    }
    let braced = seq![OPEN_BRACE] + name + seq![CLOSE_BRACE];
    assert forall|k: int| 0 <= k < name.len() implies braced.skip(1)[k] != CLOSE_BRACE by {
        assert(braced.skip(1)[k] == name[k]);
    }
    crate::bytes::lemma_first_index_is(braced.skip(1), CLOSE_BRACE, name.len() as int);
    assert(braced.skip(1).take(name.len() as int) =~= name);
    lemma_lone_dollar(env, status, braced);
}

/// `$?` stands for the last exit status in decimal.
pub proof fn law_status_value(env: Seq<Binding>, status: i64)
    ensures
        expansion(env, status, seq![DOLLAR, QUESTION]) == signed_decimal(status as int),
{
    lemma_lone_dollar(env, status, seq![QUESTION]);
    assert(seq![DOLLAR] + seq![QUESTION] =~= seq![DOLLAR, QUESTION]);
}

/// Which bytes are special: between single quotes the single quote; between
/// double quotes the double quote, the backslash and the dollar sign; outside
/// quotes all four of them.  Every other byte stands for itself.
pub proof fn law_special_bytes(c: u8)
    ensures
        literal(Mode::Single, c) <==> c != 0x27,
        literal(Mode::Double, c) <==> c != 0x22 && c != 0x5c && c != 0x24,
        literal(Mode::Plain, c) <==> c != 0x27 && c != 0x22 && c != 0x5c && c != 0x24,
{
}

proof fn lemma_dollar_in_context(
    env: Seq<Binding>,
    status: i64,
    mode: Mode,
    s: Seq<u8>,
    value: Seq<u8>,
    used: int,
)
    requires
        mode != Mode::Single,
        dollar(env, status, s) == (Dollar { value, used: used as nat }),
        0 <= used <= s.len(),
    ensures
        expanded(env, status, mode, seq![DOLLAR] + s) == marked(value, mode == Mode::Double)
            + expanded(env, status, mode, s.skip(used)),
{
    let whole = seq![DOLLAR] + s;
    assert(whole.skip(1) =~= s);
    assert(whole.skip(1 + used) =~= s.skip(used));
}

/// `${NAME}` stands for the value of the variable, or for nothing if it is not
/// set, outside quotes and between double quotes alike, whatever comes after
/// it.  Between double quotes the value is literal.
pub proof fn law_braced_variable(
    env: Seq<Binding>,
    status: i64,
    mode: Mode,
    name: Seq<u8>,
    rest: Seq<u8>,
)
    requires
        mode == Mode::Plain || mode == Mode::Double,
        !name.contains(CLOSE_BRACE),
    ensures
        ({
            let e = expanded(
                env,
                status,
                mode,
                seq![DOLLAR, OPEN_BRACE] + name + seq![CLOSE_BRACE] + rest,
            );
            &&& lookup(env, name) matches Some(v) ==> e == marked(v, mode == Mode::Double)
                + expanded(env, status, mode, rest)
            &&& lookup(env, name) is None ==> e == expanded(env, status, mode, rest)
        }),
{
    let s = seq![OPEN_BRACE] + name + seq![CLOSE_BRACE] + rest;
    let inner = s.skip(1);
    let n = name.len() as int;
    assert forall|k: int| 0 <= k < n implies inner[k] != CLOSE_BRACE by {
        assert(inner[k] == name[k]);
    }
    crate::bytes::lemma_first_index_is(inner, CLOSE_BRACE, n);
    assert(inner.take(n) =~= name);
    let value = value_or_empty(env, name);
    lemma_dollar_in_context(env, status, mode, s, value, n + 2);
    assert(seq![DOLLAR] + s =~= seq![DOLLAR, OPEN_BRACE] + name + seq![CLOSE_BRACE] + rest);
    assert(s.skip(n + 2) =~= rest);
    let tail = expanded(env, status, mode, rest);
    assert(marked(Seq::<u8>::empty(), mode == Mode::Double) + tail =~= tail);
}

/// A `${` without its `}` takes everything up to the end for the name.
pub proof fn law_unclosed_brace(env: Seq<Binding>, status: i64, mode: Mode, name: Seq<u8>)
    requires
        mode == Mode::Plain || mode == Mode::Double,
        !name.contains(CLOSE_BRACE),
    ensures
        ({
            let e = expanded(env, status, mode, seq![DOLLAR, OPEN_BRACE] + name);
            &&& lookup(env, name) matches Some(v) ==> e == marked(v, mode == Mode::Double)
            &&& lookup(env, name) is None ==> e.len() == 0
        }),
{
    let s = seq![OPEN_BRACE] + name;
    assert(s.skip(1) =~= name);
    crate::bytes::lemma_first_index_is(name, CLOSE_BRACE, name.len() as int);
    assert(name.take(name.len() as int) =~= name);
    let value = value_or_empty(env, name);
    lemma_dollar_in_context(env, status, mode, s, value, s.len() as int);
    assert(seq![DOLLAR] + s =~= seq![DOLLAR, OPEN_BRACE] + name);
    assert(s.skip(s.len() as int) =~= Seq::<u8>::empty());
    assert(marked(value, mode == Mode::Double) + Seq::<Mark>::empty() =~= marked(
        value,
        mode == Mode::Double,
    ));
}

/// `$NAME` stands for the value of the variable, or for nothing if it is not
/// set, outside quotes and between double quotes alike.  The name goes as far
/// as there are name bytes.  Between double quotes the value is literal.
pub proof fn law_bare_variable(
    env: Seq<Binding>,
    status: i64,
    mode: Mode,
    name: Seq<u8>,
    rest: Seq<u8>,
)
    requires
        mode == Mode::Plain || mode == Mode::Double,
        name.len() > 0,
        name[0] != DIGIT_0,
        forall|k: int| 0 <= k < name.len() ==> is_name_byte(#[trigger] name[k]),
        rest.len() > 0 ==> !is_name_byte(rest[0]),
    ensures
        ({
            let e = expanded(env, status, mode, seq![DOLLAR] + name + rest);
            &&& lookup(env, name) matches Some(v) ==> e == marked(v, mode == Mode::Double)
                + expanded(env, status, mode, rest)
            &&& lookup(env, name) is None ==> e == expanded(env, status, mode, rest)
        }),
{
    let s = name + rest;
    let n = name.len() as int;
    assert forall|k: int| 0 <= k < n implies is_name_byte(#[trigger] s[k]) by {
        assert(s[k] == name[k]);
    }
    assert(is_name_byte(name[0]) && s[0] == name[0]);
    lemma_name_run_is(s, n);
    assert(s.take(n) =~= name);
    let value = value_or_empty(env, name);
    lemma_dollar_in_context(env, status, mode, s, value, n);
    assert(seq![DOLLAR] + s =~= seq![DOLLAR] + name + rest);
    assert(s.skip(n) =~= rest);
    let tail = expanded(env, status, mode, rest);
    assert(marked(Seq::<u8>::empty(), mode == Mode::Double) + tail =~= tail);
}

/// `$?` stands for the exit status in decimal, `$$` for `rsh` and `$0` for
/// `/bin/rsh`, outside quotes and between double quotes alike, whatever comes
/// after them.
pub proof fn law_special_variables(env: Seq<Binding>, status: i64, mode: Mode, rest: Seq<u8>)
    requires
        mode == Mode::Plain || mode == Mode::Double,
    ensures
        expanded(env, status, mode, seq![0x24u8, 0x3f] + rest) == marked(
            signed_decimal(status as int),
            mode == Mode::Double,
        ) + expanded(env, status, mode, rest),
        expanded(env, status, mode, seq![0x24u8, 0x24] + rest) == marked(
            text("rsh"@),
            mode == Mode::Double,
        ) + expanded(env, status, mode, rest),
        expanded(env, status, mode, seq![0x24u8, 0x30] + rest) == marked(
            text("/bin/rsh"@),
            mode == Mode::Double,
        ) + expanded(env, status, mode, rest),
{
    let a = seq![QUESTION] + rest;
    let b = seq![DOLLAR] + rest;
    let c = seq![DIGIT_0] + rest;
    lemma_dollar_in_context(env, status, mode, a, signed_decimal(status as int), 1);
    lemma_dollar_in_context(env, status, mode, b, text("rsh"@), 1);
    lemma_dollar_in_context(env, status, mode, c, text("/bin/rsh"@), 1);
    assert(seq![DOLLAR] + a =~= seq![0x24u8, 0x3f] + rest);
    assert(seq![DOLLAR] + b =~= seq![0x24u8, 0x24] + rest);
    assert(seq![DOLLAR] + c =~= seq![0x24u8, 0x30] + rest);
    assert(a.skip(1) =~= rest);
    assert(b.skip(1) =~= rest);
    assert(c.skip(1) =~= rest);
}

/// A `$` that starts no expression stands for itself.
pub proof fn law_bare_dollar(env: Seq<Binding>, status: i64, mode: Mode, rest: Seq<u8>)
    requires
        mode == Mode::Plain || mode == Mode::Double,
        rest.len() > 0 ==> !is_name_byte(rest[0]) && rest[0] != QUESTION && rest[0] != DOLLAR
            && rest[0] != OPEN_BRACE,
    ensures
        expanded(env, status, mode, seq![DOLLAR] + rest) == marked(
            seq![DOLLAR],
            mode == Mode::Double,
        ) + expanded(env, status, mode, rest),
{
    lemma_dollar_in_context(env, status, mode, rest, seq![DOLLAR], 0);
    assert(rest.skip(0) =~= rest);
}

/// Single quotes: what stands between them is kept byte for byte and is
/// literal, and expansion goes on behind them.
pub proof fn law_single_quoted_region(env: Seq<Binding>, status: i64, t: Seq<u8>, rest: Seq<u8>)
    requires
        !t.contains(SINGLE_QUOTE),
    ensures
        expanded(env, status, Mode::Plain, seq![SINGLE_QUOTE] + t + seq![SINGLE_QUOTE] + rest)
            == marked(t, true) + expanded(env, status, Mode::Plain, rest),
        expanded(env, status, Mode::Plain, seq![SINGLE_QUOTE] + t) == marked(t, true),
{
    let end = seq![SINGLE_QUOTE] + rest;
    let s = seq![SINGLE_QUOTE] + t + seq![SINGLE_QUOTE] + rest;
    assert forall|k: int| 0 <= k < t.len() implies literal(Mode::Single, #[trigger] t[k]) by {}
    law_literal_prefix(env, status, Mode::Single, t, end);
    assert(s.skip(1) =~= t + end);
    assert(end.skip(1) =~= rest);
    law_literal_prefix(env, status, Mode::Single, t, Seq::empty());
    assert(t + Seq::<u8>::empty() =~= t);
    assert((seq![SINGLE_QUOTE] + t).skip(1) =~= t);
    assert(marked(t, true) + Seq::<Mark>::empty() =~= marked(t, true));
}

/// Double quotes open a region that goes to the next double quote, and are
/// dropped themselves.
pub proof fn law_double_quotes_open_and_close(env: Seq<Binding>, status: i64, rest: Seq<u8>)
    ensures
        expanded(env, status, Mode::Plain, seq![DOUBLE_QUOTE] + rest) == expanded(
            env,
            status,
            Mode::Double,
            rest,
        ),
        expanded(env, status, Mode::Double, seq![DOUBLE_QUOTE] + rest) == expanded(
            env,
            status,
            Mode::Plain,
            rest,
        ),
{
    assert((seq![DOUBLE_QUOTE] + rest).skip(1) =~= rest);
}

/// Between double quotes a variable stands for its value, in either form, and
/// the value and the text around it are literal.
pub proof fn law_variable_between_double_quotes(
    env: Seq<Binding>,
    status: i64,
    a: Seq<u8>,
    name: Seq<u8>,
    b: Seq<u8>,
    rest: Seq<u8>,
)
    requires
        forall|k: int| 0 <= k < a.len() ==> literal(Mode::Double, #[trigger] a[k]),
        forall|k: int| 0 <= k < b.len() ==> literal(Mode::Double, #[trigger] b[k]),
        forall|k: int| 0 <= k < name.len() ==> is_name_byte(#[trigger] name[k]),
    ensures
        ({
            let quote = seq![DOUBLE_QUOTE];
            let braced = seq![DOLLAR, OPEN_BRACE] + name + seq![CLOSE_BRACE];
            let bare = seq![DOLLAR] + name;
            let v = match lookup(env, name) {
                Some(v) => v,
                None => Seq::empty(),
            };
            let tail = expanded(env, status, Mode::Plain, rest);
            &&& expanded(env, status, Mode::Plain, quote + (a + (braced + (b + (quote + rest)))))
                == marked(a + v + b, true) + tail
            &&& name.len() > 0 && name[0] != DIGIT_0 && (b.len() > 0 ==> !is_name_byte(b[0]))
                ==> expanded(env, status, Mode::Plain, quote + (a + (bare + (b + (quote + rest)))))
                == marked(a + v + b, true) + tail
        }),
{
    let quote = seq![DOUBLE_QUOTE];
    let braced = seq![DOLLAR, OPEN_BRACE] + name + seq![CLOSE_BRACE];
    let bare = seq![DOLLAR] + name;
    let v = match lookup(env, name) {
        Some(v) => v,
        None => Seq::empty(),
    };
    let after = b + (quote + rest);
    let tail = expanded(env, status, Mode::Plain, rest);
    assert(!name.contains(CLOSE_BRACE)) by {
        assert forall|k: int| 0 <= k < name.len() implies name[k] != CLOSE_BRACE by {
            assert(is_name_byte(name[k]));
        }
    }
    law_double_quotes_open_and_close(env, status, a + (braced + after));
    law_double_quotes_open_and_close(env, status, a + (bare + after));
    law_double_quotes_open_and_close(env, status, rest);
    law_literal_prefix(env, status, Mode::Double, a, braced + after);
    law_literal_prefix(env, status, Mode::Double, a, bare + after);
    law_literal_prefix(env, status, Mode::Double, b, quote + rest);
    law_braced_variable(env, status, Mode::Double, name, after);
    assert(seq![DOLLAR, OPEN_BRACE] + name + seq![CLOSE_BRACE] + after =~= braced + after);
    assert(marked(v, true) + (marked(b, true) + tail) =~= marked(v + b, true) + tail);
    if lookup(env, name) is None {
        assert(v + b =~= b);
    }
    assert(marked(a, true) + (marked(v + b, true) + tail) =~= marked(a + v + b, true) + tail);
    if name.len() > 0 && name[0] != DIGIT_0 && (b.len() > 0 ==> !is_name_byte(b[0])) {
        if b.len() > 0 {
            assert(after[0] == b[0]);
        } else {
            assert(after[0] == DOUBLE_QUOTE);
        }
        law_bare_variable(env, status, Mode::Double, name, after);
        assert(seq![DOLLAR] + name + after =~= bare + after);
    }
}

/// A backslash makes the byte after it literal between double quotes as well;
/// one that nothing follows is dropped outside quotes and kept between double
/// quotes.
pub proof fn law_escape_between_double_quotes(
    env: Seq<Binding>,
    status: i64,
    c: u8,
    rest: Seq<u8>,
)
    ensures
        expanded(env, status, Mode::Double, seq![BACKSLASH, c] + rest) == marked(seq![c], true)
            + expanded(env, status, Mode::Double, rest),
        expanded(env, status, Mode::Plain, seq![BACKSLASH]).len() == 0,
        expanded(env, status, Mode::Double, seq![BACKSLASH]) == marked(seq![BACKSLASH], true),
{
    assert((seq![BACKSLASH, c] + rest).skip(2) =~= rest);
}

/// Where only `$` is special, a `$` expression that is not literal stands for
/// its value, and what stands around it stays as it is.
#[verifier::rlimit(30)]
pub proof fn law_substitution_replaces(
    env: Seq<Binding>,
    status: i64,
    before: Seq<Mark>,
    name: Seq<u8>,
    after: Seq<Mark>,
)
    requires
        forall|k: int|
            0 <= k < before.len() ==> (#[trigger] before[k]).byte != DOLLAR || before[k].quoted,
        name.len() > 0,
        name[0] != DIGIT_0,
        forall|k: int| 0 <= k < name.len() ==> is_name_byte(#[trigger] name[k]),
        after.len() > 0 ==> !is_name_byte(after[0].byte),
    ensures
        ({
            let v = match lookup(env, name) {
                Some(v) => v,
                None => Seq::empty(),
            };
            let bare = marked(seq![DOLLAR] + name, false);
            let braced = marked(
                seq![DOLLAR, OPEN_BRACE] + name + seq![CLOSE_BRACE],
                false,
            );
            let tail = substitution(env, status, after);
            &&& substitution(env, status, before + (bare + after)) == unmarked(before) + (v + tail)
            &&& substitution(env, status, before + (braced + after)) == unmarked(before) + (v
                + tail)
        }),
    decreases before.len(),
{
    let v = match lookup(env, name) {
        Some(v) => v,
        None => Seq::empty(),
    };
    let bare = marked(seq![DOLLAR] + name, false);
    let braced = marked(seq![DOLLAR, OPEN_BRACE] + name + seq![CLOSE_BRACE], false);
    let tail = substitution(env, status, after);
    if before.len() > 0 {
        let b2 = before.skip(1);
        assert forall|k: int| 0 <= k < b2.len() implies (#[trigger] b2[k]).byte != DOLLAR
            || b2[k].quoted by {
            assert(b2[k] == before[k + 1]);
        }
        law_substitution_replaces(env, status, b2, name, after);
        assert(before[0].byte != DOLLAR || before[0].quoted);
        assert((before + (bare + after)).skip(1) =~= b2 + (bare + after));
        assert((before + (braced + after)).skip(1) =~= b2 + (braced + after));
        assert(seq![before[0].byte] + (unmarked(b2) + (v + tail)) =~= unmarked(before) + (v
            + tail));
    } else {
        let n = name.len() as int;
        let m1 = before + (bare + after);
        let s1 = unmarked(m1.skip(1));
        assert(is_name_byte(name[0]));
        assert forall|k: int| 0 <= k < n implies is_name_byte(#[trigger] s1[k]) by {
            assert(s1[k] == name[k]);
        }
        assert(s1[0] == name[0]);
        if after.len() > 0 {
            assert(s1[n] == after[0].byte);
        }
        lemma_name_run_is(s1, n);
        assert(s1.take(n) =~= name);
        assert(m1.skip(1 + n) =~= after);
        let m2 = before + (braced + after);
        let s2 = unmarked(m2.skip(1));
        let inner = s2.skip(1);
        assert forall|k: int| 0 <= k < n implies inner[k] != CLOSE_BRACE by {
            assert(inner[k] == name[k]);
            assert(is_name_byte(name[k]));
        }
        crate::bytes::lemma_first_index_is(inner, CLOSE_BRACE, n);
        assert(inner.take(n) =~= name);
        assert(m2.skip(n + 3) =~= after);
        assert(unmarked(before) + (v + tail) =~= v + tail);
    }
}

/// Where only `$` is special, `$?`, `$$` and `$0` stand for what they stand for
/// elsewhere, and a `$` that starts no expression for itself.
pub proof fn law_substitution_specials(env: Seq<Binding>, status: i64, rest: Seq<Mark>)
    ensures
        substitution(env, status, marked(seq![0x24u8, 0x3f], false) + rest) == signed_decimal(
            status as int,
        ) + substitution(env, status, rest),
        substitution(env, status, marked(seq![0x24u8, 0x24], false) + rest) == text("rsh"@)
            + substitution(env, status, rest),
        substitution(env, status, marked(seq![0x24u8, 0x30], false) + rest) == text("/bin/rsh"@)
            + substitution(env, status, rest),
        (rest.len() > 0 ==> !is_name_byte(rest[0].byte) && rest[0].byte != QUESTION
            && rest[0].byte != DOLLAR && rest[0].byte != OPEN_BRACE) ==> substitution(
            env,
            status,
            marked(seq![DOLLAR], false) + rest,
        ) == seq![DOLLAR] + substitution(env, status, rest),
{
    let a = marked(seq![0x24u8, 0x3f], false) + rest;
    let b = marked(seq![0x24u8, 0x24], false) + rest;
    let c = marked(seq![0x24u8, 0x30], false) + rest;
    let d = marked(seq![DOLLAR], false) + rest;
    assert(a.skip(2) =~= rest);
    assert(b.skip(2) =~= rest);
    assert(c.skip(2) =~= rest);
    assert(d.skip(1) =~= rest);
    assert(unmarked(a.skip(1))[0] == 0x3f);
    assert(unmarked(b.skip(1))[0] == 0x24);
    assert(unmarked(c.skip(1))[0] == 0x30);
    if rest.len() > 0 {
        assert(unmarked(d.skip(1))[0] == rest[0].byte);
    }
}

} // verus!
