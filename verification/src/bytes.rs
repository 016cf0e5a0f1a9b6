//! Byte classes and small functions on byte strings.
use vstd::prelude::*;

verus! {

pub const NUL: u8 = 0x00;
pub const NEWLINE: u8 = 0x0a;
pub const ESC: u8 = 0x1b;
pub const SPACE: u8 = ' ' as u8;
pub const DOUBLE_QUOTE: u8 = '"' as u8;
pub const HASH: u8 = '#' as u8;
pub const DOLLAR: u8 = '$' as u8;
pub const SINGLE_QUOTE: u8 = '\'' as u8;
pub const DASH: u8 = '-' as u8;
pub const DOT: u8 = '.' as u8;
pub const SLASH: u8 = '/' as u8;
pub const DIGIT_0: u8 = '0' as u8;
pub const DIGIT_9: u8 = '9' as u8;
pub const COLON: u8 = ':' as u8;
pub const EQUALS: u8 = '=' as u8;
pub const QUESTION: u8 = '?' as u8;
pub const BACKSLASH: u8 = '\\' as u8;
pub const OPEN_BRACKET: u8 = '[' as u8;
pub const UNDERSCORE: u8 = '_' as u8;
pub const OPEN_BRACE: u8 = '{' as u8;
pub const CLOSE_BRACE: u8 = '}' as u8;

/// The bytes of a piece of text in UTF-8.
pub open spec fn text(s: Seq<char>) -> Seq<u8> {
    vstd::utf8::encode_utf8(s)
}

/// The first `n` bytes of `s`, or all of it if it is shorter.
pub open spec fn cut<A>(s: Seq<A>, n: int) -> Seq<A> {
    if s.len() <= n {
        s
    } else {
        s.take(n)
    }
}

/// The sequences that a list of vectors holds.
pub open spec fn views<A>(v: Seq<Vec<A>>) -> Seq<Seq<A>> {
    Seq::new(v.len(), |i: int| v[i]@)
}

/// ASCII whitespace: space, tab, line feed, form feed, carriage return.
pub open spec fn spec_is_space(b: u8) -> bool {
    b == 0x20 || b == 0x09 || b == 0x0a || b == 0x0c || b == 0x0d
}

#[verifier::when_used_as_spec(spec_is_space)]
pub fn is_space(b: u8) -> (r: bool)
    ensures
        r == spec_is_space(b),
{
    b == 0x20 || b == 0x09 || b == 0x0a || b == 0x0c || b == 0x0d
}

/// An ASCII decimal digit.
pub open spec fn spec_is_digit(b: u8) -> bool {
    DIGIT_0 <= b <= DIGIT_9
}

#[verifier::when_used_as_spec(spec_is_digit)]
pub fn is_digit(b: u8) -> (r: bool)
    ensures
        r == spec_is_digit(b),
{
    DIGIT_0 <= b && b <= DIGIT_9
}

/// A byte that may stand in a variable name: an ASCII letter, a digit or `_`.
pub open spec fn spec_is_name_byte(b: u8) -> bool {
    ||| 'a' as u8 <= b <= 'z' as u8
    ||| 'A' as u8 <= b <= 'Z' as u8
    ||| spec_is_digit(b)
    ||| b == UNDERSCORE
}

#[verifier::when_used_as_spec(spec_is_name_byte)]
pub fn is_name_byte(b: u8) -> (r: bool)
    ensures
        r == spec_is_name_byte(b),
{
    ('a' as u8 <= b && b <= 'z' as u8) || ('A' as u8 <= b && b <= 'Z' as u8) || is_digit(b) || b
        == UNDERSCORE
}

/// Whether two byte strings are equal.
pub fn same(a: &[u8], b: &[u8]) -> (r: bool)
    ensures
        r == (a@ == b@),
{
    if a.len() != b.len() {
        return false;
    }
    let mut i: usize = 0;
    while i < a.len()
        invariant
            i <= a@.len(),
            a@.len() == b@.len(),
            forall|k: int| 0 <= k < i ==> a@[k] == b@[k],
        decreases a@.len() - i,
    {
        if a[i] != b[i] {
            return false;
        }
        i += 1;
    }
    assert(a@ =~= b@);
    true
}

/// Append `s` to `v`.
pub fn append(v: &mut Vec<u8>, s: &[u8])
    ensures
        final(v)@ == old(v)@ + s@,
{
    let mut i: usize = 0;
    while i < s.len()
        invariant
            i <= s@.len(),
            v@ == old(v)@ + s@.take(i as int),
        decreases s@.len() - i,
    {
        v.push(s[i]);
        i += 1;
        assert(s@.take(i as int) =~= s@.take(i - 1).push(s@[i - 1]));
    }
    assert(s@.take(i as int) =~= s@);
}

/// A copy of the first `n` bytes of `s`, or of all of it if it is shorter.
pub fn cut_copy(s: &[u8], n: usize) -> (r: Vec<u8>)
    ensures
        r@ == cut(s@, n as int),
{
    let m: usize = if s.len() < n {
        s.len()
    } else {
        n
    };
    let mut r: Vec<u8> = Vec::new();
    append(&mut r, &s[0..m]);
    assert(r@ =~= cut(s@, n as int));
    r
}

/// A copy of `s`.
pub fn copy(s: &[u8]) -> (r: Vec<u8>)
    ensures
        r@ == s@,
{
    let mut r: Vec<u8> = Vec::new();
    append(&mut r, s);
    assert(r@ =~= s@);
    r
}

/// The place of the first `b` in `s`; the length of `s` if there is none.
pub open spec fn first_index(s: Seq<u8>, b: u8) -> nat
    decreases s.len(),
{
    if s.len() == 0 || s[0] == b {
        0
    } else {
        1 + first_index(s.skip(1), b)
    }
}

/// The place returned by [`first_index`] is the only one that has `b` at it
/// and nowhere before it.
pub proof fn lemma_first_index(s: Seq<u8>, b: u8)
    ensures
        first_index(s, b) <= s.len(),
        forall|k: int| 0 <= k < first_index(s, b) ==> s[k] != b,
        first_index(s, b) < s.len() ==> s[first_index(s, b) as int] == b,
        first_index(s, b) < s.len() <==> s.contains(b),
    decreases s.len(),
{
    if s.len() > 0 && s[0] != b {
        lemma_first_index(s.skip(1), b);
        let n = first_index(s.skip(1), b);
        assert forall|k: int| 0 <= k < 1 + n implies s[k] != b by {
            if k > 0 {
                assert(s.skip(1)[k - 1] == s[k]);
            }
        }
        if s.skip(1).contains(b) {
            let k = choose|k: int| 0 <= k < s.skip(1).len() && s.skip(1)[k] == b;
            assert(s[k + 1] == b);
        }
        if s.contains(b) {
            let k = choose|k: int| 0 <= k < s.len() && s[k] == b;
            assert(s.skip(1)[k - 1] == b);
        }
    } else if s.len() > 0 {
        assert(s[0] == b);
    }
}

/// A place with `b` at it and nowhere before it is the first index.
pub proof fn lemma_first_index_is(s: Seq<u8>, b: u8, n: int)
    requires
        0 <= n <= s.len(),
        forall|k: int| 0 <= k < n ==> s[k] != b,
        n < s.len() ==> s[n] == b,
    ensures
        first_index(s, b) == n,
{
    lemma_first_index(s, b);
    if first_index(s, b) < n {
        assert(s[first_index(s, b) as int] != b);
    }
}

/// The place of the first `b` in `s` at or after `from`; the length of `s` if
/// there is none.
pub fn find_byte(s: &[u8], from: usize, b: u8) -> (r: usize)
    requires
        from <= s@.len(),
    ensures
        r == from + first_index(s@.skip(from as int), b),
        from <= r <= s@.len(),
{
    let mut i: usize = from;
    while i < s.len() && s[i] != b
        invariant
            from <= i <= s@.len(),
            forall|k: int| from <= k < i ==> s@[k] != b,
        decreases s@.len() - i,
    {
        i += 1;
    }
    proof {
        lemma_first_index_is(s@.skip(from as int), b, i - from);
    }
    i
}

/// `s` without its leading whitespace.
pub open spec fn trim_start(s: Seq<u8>) -> Seq<u8>
    decreases s.len(),
{
    if s.len() > 0 && is_space(s[0]) {
        trim_start(s.skip(1))
    } else {
        s
    }
}

/// `s` without its trailing whitespace.
pub open spec fn trim_end(s: Seq<u8>) -> Seq<u8>
    decreases s.len(),
{
    if s.len() > 0 && is_space(s.last()) {
        trim_end(s.drop_last())
    } else {
        s
    }
}

/// `s` without leading and trailing ASCII whitespace.
pub open spec fn trimmed(s: Seq<u8>) -> Seq<u8> {
    trim_end(trim_start(s))
}

/// Trim leading and trailing ASCII whitespace.
pub fn trim(s: &[u8]) -> (r: &[u8])
    ensures
        r@ == trimmed(s@),
        r@.len() <= s@.len(),
{
    let mut i: usize = 0;
    assert(s@.skip(0) =~= s@);
    while i < s.len() && is_space(s[i])
        invariant
            i <= s@.len(),
            trim_start(s@) == trim_start(s@.skip(i as int)),
        decreases s@.len() - i,
    {
        i += 1;
        assert(s@.skip(i - 1).skip(1) =~= s@.skip(i as int));
    }
    let mut e: usize = s.len();
    assert(s@.subrange(i as int, e as int) =~= s@.skip(i as int));
    while e > i && is_space(s[e - 1])
        invariant
            i <= e <= s@.len(),
            trimmed(s@) == trim_end(s@.subrange(i as int, e as int)),
        decreases e,
    {
        e -= 1;
        assert(s@.subrange(i as int, e + 1).drop_last() =~= s@.subrange(i as int, e as int));
    }
    &s[i..e]
}

/// A trimmed byte string neither starts nor ends with whitespace, and what
/// was taken off either end is whitespace throughout.
pub proof fn law_trimmed(s: Seq<u8>) -> (i: int)
    ensures
        0 <= i,
        i + trimmed(s).len() <= s.len(),
        trimmed(s) == s.subrange(i, i + trimmed(s).len()),
        forall|k: int| 0 <= k < i ==> is_space(#[trigger] s[k]),
        forall|k: int| i + trimmed(s).len() <= k < s.len() ==> is_space(#[trigger] s[k]),
        trimmed(s).len() > 0 ==> !is_space(trimmed(s)[0]) && !is_space(trimmed(s).last()),
{
    let i = lemma_trim_start(s);
    lemma_trim_end(trim_start(s));
    let t = trim_start(s);
    assert forall|k: int| i + trimmed(s).len() <= k < s.len() implies is_space(#[trigger] s[k]) by {
        assert(t[k - i] == s[k]);
    }
    assert(trimmed(s) =~= s.subrange(i, i + trimmed(s).len()));
    i
}

proof fn lemma_trim_start(s: Seq<u8>) -> (i: int)
    ensures
        0 <= i <= s.len(),
        trim_start(s) == s.skip(i),
        forall|k: int| 0 <= k < i ==> is_space(#[trigger] s[k]),
        i < s.len() ==> !is_space(s[i]),
    decreases s.len(),
{
    if s.len() > 0 && is_space(s[0]) {
        let j = lemma_trim_start(s.skip(1));
        assert(s.skip(1).skip(j) =~= s.skip(j + 1));
        assert forall|k: int| 0 <= k < j + 1 implies is_space(#[trigger] s[k]) by {
            if k > 0 {
                assert(s.skip(1)[k - 1] == s[k]);
            }
        }
        j + 1
    } else {
        assert(s.skip(0) =~= s);
        0
    }
}

proof fn lemma_trim_end(s: Seq<u8>)
    ensures
        trim_end(s).len() <= s.len(),
        trim_end(s) == s.take(trim_end(s).len() as int),
        forall|k: int| trim_end(s).len() <= k < s.len() ==> is_space(#[trigger] s[k]),
        trim_end(s).len() > 0 ==> !is_space(trim_end(s).last()),
    decreases s.len(),
{
    if s.len() > 0 && is_space(s.last()) {
        lemma_trim_end(s.drop_last());
        let n = trim_end(s).len() as int;
        assert(s.drop_last().take(n) =~= s.take(n));
        assert forall|k: int| n <= k < s.len() implies is_space(#[trigger] s[k]) by {
            if k < s.len() - 1 {
                assert(s.drop_last()[k] == s[k]);
            }
        }
    } else {
        assert(s.take(s.len() as int) =~= s);
    }
}

// Text -------------------------------------------------------------------------

/// The text in `b`, if it is valid UTF-8.
///
/// Calls `core::str::from_utf8`, which is taken to return `Ok` exactly on
/// valid UTF-8, and then the string that those bytes encode.
#[verifier::external_body]
fn utf8_text(b: &[u8]) -> (r: Option<&str>)
    ensures
        r is Some <==> vstd::utf8::valid_utf8(b@),
        r matches Some(s) ==> text(s@) == b@,
{
    match core::str::from_utf8(b) {
        Ok(s) => Some(s),
        Err(_) => None,
    }
}

/// The bytes that stand for `b` in a message.
pub open spec fn shown(b: Seq<u8>) -> Seq<u8> {
    if vstd::utf8::valid_utf8(b) {
        b
    } else {
        text("<non-utf8>"@)
    }
}

/// Convert a byte string to `&str` for a message.  Falls back to
/// `"<non-utf8>"` if it is not valid UTF-8.
pub fn as_str(b: &[u8]) -> (r: &str)
    ensures
        text(r@) == shown(b@),
        !vstd::utf8::valid_utf8(b@) ==> r@ == "<non-utf8>"@,
{
    match utf8_text(b) {
        Some(s) => s,
        None => "<non-utf8>",
    }
}

// Output buffers ---------------------------------------------------------------

/// `after` is the buffer `before` once `content` has been written at its start
/// as far as there is room; `n` is the number of bytes that went in.
pub open spec fn filled<A>(before: Seq<A>, after: Seq<A>, n: int, content: Seq<A>) -> bool {
    &&& n == if content.len() <= before.len() { content.len() as int } else { before.len() as int }
    &&& after == content.take(n) + before.skip(n)
}

/// Put `b` at place `j` of `out` if there is room; returns the next place.
/// `content` is what was written before, into a buffer that was `before`.
pub(crate) fn emit(
    out: &mut [u8],
    j: usize,
    b: u8,
    Ghost(before): Ghost<Seq<u8>>,
    Ghost(content): Ghost<Seq<u8>>,
) -> (r: usize)
    requires
        filled(before, old(out)@, j as int, content),
    ensures
        filled(before, final(out)@, r as int, content.push(b)),
{
    if j < out.len() {
        let ghost o0 = out@;
        out[j] = b;
        assert(out@ =~= content.push(b).take(j + 1) + before.skip(j + 1)) by {
            assert(content.take(j as int) =~= content);
            assert forall|k: int| j < k < out@.len() implies out@[k] == before[k] by {
                assert(o0[k] == before.skip(j as int)[k - j]);
            }
        }
        j + 1
    } else {
        assert(content.push(b).take(j as int) =~= content.take(j as int));
        j
    }
}

/// Put the bytes of `s` into `out` from place `j` on, as far as there is room;
/// returns the next place.  `content` is what was written before, into a buffer
/// that was `before`.
pub(crate) fn emit_slice(
    out: &mut [u8],
    j: usize,
    s: &[u8],
    Ghost(before): Ghost<Seq<u8>>,
    Ghost(content): Ghost<Seq<u8>>,
) -> (r: usize)
    requires
        filled(before, old(out)@, j as int, content),
    ensures
        filled(before, final(out)@, r as int, content + s@),
{
    let mut r: usize = j;
    let mut i: usize = 0;
    assert(content + s@.take(0) =~= content);
    while i < s.len()
        invariant
            i <= s@.len(),
            filled(before, out@, r as int, content + s@.take(i as int)),
        decreases s@.len() - i,
    {
        r = emit(out, r, s[i], Ghost(before), Ghost(content + s@.take(i as int)));
        i += 1;
        assert((content + s@.take(i - 1)).push(s@[i - 1]) =~= content + s@.take(i as int));
    }
    assert(s@.take(i as int) =~= s@);
    r
}

/// An untouched buffer holds nothing yet.
pub proof fn lemma_filled_empty<A>(before: Seq<A>)
    ensures
        filled(before, before, 0, Seq::<A>::empty()),
{
    assert(before =~= Seq::<A>::empty().take(0) + before.skip(0));
}

/// What a filled buffer holds is its content, cut to the room there was.
pub proof fn lemma_filled_cut<A>(before: Seq<A>, after: Seq<A>, n: int, content: Seq<A>)
    requires
        filled(before, after, n, content),
    ensures
        0 <= n <= after.len(),
        after.len() == before.len(),
        after.take(n) == cut(content, before.len() as int),
        after.subrange(0, n) == cut(content, before.len() as int),
{
    assert(after.take(n) =~= cut(content, before.len() as int));
    assert(after.subrange(0, n) =~= after.take(n));
}

/// Cutting keeps the start, and all of what is short enough.
pub proof fn law_cut<A>(s: Seq<A>, n: int)
    requires
        0 <= n,
    ensures
        s.len() <= n ==> cut(s, n) == s,
        s.len() > n ==> cut(s, n).len() == n,
        forall|i: int| 0 <= i < cut(s, n).len() ==> #[trigger] cut(s, n)[i] == s[i],
{
}

/// A filled buffer holds as much of the content as fits, from its start on, and
/// what was behind that before.
pub proof fn law_filled<A>(before: Seq<A>, after: Seq<A>, n: int, content: Seq<A>)
    requires
        filled(before, after, n, content),
    ensures
        after.len() == before.len(),
        n <= content.len() && n <= before.len(),
        n == content.len() || n == before.len(),
        forall|i: int| 0 <= i < n ==> #[trigger] after[i] == content[i],
        forall|i: int| n <= i < before.len() ==> #[trigger] after[i] == before[i],
{
}

/// A message shows valid UTF-8 as it is, and `<non-utf8>` for anything else.
pub proof fn law_shown(b: Seq<u8>)
    ensures
        vstd::utf8::valid_utf8(b) ==> shown(b) == b,
        !vstd::utf8::valid_utf8(b) ==> shown(b) == text("<non-utf8>"@),
{
}

} // verus!
