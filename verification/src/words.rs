//! Splitting an expanded line into arguments.
use crate::bytes::{cut, is_space, views, BACKSLASH, SPACE};
use crate::expand::{mark, marked, unmark, unmarked, unquoted, words_of, Mark};
use vstd::prelude::*;

verus! {

/// Maximum number of command arguments (including command name).
pub const MAX_ARGS: usize = 32;

/// Maximum length of one argument after expansion.
pub const MAX_ARG: usize = 128;

/// Whether `m` separates arguments: whitespace that is not literal.
pub open spec fn spec_separates(m: Mark) -> bool {
    is_space(m.byte) && !m.quoted
}

#[verifier::when_used_as_spec(spec_separates)]
pub fn separates(m: Mark) -> (r: bool)
    ensures
        r == spec_separates(m),
{
    is_space(m.byte) && !m.quoted
}

/// Whether `m` escapes the byte after it: a backslash that is not literal.
pub open spec fn spec_escapes(m: Mark) -> bool {
    m.byte == BACKSLASH && !m.quoted
}

#[verifier::when_used_as_spec(spec_escapes)]
pub fn escapes(m: Mark) -> (r: bool)
    ensures
        r == spec_escapes(m),
{
    m.byte == BACKSLASH && !m.quoted
}

/// The length of the word at the start of `s`: up to the first separator that
/// is not escaped.
pub open spec fn word_len(s: Seq<Mark>) -> nat
    decreases s.len(),
{
    if s.len() == 0 || separates(s[0]) {
        0
    } else if escapes(s[0]) && s.len() > 1 {
        2 + word_len(s.skip(2))
    } else {
        1 + word_len(s.skip(1))
    }
}

/// A word without the backslashes that escape the byte after them, which is
/// literal then; one at the end is dropped.
pub open spec fn unescaped(s: Seq<Mark>) -> Seq<Mark>
    decreases s.len(),
{
    if s.len() == 0 {
        Seq::empty()
    } else if escapes(s[0]) {
        if s.len() > 1 {
            marked(seq![s[1].byte], true) + unescaped(s.skip(2))
        } else {
            Seq::empty()
        }
    } else {
        seq![s[0]] + unescaped(s.skip(1))
    }
}

/// The non-empty words of `s`, in order.
pub open spec fn words(s: Seq<Mark>) -> Seq<Seq<Mark>>
    decreases s.len(),
{
    if s.len() == 0 {
        Seq::empty()
    } else if separates(s[0]) {
        words(s.skip(1))
    } else {
        let n = word_len(s) as int;
        let w = unescaped(s.take(n));
        if 0 < n <= s.len() {
            if w.len() == 0 {
                words(s.skip(n))
            } else {
                seq![w] + words(s.skip(n))
            }
        } else {
            Seq::empty()
        }
    }
}

/// The arguments on an expanded line: its words, each cut to [`MAX_ARG`] bytes,
/// and at most [`MAX_ARGS`] of them.
pub open spec fn arguments(s: Seq<Mark>) -> Seq<Seq<Mark>> {
    shortened(cut(words(s), MAX_ARGS as int))
}

/// The words, each cut to [`MAX_ARG`] bytes.
pub open spec fn shortened(ws: Seq<Seq<Mark>>) -> Seq<Seq<Mark>> {
    Seq::new(ws.len(), |i: int| cut(ws[i], MAX_ARG as int))
}

proof fn lemma_word_len(s: Seq<Mark>)
    ensures
        word_len(s) <= s.len(),
        s.len() > 0 && !separates(s[0]) ==> word_len(s) > 0,
    decreases s.len(),
{
    if s.len() > 0 && !separates(s[0]) {
        if escapes(s[0]) && s.len() > 1 {
            lemma_word_len(s.skip(2));
        } else {
            lemma_word_len(s.skip(1));
        }
    }
}

/// Read the word that starts at `line[i]`, keeping at most [`MAX_ARG`] bytes of
/// it.  Returns the word and the place after it.
fn read_word(line: &[Mark], i: usize) -> (r: (Vec<Mark>, usize))
    requires
        i < line@.len(),
        !separates(line@[i as int]),
    ensures
        r.1 == i + word_len(line@.skip(i as int)),
        i < r.1 <= line@.len(),
        r.0@ == cut(
            unescaped(line@.skip(i as int).take(word_len(line@.skip(i as int)) as int)),
            MAX_ARG as int,
        ),
{
    let ghost s = line@.skip(i as int);
    let ghost n = word_len(s) as int;
    let ghost word = s.take(n);
    let mut j: usize = i;
    let mut arg: Vec<Mark> = Vec::new();
    let ghost mut done = Seq::<Mark>::empty();
    proof {
        lemma_word_len(s);
        assert(word.skip(0) =~= word);
        assert(line@.skip(j as int) =~= s);
        assert(done + unescaped(word) =~= unescaped(word));
        assert(arg@ =~= cut(done, MAX_ARG as int));
    }
    while j < line.len() && !separates(line[j])
        invariant
            i <= j <= line@.len(),
            s == line@.skip(i as int),
            n == word_len(s),
            word == s.take(n),
            0 < n <= s.len(),
            j - i <= n,
            n == (j - i) + word_len(line@.skip(j as int)),
            unescaped(word) == done + unescaped(word.skip(j - i)),
            arg@ == cut(done, MAX_ARG as int),
        decreases line@.len() - j,
    {
        let c: Mark = line[j];
        let ghost rest = line@.skip(j as int);
        let ghost left = word.skip(j - i);
        proof {
            lemma_word_len(rest);
            assert(rest[0] == line@[j as int]);
            assert(left[0] == rest[0]);
            assert(left.len() == word_len(rest));
            assert(rest.skip(1) =~= line@.skip(j + 1));
            assert(left.skip(1) =~= word.skip(j + 1 - i));
            if rest.len() > 1 {
                assert(rest.skip(2) =~= line@.skip(j + 2));
                if left.len() > 1 {
                    assert(left[1] == rest[1]);
                    assert(left.skip(2) =~= word.skip(j + 2 - i));
                }
            }
        }
        if escapes(c) {
            if j + 1 < line.len() {
                proof {
                    lemma_word_len(rest.skip(2));
                }
                let b: Mark = Mark { byte: line[j + 1].byte, quoted: true };
                if arg.len() < MAX_ARG {
                    arg.push(b);
                }
                j += 2;
                proof {
                    assert(marked(seq![b.byte], true) =~= seq![b]);
                    assert(unescaped(left) == seq![b] + unescaped(left.skip(2)));
                    assert(done + (seq![b] + unescaped(left.skip(2))) =~= (done + seq![b])
                        + unescaped(left.skip(2)));
                    done = done + seq![b];
                    assert(arg@ =~= cut(done, MAX_ARG as int));
                }
            } else {
                j += 1;
                proof {
                    lemma_word_len(rest.skip(1));
                    assert(unescaped(left) =~= Seq::<Mark>::empty());
                    assert(word.skip(j - i) =~= Seq::<Mark>::empty());
                    assert(done + unescaped(word.skip(j - i)) =~= done);
                }
            }
        } else {
            if arg.len() < MAX_ARG {
                arg.push(c);
            }
            j += 1;
            proof {
                lemma_word_len(rest.skip(1));
                assert(unescaped(left) == seq![c] + unescaped(left.skip(1)));
                assert(done + (seq![c] + unescaped(left.skip(1))) =~= (done + seq![c]) + unescaped(
                    left.skip(1),
                ));
                done = done + seq![c];
                assert(arg@ =~= cut(done, MAX_ARG as int));
            }
        }
    }
    proof {
        let rest = line@.skip(j as int);
        if j < line@.len() {
            assert(rest[0] == line@[j as int]);
        }
        assert(word_len(rest) == 0);
        assert(word.skip(j - i) =~= Seq::<Mark>::empty());
        assert(unescaped(word) =~= done);
    }
    (arg, j)
}

/// Split an expanded line into arguments at whitespace, keeping the marks.
///
/// Processes the escaping that survived expansion, such as that in the value of
/// a variable.  Quotes are already stripped, but what stood between them can
/// still contain spaces and backslashes; those are literal, and neither split
/// arguments nor escape anything.
pub fn split_words(line: &[Mark]) -> (r: Vec<Vec<Mark>>)
    ensures
        views(r@) == arguments(line@),
        r@.len() <= MAX_ARGS,
        forall|k: int| 0 <= k < r@.len() ==> 0 < (#[trigger] r@[k])@.len() <= MAX_ARG,
{
    let mut args: Vec<Vec<Mark>> = Vec::new();
    let mut i: usize = 0;
    let ghost all = words(line@);
    let ghost mut done = Seq::<Seq<Mark>>::empty();
    assert(line@.skip(0) =~= line@);
    assert(done + words(line@) =~= words(line@));
    assert(views(args@) =~= shortened(done));
    while i < line.len() && args.len() < MAX_ARGS
        invariant
            i <= line@.len(),
            all == words(line@),
            all == done + words(line@.skip(i as int)),
            done.len() == args@.len() <= MAX_ARGS,
            views(args@) == shortened(done),
            forall|k: int| 0 <= k < args@.len() ==> 0 < (#[trigger] args@[k])@.len() <= MAX_ARG,
        decreases line@.len() - i,
    {
        let ghost s = line@.skip(i as int);
        assert(s[0] == line@[i as int]);
        if separates(line[i]) {
            i += 1;
            assert(s.skip(1) =~= line@.skip(i as int));
        } else {
            let (arg, next) = read_word(line, i);
            let ghost n = word_len(s) as int;
            let ghost w = unescaped(s.take(n));
            let ghost args0 = args@;
            assert(s.skip(n) =~= line@.skip(next as int));
            i = next;
            if arg.len() > 0 {
                args.push(arg);
                proof {
                    assert(done + (seq![w] + words(s.skip(n))) =~= done.push(w) + words(s.skip(n)));
                    let shorter = shortened(done);
                    done = done.push(w);
                    assert forall|k: int| 0 <= k < args@.len() implies views(args@)[k]
                        == shortened(done)[k] by {
                        if k < args0.len() {
                            assert(views(args0)[k] == shorter[k]);
                        }
                    }
                    assert(views(args@) =~= shortened(done));
                }
            } else {
                assert(w.len() == 0);
            }
        }
    }
    proof {
        if i == line@.len() {
            assert(line@.skip(i as int) =~= Seq::<Mark>::empty());
            assert(all =~= done);
        }
        assert(cut(all, MAX_ARGS as int) =~= done);
    }
    args
}

/// Split an expanded line into arguments at whitespace.
pub fn tokenize(line: &[Mark]) -> (r: Vec<Vec<u8>>)
    ensures
        views(r@) == words_of(arguments(line@)),
        r@.len() <= MAX_ARGS,
        forall|k: int| 0 <= k < r@.len() ==> 0 < (#[trigger] r@[k])@.len() <= MAX_ARG,
{
    let words: Vec<Vec<Mark>> = split_words(line);
    unmark_words(words.as_slice())
}

/// The words `ms` without their marks.
pub fn unmark_words(ms: &[Vec<Mark>]) -> (r: Vec<Vec<u8>>)
    ensures
        views(r@) == words_of(views(ms@)),
        r@.len() == ms@.len(),
        forall|k: int| 0 <= k < r@.len() ==> (#[trigger] r@[k])@.len() == ms@[k]@.len(),
{
    let mut r: Vec<Vec<u8>> = Vec::new();
    let mut i: usize = 0;
    while i < ms.len()
        invariant
            i <= ms@.len(),
            r@.len() == i,
            forall|k: int| 0 <= k < i ==> (#[trigger] r@[k])@ == unmarked(ms@[k]@),
        decreases ms@.len() - i,
    {
        r.push(unmark(ms[i].as_slice()));
        i += 1;
    }
    assert(views(r@) =~= words_of(views(ms@)));
    r
}

/// The words `ws`, of which no byte is literal.
pub fn mark_words(ws: &[Vec<u8>]) -> (r: Vec<Vec<Mark>>)
    ensures
        views(r@) == unquoted(views(ws@)),
{
    let mut r: Vec<Vec<Mark>> = Vec::new();
    let mut i: usize = 0;
    while i < ws.len()
        invariant
            i <= ws@.len(),
            r@.len() == i,
            forall|k: int| 0 <= k < i ==> (#[trigger] r@[k])@ == marked(ws@[k]@, false),
        decreases ws@.len() - i,
    {
        r.push(mark(ws[i].as_slice(), false));
        i += 1;
    }
    assert(views(r@) =~= unquoted(views(ws@)));
    r
}

// Laws -------------------------------------------------------------------------

/// A byte that neither separates arguments nor escapes another.
pub open spec fn word_mark(m: Mark) -> bool {
    !separates(m) && !escapes(m)
}

proof fn lemma_plain_word(t: Seq<Mark>, rest: Seq<Mark>)
    requires
        forall|k: int| 0 <= k < t.len() ==> word_mark(#[trigger] t[k]),
        rest.len() > 0 ==> separates(rest[0]),
    ensures
        word_len(t + rest) == t.len(),
        unescaped(t) == t,
    decreases t.len(),
{
    if t.len() == 0 {
        assert(t + rest =~= rest);
        assert(unescaped(t) =~= t);
    } else {
        let t2 = t.skip(1);
        assert forall|k: int| 0 <= k < t2.len() implies word_mark(#[trigger] t2[k]) by {
            assert(t2[k] == t[k + 1]);
        }
        lemma_plain_word(t2, rest);
        assert(word_mark(t[0]));
        assert((t + rest).skip(1) =~= t2 + rest);
        assert(seq![t[0]] + t2 =~= t);
    }
}

/// Bytes that neither separate nor escape form one argument, up to the next
/// separator or the end of the line.
pub proof fn law_first_word(t: Seq<Mark>, rest: Seq<Mark>)
    requires
        t.len() > 0,
        forall|k: int| 0 <= k < t.len() ==> word_mark(#[trigger] t[k]),
        rest.len() > 0 ==> separates(rest[0]),
    ensures
        words(t + rest) == seq![t] + words(rest),
{
    lemma_plain_word(t, rest);
    let s = t + rest;
    assert(word_mark(t[0]));
    assert(s.take(t.len() as int) =~= t);
    assert(s.skip(t.len() as int) =~= rest);
}

/// Separators before the first argument do not count.
pub proof fn law_leading_space(m: Mark, rest: Seq<Mark>)
    requires
        separates(m),
    ensures
        words(seq![m] + rest) == words(rest),
{
    assert((seq![m] + rest).skip(1) =~= rest);
}

/// Literal text is one argument, spaces, backslashes and all.
pub proof fn law_quoted_text_is_one_word(t: Seq<u8>)
    requires
        t.len() > 0,
    ensures
        words(marked(t, true)) == seq![marked(t, true)],
{
    let m = marked(t, true);
    law_first_word(m, Seq::empty());
    assert(m + Seq::<Mark>::empty() =~= m);
    assert(seq![m] + words(Seq::<Mark>::empty()) =~= seq![m]);
}

/// The words with a space between each two.
pub open spec fn spaced(ws: Seq<Seq<u8>>) -> Seq<u8>
    decreases ws.len(),
{
    if ws.len() == 0 {
        Seq::empty()
    } else if ws.len() == 1 {
        ws[0]
    } else {
        ws[0] + seq![SPACE] + spaced(ws.skip(1))
    }
}

/// A word that needs no quotes.
pub open spec fn plain_word(w: Seq<u8>) -> bool {
    &&& w.len() > 0
    &&& forall|k: int| 0 <= k < w.len() ==> !is_space(#[trigger] w[k]) && w[k] != BACKSLASH
}

/// Words joined with spaces are split into those words again.
pub proof fn law_split_undoes_join(ws: Seq<Seq<u8>>)
    requires
        forall|i: int| 0 <= i < ws.len() ==> plain_word(#[trigger] ws[i]),
    ensures
        words(marked(spaced(ws), false)) == unquoted(ws),
    decreases ws.len(),
{
    if ws.len() == 0 {
        assert(marked(spaced(ws), false) =~= Seq::<Mark>::empty());
        assert(words(Seq::<Mark>::empty()) =~= unquoted(ws));
    } else {
        assert(plain_word(ws[0]));
        let t = marked(ws[0], false);
        assert forall|k: int| 0 <= k < t.len() implies word_mark(#[trigger] t[k]) by {
            assert(!is_space(ws[0][k]));
        }
        if ws.len() == 1 {
            law_first_word(t, Seq::empty());
            assert(t + Seq::<Mark>::empty() =~= marked(spaced(ws), false));
            assert(seq![t] + words(Seq::<Mark>::empty()) =~= unquoted(ws));
        } else {
            let ws2 = ws.skip(1);
            assert forall|i: int| 0 <= i < ws2.len() implies plain_word(#[trigger] ws2[i]) by {
                assert(ws2[i] == ws[i + 1]);
            }
            law_split_undoes_join(ws2);
            let gap = Mark { byte: SPACE, quoted: false };
            let rest = seq![gap] + marked(spaced(ws2), false);
            law_first_word(t, rest);
            law_leading_space(gap, marked(spaced(ws2), false));
            assert(t + rest =~= marked(spaced(ws), false));
            assert(seq![t] + unquoted(ws2) =~= unquoted(ws));
        }
    }
}

/// The arguments of a line are its words: the first 32, each cut to 128 bytes.
pub proof fn law_arguments(s: Seq<Mark>)
    ensures
        words(s).len() <= 32 ==> arguments(s).len() == words(s).len(),
        words(s).len() > 32 ==> arguments(s).len() == 32,
        forall|i: int|
            0 <= i < arguments(s).len() ==> {
                &&& words(s)[i].len() <= 128 ==> #[trigger] arguments(s)[i] == words(s)[i]
                &&& words(s)[i].len() > 128 ==> arguments(s)[i] == words(s)[i].take(128)
            },
{
}

proof fn lemma_word_after(a: Seq<Mark>, b: Seq<Mark>)
    requires
        forall|k: int| 0 <= k < a.len() ==> word_mark(#[trigger] a[k]),
    ensures
        word_len(a + b) == a.len() + word_len(b),
        unescaped(a + b) == a + unescaped(b),
    decreases a.len(),
{
    if a.len() == 0 {
        assert(a + b =~= b);
        assert(a + unescaped(b) =~= unescaped(b));
    } else {
        let a2 = a.skip(1);
        assert forall|k: int| 0 <= k < a2.len() implies word_mark(#[trigger] a2[k]) by {
            assert(a2[k] == a[k + 1]);
        }
        lemma_word_after(a2, b);
        assert(word_mark(a[0]));
        assert((a + b).skip(1) =~= a2 + b);
        assert(seq![a[0]] + (a2 + unescaped(b)) =~= a + unescaped(b));
    }
}

/// A backslash that is not literal makes the byte after it a literal part of the
/// word, whatever that byte is and wherever in the word it stands, and is
/// dropped itself; so is one that nothing follows.
pub proof fn law_escape_in_word(a: Seq<Mark>, m: Mark, t: Seq<Mark>, rest: Seq<Mark>)
    requires
        forall|k: int| 0 <= k < a.len() ==> word_mark(#[trigger] a[k]),
        forall|k: int| 0 <= k < t.len() ==> word_mark(#[trigger] t[k]),
        rest.len() > 0 ==> separates(rest[0]),
    ensures
        words(a + (seq![Mark { byte: BACKSLASH, quoted: false }, m] + t + rest)) == seq![
            a + (seq![Mark { byte: m.byte, quoted: true }] + t),
        ] + words(rest),
        a.len() > 0 ==> words(a + seq![Mark { byte: BACKSLASH, quoted: false }]) == seq![a],
{
    let bs = Mark { byte: BACKSLASH, quoted: false };
    let tail = seq![bs, m] + t + rest;
    let s = a + tail;
    let lit = Mark { byte: m.byte, quoted: true };
    lemma_plain_word(t, rest);
    assert(tail.skip(2) =~= t + rest);
    assert(word_len(tail) == 2 + t.len());
    lemma_word_after(a, tail);
    let n = word_len(s) as int;
    let w = s.take(n);
    let esc = seq![bs, m] + t;
    assert(w =~= a + esc);
    lemma_word_after(a, esc);
    assert(esc.skip(2) =~= t);
    assert(marked(seq![m.byte], true) =~= seq![lit]);
    assert(s.skip(n) =~= rest);
    assert(!separates(s[0])) by {
        if a.len() > 0 {
            assert(word_mark(a[0]));
        }
    }
    if a.len() > 0 {
        let e = a + seq![bs];
        lemma_word_after(a, seq![bs]);
        assert(word_mark(a[0]));
        assert(seq![bs].skip(1) =~= Seq::<Mark>::empty());
        assert(word_len(seq![bs]) == 1) by {
            assert(word_len(seq![bs].skip(1)) == 0);
        }
        assert(e.take(e.len() as int) =~= e);
        assert(e.skip(e.len() as int) =~= Seq::<Mark>::empty());
        assert(unescaped(e) =~= a);
        assert(seq![a] + words(Seq::<Mark>::empty()) =~= seq![a]);
    }
}

/// What separates words: whitespace that is not literal, and nothing else.
pub proof fn law_separators(m: Mark)
    ensures
        separates(m) <==> !m.quoted && (m.byte == 0x20 || m.byte == 0x09 || m.byte == 0x0a
            || m.byte == 0x0c || m.byte == 0x0d),
        words(Seq::empty()).len() == 0,
        word_mark(m) <==> !separates(m) && (m.quoted || m.byte != 0x5c),
{
}

} // verus!
