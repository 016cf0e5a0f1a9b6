//! The prompt.
use crate::bytes::{
    emit, emit_slice, filled, lemma_filled_empty, text, BACKSLASH, DOLLAR, ESC, NEWLINE,
};
use crate::vars::{lookup, Binding, Vars};
use vstd::prelude::*;

verus! {

/// Maximum length of the rendered prompt.
pub const MAX_PROMPT: usize = 128;

/// What a backslash and `c` stand for in a prompt string.
pub open spec fn prompt_escape(c: u8, cwd: Seq<u8>) -> Seq<u8> {
    if c == 'w' as u8 {
        cwd
    } else if c == 'e' as u8 {
        seq![ESC]
    } else if c == 'n' as u8 {
        seq![NEWLINE]
    } else if c == DOLLAR {
        seq![DOLLAR]
    } else if c == BACKSLASH {
        seq![BACKSLASH]
    } else {
        seq![BACKSLASH, c]
    }
}

/// The prompt string `ps1` with its escapes replaced.
pub open spec fn prompted(ps1: Seq<u8>, cwd: Seq<u8>) -> Seq<u8>
    decreases ps1.len(),
{
    if ps1.len() == 0 {
        Seq::empty()
    } else if ps1[0] == BACKSLASH && ps1.len() > 1 {
        prompt_escape(ps1[1], cwd) + prompted(ps1.skip(2), cwd)
    } else {
        seq![ps1[0]] + prompted(ps1.skip(1), cwd)
    }
}

/// The prompt that the variable `PS1` asks for, or the default one.
pub open spec fn prompt_of(env: Seq<Binding>, cwd: Seq<u8>) -> Seq<u8> {
    match lookup(env, text("PS1"@)) {
        Some(ps1) => prompted(ps1, cwd),
        None => prompted(text("rsh:\\w$ "@), cwd),
    }
}

/// Render the PS1 prompt into `out`, expanding `\w` (CWD) and `\e` (ESC), as
/// far as there is room.  Returns the number of bytes written.
pub fn format_prompt(vars: &Vars, cwd: &[u8], out: &mut [u8; MAX_PROMPT]) -> (r: usize)
    ensures
        filled(old(out)@, final(out)@, r as int, prompt_of(vars@, cwd@)),
{
    match vars.get("PS1".as_bytes()) {
        Some(ps1) => render_prompt(ps1, cwd, out),
        None => render_prompt("rsh:\\w$ ".as_bytes(), cwd, out),
    }
}

/// Render the prompt string `ps1` into `out`.
fn render_prompt(ps1: &[u8], cwd: &[u8], out: &mut [u8]) -> (r: usize)
    ensures
        filled(old(out)@, final(out)@, r as int, prompted(ps1@, cwd@)),
{
    let mut i: usize = 0;
    let mut j: usize = 0;
    let ghost out0 = out@;
    let ghost mut done = Seq::<u8>::empty();
    proof {
        lemma_filled_empty(out0);
        assert(ps1@.skip(0) =~= ps1@);
        assert(done + prompted(ps1@, cwd@) =~= prompted(ps1@, cwd@));
    }
    while i < ps1.len()
        invariant
            i <= ps1@.len(),
            filled(out0, out@, j as int, done),
            prompted(ps1@, cwd@) == done + prompted(ps1@.skip(i as int), cwd@),
        decreases ps1@.len() - i,
    {
        let ghost rest = ps1@.skip(i as int);
        let ghost done0 = done;
        assert(rest[0] == ps1@[i as int]);
        assert(rest.skip(1) =~= ps1@.skip(i + 1));
        if ps1[i] == BACKSLASH && i + 1 < ps1.len() {
            let c: u8 = ps1[i + 1];
            proof {
                assert(rest[1] == c);
                assert(rest.skip(2) =~= ps1@.skip(i + 2));
                done = done0 + prompt_escape(c, cwd@);
            }
            if c == 'w' as u8 {
                j = emit_slice(out, j, cwd, Ghost(out0), Ghost(done0));
            } else if c == 'e' as u8 {
                j = emit(out, j, ESC, Ghost(out0), Ghost(done0));
                assert(done =~= done0.push(ESC));
            } else if c == 'n' as u8 {
                j = emit(out, j, NEWLINE, Ghost(out0), Ghost(done0));
                assert(done =~= done0.push(NEWLINE));
            } else if c == DOLLAR {
                j = emit(out, j, DOLLAR, Ghost(out0), Ghost(done0));
                assert(done =~= done0.push(DOLLAR));
            } else if c == BACKSLASH {
                j = emit(out, j, BACKSLASH, Ghost(out0), Ghost(done0));
                assert(done =~= done0.push(BACKSLASH));
            } else {
                j = emit(out, j, BACKSLASH, Ghost(out0), Ghost(done0));
                j = emit(out, j, c, Ghost(out0), Ghost(done0.push(BACKSLASH)));
                assert(done =~= done0.push(BACKSLASH).push(c));
            }
            i += 2;
        } else {
            j = emit(out, j, ps1[i], Ghost(out0), Ghost(done0));
            proof {
                done = done0 + seq![ps1@[i as int]];
                assert(done =~= done0.push(ps1@[i as int]));
            }
            i += 1;
        }
        assert(prompted(ps1@, cwd@) =~= done + prompted(ps1@.skip(i as int), cwd@));
    }
    assert(ps1@.skip(i as int) =~= Seq::<u8>::empty());
    assert(prompted(ps1@, cwd@) =~= done);
    j
}

// Laws -------------------------------------------------------------------------

/// A prompt string without backslashes is shown as it is.
pub proof fn law_prompt_plain(ps1: Seq<u8>, cwd: Seq<u8>)
    requires
        !ps1.contains(BACKSLASH),
    ensures
        prompted(ps1, cwd) == ps1,
    decreases ps1.len(),
{
    if ps1.len() > 0 {
        assert(ps1.contains(ps1[0]));
        assert forall|k: int| 0 <= k < ps1.skip(1).len() implies ps1.skip(1)[k] != BACKSLASH by {
            assert(ps1.contains(ps1[k + 1]));
        }
        law_prompt_plain(ps1.skip(1), cwd);
        assert(seq![ps1[0]] + ps1.skip(1) =~= ps1);
    } else {
        assert(prompted(ps1, cwd) =~= ps1);
    }
}

/// In a prompt string, `\w` is the working directory and `\e` the escape
/// character, whatever plain text stands before them.
pub proof fn law_prompt_escapes(before: Seq<u8>, c: u8, after: Seq<u8>, cwd: Seq<u8>)
    requires
        !before.contains(BACKSLASH),
    ensures
        prompted(before + seq![BACKSLASH, c] + after, cwd) == before + prompt_escape(c, cwd)
            + prompted(after, cwd),
    decreases before.len(),
{
    let whole = before + seq![BACKSLASH, c] + after;
    if before.len() == 0 {
        assert(whole.skip(2) =~= after);
        assert(before + prompt_escape(c, cwd) =~= prompt_escape(c, cwd));
    } else {
        let b2 = before.skip(1);
        assert(before.contains(before[0]));
        assert forall|k: int| 0 <= k < b2.len() implies b2[k] != BACKSLASH by {
            assert(before.contains(before[k + 1]));
        }
        law_prompt_escapes(b2, c, after, cwd);
        assert(whole.skip(1) =~= b2 + seq![BACKSLASH, c] + after);
        assert(seq![before[0]] + (b2 + prompt_escape(c, cwd) + prompted(after, cwd)) =~= before
            + prompt_escape(c, cwd) + prompted(after, cwd));
    }
}

/// What each escape of a prompt string stands for, with plain text before it and
/// anything after it: `\w` is the working directory, all of it; `\e` is ESC;
/// `\n` a newline; `\$` a dollar sign; `\\` one backslash; before any other byte
/// the backslash is kept.
pub proof fn law_prompt_escape_values(a: Seq<u8>, c: u8, after: Seq<u8>, cwd: Seq<u8>)
    requires
        !a.contains(BACKSLASH),
    ensures
        ({
            let rest = prompted(after, cwd);
            &&& prompted(a + seq![BACKSLASH, 0x77] + after, cwd) == a + cwd + rest
            &&& prompted(a + seq![BACKSLASH, 0x65] + after, cwd) == a + seq![0x1bu8] + rest
            &&& prompted(a + seq![BACKSLASH, 0x6e] + after, cwd) == a + seq![0x0au8] + rest
            &&& prompted(a + seq![BACKSLASH, 0x24] + after, cwd) == a + seq![0x24u8] + rest
            &&& prompted(a + seq![BACKSLASH, 0x5c] + after, cwd) == a + seq![0x5cu8] + rest
            &&& c != 0x77 && c != 0x65 && c != 0x6e && c != 0x24 && c != 0x5c ==> prompted(
                a + seq![BACKSLASH, c] + after,
                cwd,
            ) == a + seq![0x5cu8, c] + rest
        }),
{
    law_prompt_escapes(a, 0x77, after, cwd);
    law_prompt_escapes(a, 0x65, after, cwd);
    law_prompt_escapes(a, 0x6e, after, cwd);
    law_prompt_escapes(a, 0x24, after, cwd);
    law_prompt_escapes(a, 0x5c, after, cwd);
    law_prompt_escapes(a, c, after, cwd);
}

/// The working directory is shown in full between plain texts, and a backslash
/// at the end of a prompt string stands for itself.
pub proof fn law_prompt_shows_directory(a: Seq<u8>, b: Seq<u8>, cwd: Seq<u8>)
    requires
        !a.contains(BACKSLASH),
        !b.contains(BACKSLASH),
    ensures
        prompted(a + seq![BACKSLASH, 0x77] + b, cwd) == a + cwd + b,
        prompted(a + seq![BACKSLASH], cwd) == a + seq![BACKSLASH],
{
    law_prompt_escape_values(a, 0, b, cwd);
    law_prompt_plain(b, cwd);
    lemma_prompt_end(a, cwd);
}

proof fn lemma_prompt_end(a: Seq<u8>, cwd: Seq<u8>)
    requires
        !a.contains(BACKSLASH),
    ensures
        prompted(a + seq![BACKSLASH], cwd) == a + seq![BACKSLASH],
    decreases a.len(),
{
    let whole = a + seq![BACKSLASH];
    if a.len() > 0 {
        let a2 = a.skip(1);
        assert(a.contains(a[0]));
        assert forall|k: int| 0 <= k < a2.len() implies a2[k] != BACKSLASH by {
            assert(a.contains(a[k + 1]));
        }
        lemma_prompt_end(a2, cwd);
        assert(whole.skip(1) =~= a2 + seq![BACKSLASH]);
        assert(seq![a[0]] + (a2 + seq![BACKSLASH]) =~= whole);
    } else {
        assert(whole.skip(1) =~= Seq::<u8>::empty());
        assert(prompted(whole.skip(1), cwd) =~= Seq::<u8>::empty());
        assert(seq![whole[0]] + Seq::<u8>::empty() =~= whole);
    }
}

/// The prompt is the one that `PS1` asks for; without that variable it is
/// `rsh:`, the working directory, `$` and a space.
pub proof fn law_prompt_of(env: Seq<Binding>, cwd: Seq<u8>)
    ensures
        lookup(env, text("PS1"@)) matches Some(ps1) ==> prompt_of(env, cwd) == prompted(ps1, cwd),
        lookup(env, text("PS1"@)) is None ==> prompt_of(env, cwd) == text("rsh:"@) + cwd + text(
            "$ "@,
        ),
{
    reveal_strlit("rsh:\\w$ ");
    reveal_strlit("rsh:");
    reveal_strlit("$ ");
    vstd::utf8::is_ascii_chars_encode_utf8("rsh:\\w$ "@);
    vstd::utf8::is_ascii_chars_encode_utf8("rsh:"@);
    vstd::utf8::is_ascii_chars_encode_utf8("$ "@);
    let a = text("rsh:"@);
    let b = text("$ "@);
    assert(text("rsh:\\w$ "@) =~= a + seq![BACKSLASH, 0x77] + b);
    law_prompt_shows_directory(a, b, cwd);
}

} // verus!
