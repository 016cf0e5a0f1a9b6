//! The names of the built-in commands.
use crate::bytes::{same, text};
use vstd::prelude::*;

verus! {

/// The names of the built-in commands.
pub open spec fn builtin_names() -> Seq<Seq<u8>> {
    seq![
        text("cat"@),
        text("cd"@),
        text("clear"@),
        text("echo"@),
        text("env"@),
        text("exec"@),
        text("exit"@),
        text("export"@),
        text("false"@),
        text("help"@),
        text("history"@),
        text("ls"@),
        text("pwd"@),
        text("source"@),
        text("true"@),
        text("type"@),
        text("uname"@),
        text("unset"@),
    ]
}

/// The names of the built-in commands, in the order of [`builtin_names`].
pub fn builtins() -> (r: Vec<&'static str>)
    ensures
        r@.len() == builtin_names().len(),
        forall|i: int| 0 <= i < r@.len() ==> text(#[trigger] r@[i]@) == builtin_names()[i],
{
    vec![
        "cat", "cd", "clear", "echo", "env", "exec", "exit", "export", "false", "help", "history",
        "ls", "pwd", "source", "true", "type", "uname", "unset",
    ]
}

/// Whether `cmd` is the name of a built-in command.
pub fn is_builtin(cmd: &[u8]) -> (r: bool)
    ensures
        r == builtin_names().contains(cmd@),
{
    let names: Vec<&'static str> = builtins();
    let mut i: usize = 0;
    while i < names.len()
        invariant
            i <= names@.len(),
            names@.len() == builtin_names().len(),
            forall|k: int| 0 <= k < names@.len() ==> text(#[trigger] names@[k]@) == builtin_names()[k],
            forall|k: int| 0 <= k < i ==> builtin_names()[k] != cmd@,
        decreases names@.len() - i,
    {
        if same(names[i].as_bytes(), cmd) {
            assert(builtin_names()[i as int] == cmd@);
            return true;
        }
        i += 1;
    }
    false
}

/// How the names of the built-in commands are spelled.
pub proof fn lemma_spelled()
    ensures
        text("cat"@) == seq!['c' as u8, 'a' as u8, 't' as u8],
        text("cd"@) == seq!['c' as u8, 'd' as u8],
        text("clear"@) == seq!['c' as u8, 'l' as u8, 'e' as u8, 'a' as u8, 'r' as u8],
        text("echo"@) == seq!['e' as u8, 'c' as u8, 'h' as u8, 'o' as u8],
        text("env"@) == seq!['e' as u8, 'n' as u8, 'v' as u8],
        text("exec"@) == seq!['e' as u8, 'x' as u8, 'e' as u8, 'c' as u8],
        text("exit"@) == seq!['e' as u8, 'x' as u8, 'i' as u8, 't' as u8],
        text("export"@) == seq!['e' as u8, 'x' as u8, 'p' as u8, 'o' as u8, 'r' as u8, 't' as u8],
        text("false"@) == seq!['f' as u8, 'a' as u8, 'l' as u8, 's' as u8, 'e' as u8],
        text("help"@) == seq!['h' as u8, 'e' as u8, 'l' as u8, 'p' as u8],
        text("history"@) == seq![
            'h' as u8,
            'i' as u8,
            's' as u8,
            't' as u8,
            'o' as u8,
            'r' as u8,
            'y' as u8,
        ],
        text("ls"@) == seq!['l' as u8, 's' as u8],
        text("pwd"@) == seq!['p' as u8, 'w' as u8, 'd' as u8],
        text("source"@) == seq!['s' as u8, 'o' as u8, 'u' as u8, 'r' as u8, 'c' as u8, 'e' as u8],
        text("true"@) == seq!['t' as u8, 'r' as u8, 'u' as u8, 'e' as u8],
        text("type"@) == seq!['t' as u8, 'y' as u8, 'p' as u8, 'e' as u8],
        text("uname"@) == seq!['u' as u8, 'n' as u8, 'a' as u8, 'm' as u8, 'e' as u8],
        text("unset"@) == seq!['u' as u8, 'n' as u8, 's' as u8, 'e' as u8, 't' as u8],
{
    lemma_spelled_cat();
    lemma_spelled_cd();
    lemma_spelled_clear();
    lemma_spelled_echo();
    lemma_spelled_env();
    lemma_spelled_exec();
    lemma_spelled_exit();
    lemma_spelled_export();
    lemma_spelled_false();
    lemma_spelled_help();
    lemma_spelled_history();
    lemma_spelled_ls();
    lemma_spelled_pwd();
    lemma_spelled_source();
    lemma_spelled_true();
    lemma_spelled_type();
    lemma_spelled_uname();
    lemma_spelled_unset();
}

proof fn lemma_spelled_cat()
    ensures
        text("cat"@) == seq!['c' as u8, 'a' as u8, 't' as u8],
{
    reveal_strlit("cat");
    vstd::utf8::is_ascii_chars_encode_utf8("cat"@);
    assert(text("cat"@) =~= seq!['c' as u8, 'a' as u8, 't' as u8]);
}

proof fn lemma_spelled_cd()
    ensures
        text("cd"@) == seq!['c' as u8, 'd' as u8],
{
    reveal_strlit("cd");
    vstd::utf8::is_ascii_chars_encode_utf8("cd"@);
    assert(text("cd"@) =~= seq!['c' as u8, 'd' as u8]);
}

proof fn lemma_spelled_clear()
    ensures
        text("clear"@) == seq!['c' as u8, 'l' as u8, 'e' as u8, 'a' as u8, 'r' as u8],
{
    reveal_strlit("clear");
    vstd::utf8::is_ascii_chars_encode_utf8("clear"@);
    assert(text("clear"@) =~= seq!['c' as u8, 'l' as u8, 'e' as u8, 'a' as u8, 'r' as u8]);
}

proof fn lemma_spelled_echo()
    ensures
        text("echo"@) == seq!['e' as u8, 'c' as u8, 'h' as u8, 'o' as u8],
{
    reveal_strlit("echo");
    vstd::utf8::is_ascii_chars_encode_utf8("echo"@);
    assert(text("echo"@) =~= seq!['e' as u8, 'c' as u8, 'h' as u8, 'o' as u8]);
}

proof fn lemma_spelled_env()
    ensures
        text("env"@) == seq!['e' as u8, 'n' as u8, 'v' as u8],
{
    reveal_strlit("env");
    vstd::utf8::is_ascii_chars_encode_utf8("env"@);
    assert(text("env"@) =~= seq!['e' as u8, 'n' as u8, 'v' as u8]);
}

proof fn lemma_spelled_exec()
    ensures
        text("exec"@) == seq!['e' as u8, 'x' as u8, 'e' as u8, 'c' as u8],
{
    reveal_strlit("exec");
    vstd::utf8::is_ascii_chars_encode_utf8("exec"@);
    assert(text("exec"@) =~= seq!['e' as u8, 'x' as u8, 'e' as u8, 'c' as u8]);
}

proof fn lemma_spelled_exit()
    ensures
        text("exit"@) == seq!['e' as u8, 'x' as u8, 'i' as u8, 't' as u8],
{
    reveal_strlit("exit");
    vstd::utf8::is_ascii_chars_encode_utf8("exit"@);
    assert(text("exit"@) =~= seq!['e' as u8, 'x' as u8, 'i' as u8, 't' as u8]);
}

proof fn lemma_spelled_export()
    ensures
        text("export"@) == seq!['e' as u8, 'x' as u8, 'p' as u8, 'o' as u8, 'r' as u8, 't' as u8],
{
    reveal_strlit("export");
    vstd::utf8::is_ascii_chars_encode_utf8("export"@);
    assert(text("export"@) =~= seq![
        'e' as u8,
        'x' as u8,
        'p' as u8,
        'o' as u8,
        'r' as u8,
        't' as u8,
    ]);
}

proof fn lemma_spelled_false()
    ensures
        text("false"@) == seq!['f' as u8, 'a' as u8, 'l' as u8, 's' as u8, 'e' as u8],
{
    reveal_strlit("false");
    vstd::utf8::is_ascii_chars_encode_utf8("false"@);
    assert(text("false"@) =~= seq!['f' as u8, 'a' as u8, 'l' as u8, 's' as u8, 'e' as u8]);
}

proof fn lemma_spelled_help()
    ensures
        text("help"@) == seq!['h' as u8, 'e' as u8, 'l' as u8, 'p' as u8],
{
    reveal_strlit("help");
    vstd::utf8::is_ascii_chars_encode_utf8("help"@);
    assert(text("help"@) =~= seq!['h' as u8, 'e' as u8, 'l' as u8, 'p' as u8]);
}

proof fn lemma_spelled_history()
    ensures
        text("history"@) == seq![
            'h' as u8,
            'i' as u8,
            's' as u8,
            't' as u8,
            'o' as u8,
            'r' as u8,
            'y' as u8,
        ],
{
    reveal_strlit("history");
    vstd::utf8::is_ascii_chars_encode_utf8("history"@);
    assert(text("history"@) =~= seq![
        'h' as u8,
        'i' as u8,
        's' as u8,
        't' as u8,
        'o' as u8,
        'r' as u8,
        'y' as u8,
    ]);
}

proof fn lemma_spelled_ls()
    ensures
        text("ls"@) == seq!['l' as u8, 's' as u8],
{
    reveal_strlit("ls");
    vstd::utf8::is_ascii_chars_encode_utf8("ls"@);
    assert(text("ls"@) =~= seq!['l' as u8, 's' as u8]);
}

proof fn lemma_spelled_pwd()
    ensures
        text("pwd"@) == seq!['p' as u8, 'w' as u8, 'd' as u8],
{
    reveal_strlit("pwd");
    vstd::utf8::is_ascii_chars_encode_utf8("pwd"@);
    assert(text("pwd"@) =~= seq!['p' as u8, 'w' as u8, 'd' as u8]);
}

proof fn lemma_spelled_source()
    ensures
        text("source"@) == seq!['s' as u8, 'o' as u8, 'u' as u8, 'r' as u8, 'c' as u8, 'e' as u8],
{
    reveal_strlit("source");
    vstd::utf8::is_ascii_chars_encode_utf8("source"@);
    assert(text("source"@) =~= seq![
        's' as u8,
        'o' as u8,
        'u' as u8,
        'r' as u8,
        'c' as u8,
        'e' as u8,
    ]);
}

proof fn lemma_spelled_true()
    ensures
        text("true"@) == seq!['t' as u8, 'r' as u8, 'u' as u8, 'e' as u8],
{
    reveal_strlit("true");
    vstd::utf8::is_ascii_chars_encode_utf8("true"@);
    assert(text("true"@) =~= seq!['t' as u8, 'r' as u8, 'u' as u8, 'e' as u8]);
}

proof fn lemma_spelled_type()
    ensures
        text("type"@) == seq!['t' as u8, 'y' as u8, 'p' as u8, 'e' as u8],
{
    reveal_strlit("type");
    vstd::utf8::is_ascii_chars_encode_utf8("type"@);
    assert(text("type"@) =~= seq!['t' as u8, 'y' as u8, 'p' as u8, 'e' as u8]);
}

proof fn lemma_spelled_uname()
    ensures
        text("uname"@) == seq!['u' as u8, 'n' as u8, 'a' as u8, 'm' as u8, 'e' as u8],
{
    reveal_strlit("uname");
    vstd::utf8::is_ascii_chars_encode_utf8("uname"@);
    assert(text("uname"@) =~= seq!['u' as u8, 'n' as u8, 'a' as u8, 'm' as u8, 'e' as u8]);
}

proof fn lemma_spelled_unset()
    ensures
        text("unset"@) == seq!['u' as u8, 'n' as u8, 's' as u8, 'e' as u8, 't' as u8],
{
    reveal_strlit("unset");
    vstd::utf8::is_ascii_chars_encode_utf8("unset"@);
    assert(text("unset"@) =~= seq!['u' as u8, 'n' as u8, 's' as u8, 'e' as u8, 't' as u8]);
}

/// The lengths and first bytes of the names of the built-in commands, by which
/// each two of them differ.
pub proof fn lemma_initials()
    ensures
        text("cat"@).len() == 3,
        text("cat"@)[0] == 'c' as u8,
        text("cat"@)[1] == 'a' as u8,
        text("cat"@)[2] == 't' as u8,
        text("cd"@).len() == 2,
        text("cd"@)[0] == 'c' as u8,
        text("cd"@)[1] == 'd' as u8,
        text("clear"@).len() == 5,
        text("clear"@)[0] == 'c' as u8,
        text("clear"@)[1] == 'l' as u8,
        text("clear"@)[2] == 'e' as u8,
        text("echo"@).len() == 4,
        text("echo"@)[0] == 'e' as u8,
        text("echo"@)[1] == 'c' as u8,
        text("echo"@)[2] == 'h' as u8,
        text("env"@).len() == 3,
        text("env"@)[0] == 'e' as u8,
        text("env"@)[1] == 'n' as u8,
        text("env"@)[2] == 'v' as u8,
        text("exec"@).len() == 4,
        text("exec"@)[0] == 'e' as u8,
        text("exec"@)[1] == 'x' as u8,
        text("exec"@)[2] == 'e' as u8,
        text("exit"@).len() == 4,
        text("exit"@)[0] == 'e' as u8,
        text("exit"@)[1] == 'x' as u8,
        text("exit"@)[2] == 'i' as u8,
        text("export"@).len() == 6,
        text("export"@)[0] == 'e' as u8,
        text("export"@)[1] == 'x' as u8,
        text("export"@)[2] == 'p' as u8,
        text("false"@).len() == 5,
        text("false"@)[0] == 'f' as u8,
        text("false"@)[1] == 'a' as u8,
        text("false"@)[2] == 'l' as u8,
        text("help"@).len() == 4,
        text("help"@)[0] == 'h' as u8,
        text("help"@)[1] == 'e' as u8,
        text("help"@)[2] == 'l' as u8,
        text("history"@).len() == 7,
        text("history"@)[0] == 'h' as u8,
        text("history"@)[1] == 'i' as u8,
        text("history"@)[2] == 's' as u8,
        text("ls"@).len() == 2,
        text("ls"@)[0] == 'l' as u8,
        text("ls"@)[1] == 's' as u8,
        text("pwd"@).len() == 3,
        text("pwd"@)[0] == 'p' as u8,
        text("pwd"@)[1] == 'w' as u8,
        text("pwd"@)[2] == 'd' as u8,
        text("source"@).len() == 6,
        text("source"@)[0] == 's' as u8,
        text("source"@)[1] == 'o' as u8,
        text("source"@)[2] == 'u' as u8,
        text("true"@).len() == 4,
        text("true"@)[0] == 't' as u8,
        text("true"@)[1] == 'r' as u8,
        text("true"@)[2] == 'u' as u8,
        text("type"@).len() == 4,
        text("type"@)[0] == 't' as u8,
        text("type"@)[1] == 'y' as u8,
        text("type"@)[2] == 'p' as u8,
        text("uname"@).len() == 5,
        text("uname"@)[0] == 'u' as u8,
        text("uname"@)[1] == 'n' as u8,
        text("uname"@)[2] == 'a' as u8,
        text("unset"@).len() == 5,
        text("unset"@)[0] == 'u' as u8,
        text("unset"@)[1] == 'n' as u8,
        text("unset"@)[2] == 's' as u8,
{
    lemma_spelled();
}

/// No name of a built-in command is longer than seven bytes.
pub proof fn lemma_short_names()
    ensures
        builtin_names().len() == 18,
        forall|i: int| 0 <= i < 18 ==> (#[trigger] builtin_names()[i]).len() <= 7,
{
    lemma_initials();
}

} // verus!
