use rsh::expand::{expand_line, expand_value, expand_vars, mark, unmark, Mark};
use rsh::prompt::{format_prompt, MAX_PROMPT};
use rsh::vars::{Vars, MAX_VARS};
use rsh::words::{
    escapes, mark_words, separates, split_words, tokenize, unmark_words, MAX_ARG, MAX_ARGS,
};

fn sample() -> Vars {
    let mut v = Vars::new();
    v.set(b"HOME", b"/home/u");
    v.set(b"X", b"a b");
    v.set(b"X1_y", b"long");
    v
}

fn expand(input: &[u8]) -> Vec<u8> {
    let mut out = [0u8; 200];
    let n = expand_vars(&sample(), -7, input, &mut out);
    out[..n].to_vec()
}

fn split(input: &[u8]) -> Vec<Vec<u8>> {
    tokenize(&expand_line(&sample(), -7, input, 512))
}

fn strings(ws: &[&[u8]]) -> Vec<Vec<u8>> {
    ws.iter().map(|w| w.to_vec()).collect()
}

fn prompt(ps1: Option<&[u8]>, cwd: &[u8]) -> Vec<u8> {
    let mut v = Vars::new();
    if let Some(p) = ps1 {
        v.set(b"PS1", p);
    }
    let mut out = [0u8; MAX_PROMPT];
    let n = format_prompt(&v, cwd, &mut out);
    out[..n].to_vec()
}

#[test]
fn variables_are_set_and_removed() {
    let mut v = Vars::new();
    assert_eq!(v.get(b"A"), None);
    v.set(b"A", b"1");
    v.set(b"B", b"2");
    v.set(b"A", b"3");
    assert_eq!(v.get(b"A"), Some(&b"3"[..]));
    assert_eq!(v.get(b"B"), Some(&b"2"[..]));
    assert_eq!(v.len(), 2);
    assert_eq!(v.name_at(0), b"A");
    assert_eq!(v.value_at(1), b"2");
    v.unset(b"A");
    v.unset(b"C");
    assert_eq!(v.get(b"A"), None);
    assert_eq!(v.get(b"B"), Some(&b"2"[..]));
    assert_eq!(v.len(), 1);
}

#[test]
fn a_full_table_drops_new_variables() {
    let mut v = Vars::new();
    for i in 0..MAX_VARS {
        v.set(format!("V{}", i).as_bytes(), b"x");
    }
    v.set(b"NEW", b"y");
    assert_eq!(v.len(), 16);
    assert_eq!(v.get(b"NEW"), None);
    v.set(b"V3", b"z");
    assert_eq!(v.get(b"V3"), Some(&b"z"[..]));
    v.unset(b"V0");
    v.set(b"NEW", b"y");
    assert_eq!(v.get(b"NEW"), Some(&b"y"[..]));
}

#[test]
fn long_names_and_values_are_cut() {
    let mut v = Vars::new();
    let name = vec![b'n'; 40];
    v.set(&name, &vec![b'v'; 200]);
    assert_eq!(v.get(&name), None);
    assert_eq!(v.get(&name[..32]), Some(&vec![b'v'; 128][..]));
    v.set(&name, b"again");
    assert_eq!(v.len(), 2);
    v.unset(&name[..32]);
    assert_eq!(v.get(&name[..32]), Some(&b"again"[..]));
}

#[test]
fn plain_text_is_kept() {
    assert_eq!(expand(b"echo a  b"), b"echo a  b");
    assert_eq!(expand(b""), b"");
}

#[test]
fn variables_are_expanded() {
    assert_eq!(expand(b"$HOME/bin"), b"/home/u/bin");
    assert_eq!(expand(b"${HOME}x"), b"/home/ux");
    assert_eq!(expand(b"$X1_y-$X1"), b"long-");
    assert_eq!(expand(b"$NONE${NONE}."), b".");
    assert_eq!(expand(b"${HOME"), b"/home/u");
    assert_eq!(expand(b"${}x"), b"x");
}

#[test]
fn special_variables_are_expanded() {
    assert_eq!(expand(b"$?"), b"-7");
    assert_eq!(expand(b"$$"), b"rsh");
    assert_eq!(expand(b"$0"), b"/bin/rsh");
    assert_eq!(expand(b"$0a"), b"/bin/rsha");
    assert_eq!(expand(b"$1"), b"");
}

#[test]
fn a_bare_dollar_stands_for_itself() {
    assert_eq!(expand(b"$"), b"$");
    assert_eq!(expand(b"a $ b"), b"a $ b");
    assert_eq!(expand(b"$-"), b"$-");
    assert_eq!(expand(b"$\"X\""), b"$X");
}

#[test]
fn single_quotes_keep_everything() {
    assert_eq!(expand(b"'$HOME \\n \"x\"'"), b"$HOME \\n \"x\"");
    assert_eq!(expand(b"a'b"), b"ab");
}

#[test]
fn double_quotes_expand_variables() {
    assert_eq!(expand(b"\"$HOME 'x'\""), b"/home/u 'x'");
    assert_eq!(expand(b"\"a\\\"b\\$c\""), b"a\"b$c");
    assert_eq!(expand(b"\"open"), b"open");
    assert_eq!(expand(b"\"end\\"), b"end\\");
}

#[test]
fn backslashes_escape_the_next_byte() {
    assert_eq!(expand(b"\\$HOME \\' \\\\"), b"$HOME ' \\");
    assert_eq!(expand(b"end\\"), b"end");
}

#[test]
fn expansion_stops_at_the_end_of_the_buffer() {
    let mut out = [b'.'; 4];
    assert_eq!(expand_vars(&sample(), 0, b"$HOME", &mut out), 4);
    assert_eq!(&out, b"/hom");
    let mut wide = [b'.'; 9];
    assert_eq!(expand_vars(&sample(), 0, b"$HOME", &mut wide), 7);
    assert_eq!(&wide, b"/home/u..");
    assert_eq!(expand_line(&sample(), 0, b"abcdef", 3).len(), 3);
}

#[test]
fn literal_bytes_are_marked() {
    let marks = expand_line(&sample(), 0, b"a\"b$X\"'c'\\ d$X", 100);
    let bytes: Vec<u8> = marks.iter().map(|m| m.byte).collect();
    let quoted: Vec<bool> = marks.iter().map(|m| m.quoted).collect();
    assert_eq!(bytes, b"aba bc da b");
    assert_eq!(
        quoted,
        vec![false, true, true, true, true, true, true, false, false, false, false]
    );
}

#[test]
fn only_unquoted_backslashes_escape() {
    assert!(escapes(Mark { byte: b'\\', quoted: false }));
    assert!(!escapes(Mark { byte: b'\\', quoted: true }));
    assert!(!escapes(Mark { byte: b'n', quoted: false }));
}

#[test]
fn values_have_only_dollars_replaced() {
    let value = |v: &[u8]| expand_value(&sample(), 3, &mark(v, false), 100);
    assert_eq!(value(b"$HOME:${X1_y}:$?"), b"/home/u:long:3");
    assert_eq!(value(b"a\\b'c\"d"), b"a\\b'c\"d");
    assert_eq!(value(b"\\$X '$X' $"), b"\\a b 'a b' $");
    assert_eq!(value(b""), b"");
    assert_eq!(expand_value(&sample(), 0, &mark(b"$HOME", false), 4), b"/hom");
}

#[test]
fn literal_dollars_are_not_replaced() {
    let mut value = mark(b"$HOME", true);
    assert_eq!(expand_value(&sample(), 0, &value, 100), b"$HOME");
    value.extend(mark(b" $HOME", false));
    assert_eq!(expand_value(&sample(), 0, &value, 100), b"$HOME /home/u");
    assert_eq!(unmark(&value), b"$HOME $HOME");
}

#[test]
fn only_unquoted_whitespace_separates() {
    assert!(separates(Mark { byte: b' ', quoted: false }));
    assert!(!separates(Mark { byte: b' ', quoted: true }));
    assert!(!separates(Mark { byte: b'a', quoted: false }));
}

#[test]
fn lines_are_split_at_whitespace() {
    assert_eq!(split(b"  echo \t a  b \n"), strings(&[b"echo", b"a", b"b"]));
    assert_eq!(split(b""), strings(&[]));
    assert_eq!(split(b" \t "), strings(&[]));
}

#[test]
fn joined_words_are_split_again() {
    let ws = strings(&[b"cp", b"-r", b"x.txt", b"/tmp"]);
    assert_eq!(split(&ws.join(&b' ')), ws);
}

#[test]
fn double_quoted_spaces_do_not_split() {
    assert_eq!(split(b"echo \"a  b\" c"), strings(&[b"echo", b"a  b", b"c"]));
    assert_eq!(split(b"echo \"$X\""), strings(&[b"echo", b"a b"]));
    assert_eq!(split(b"x\"y z\"w"), strings(&[b"xy zw"]));
}

#[test]
fn single_quoted_text_is_literal() {
    assert_eq!(split(b"echo 'a  b' c"), strings(&[b"echo", b"a  b", b"c"]));
    assert_eq!(split(b"x'y z'w"), strings(&[b"xy zw"]));
    assert_eq!(split(b"'a\\ $X \"b\"'"), strings(&[b"a\\ $X \"b\""]));
    assert_eq!(split(b"'a\\'"), strings(&[b"a\\"]));
}

#[test]
fn escaped_bytes_are_literal() {
    assert_eq!(split(b"echo a\\ b"), strings(&[b"echo", b"a b"]));
    assert_eq!(split(b"a\\\\bc"), strings(&[b"a\\bc"]));
    assert_eq!(split(b"\"a\\\\ b\""), strings(&[b"a\\ b"]));
    assert_eq!(split(b"\\$X \\'"), strings(&[b"$X", b"'"]));
}

#[test]
fn unquoted_values_are_split() {
    assert_eq!(split(b"echo $X"), strings(&[b"echo", b"a", b"b"]));
}

#[test]
fn escapes_that_survive_expansion_are_processed() {
    let mut v = Vars::new();
    v.set(b"E", b"a\\ b\\\\c d\\");
    let words = |line: &[u8]| tokenize(&expand_line(&v, 0, line, 512));
    assert_eq!(words(b"$E"), strings(&[b"a b\\c", b"d"]));
    assert_eq!(words(b"\"$E\""), strings(&[b"a\\ b\\\\c d\\"]));
}

#[test]
fn empty_quotes_are_no_argument() {
    assert_eq!(split(b"echo \"\" '' x"), strings(&[b"echo", b"x"]));
}

#[test]
fn arguments_are_limited_in_number_and_length() {
    let many = b"a ".repeat(40);
    assert_eq!(split(&many).len(), MAX_ARGS);
    let long = vec![b'x'; 200];
    assert_eq!(split(&long), vec![vec![b'x'; MAX_ARG]]);
}

#[test]
fn the_prompt_shows_the_directory() {
    assert_eq!(prompt(Some(b"rsh:\\w$ "), b"/home"), b"rsh:/home$ ");
    assert_eq!(prompt(None, b"/bin"), b"rsh:/bin$ ");
    assert_eq!(prompt(Some(b""), b"/"), b"");
}

#[test]
fn the_prompt_expands_escapes() {
    assert_eq!(prompt(Some(b"\\e[1m\\n\\$\\\\\\q\\"), b"/"), b"\x1b[1m\n$\\\\q\\");
}

#[test]
fn the_prompt_is_cut() {
    let cwd = vec![b'd'; 256];
    assert_eq!(prompt(Some(b"ab\\w"), &cwd), [&b"ab"[..], &vec![b'd'; 126][..]].concat());
    assert_eq!(prompt(Some(&vec![b'p'; 128]), &cwd), vec![b'p'; 128]);
}

#[test]
fn setting_and_removing_a_variable_changes_nothing() {
    let mut v = sample();
    v.set(b"NEW", b"value");
    v.unset(b"NEW");
    assert_eq!(v.len(), 3);
    assert_eq!(v.get(b"NEW"), None);
    assert_eq!(v.get(b"HOME"), Some(&b"/home/u"[..]));
    assert_eq!(v.name_at(2), b"X1_y");
}

#[test]
fn arguments_keep_their_marks() {
    let words = split_words(&expand_line(&sample(), 0, b"a'b c' \\$d", 100));
    assert_eq!(unmark_words(&words), strings(&[b"ab c", b"$d"]));
    let quoted: Vec<bool> = words.concat().iter().map(|m| m.quoted).collect();
    assert_eq!(quoted, vec![false, true, true, true, true, false]);
    let plain = mark_words(&strings(&[b"x", b"$y"]));
    assert!(plain.concat().iter().all(|m| !m.quoted));
    assert_eq!(unmark_words(&plain), strings(&[b"x", b"$y"]));
}
