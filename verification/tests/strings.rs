use rsh::builtins::{builtins, is_builtin};
use rsh::bytes::{append, copy, cut_copy, find_byte, is_digit, is_name_byte, is_space, same, trim};
use rsh::dirents::{is_listable, write_listing};
use rsh::io::StdoutWriter;
use rsh::path::{join_path, normalize_path, resolve_path, split_colon};

fn normal(path: &[u8]) -> Vec<u8> {
    let mut out = [0u8; 600];
    let n = normalize_path(path, &mut out);
    out[..n].to_vec()
}

fn resolve(base: &[u8], rel: &[u8]) -> Vec<u8> {
    let mut out = [0u8; 600];
    let n = resolve_path(base, rel, &mut out);
    out[..n].to_vec()
}

fn parts(s: &[u8]) -> Vec<Vec<u8>> {
    let mut split = split_colon(s);
    let mut r = Vec::new();
    while let Some(p) = split.next() {
        r.push(p.to_vec());
    }
    r
}

fn record(name: &[u8], file_type: u8, padding: usize) -> Vec<u8> {
    let len = 19 + name.len() + 1 + padding;
    let mut r = vec![9u8; 16];
    r.push((len % 256) as u8);
    r.push((len / 256) as u8);
    r.push(file_type);
    r.extend_from_slice(name);
    r.push(0);
    r.extend(vec![b'?'; padding]);
    r
}

fn listing_of(buf: &[u8], n: i64) -> Vec<u8> {
    let mut out = StdoutWriter::new();
    assert!(is_listable(buf, n));
    write_listing(buf, n, &mut out);
    out.take_sent()
}

#[test]
fn byte_classes() {
    for b in 0..=255u8 {
        assert_eq!(is_space(b), b.is_ascii_whitespace());
        assert_eq!(is_digit(b), b.is_ascii_digit());
        assert_eq!(is_name_byte(b), b.is_ascii_alphanumeric() || b == b'_');
    }
}

#[test]
fn byte_strings_are_compared_and_copied() {
    assert!(same(b"", b""));
    assert!(same(b"ab", b"ab"));
    assert!(!same(b"ab", b"ac"));
    assert!(!same(b"ab", b"abc"));
    assert_eq!(copy(b"abc"), b"abc");
    assert_eq!(cut_copy(b"abc", 2), b"ab");
    assert_eq!(cut_copy(b"abc", 9), b"abc");
    let mut v = b"ab".to_vec();
    append(&mut v, b"cd");
    assert_eq!(v, b"abcd");
}

#[test]
fn bytes_are_found() {
    assert_eq!(find_byte(b"a=b=c", 0, b'='), 1);
    assert_eq!(find_byte(b"a=b=c", 2, b'='), 3);
    assert_eq!(find_byte(b"abc", 0, b'='), 3);
    assert_eq!(find_byte(b"abc", 3, b'a'), 3);
}

#[test]
fn whitespace_is_trimmed_at_both_ends() {
    assert_eq!(trim(b""), b"");
    assert_eq!(trim(b" \t\r\n\x0c"), b"");
    assert_eq!(trim(b"  a b \n"), b"a b");
    assert_eq!(trim(b"ab"), b"ab");
    assert_eq!(trim(b"\x0bab"), b"\x0bab");
}

#[test]
fn built_in_commands_are_known() {
    let names = builtins();
    assert_eq!(
        names,
        vec![
            "cat", "cd", "clear", "echo", "env", "exec", "exit", "export", "false", "help",
            "history", "ls", "pwd", "source", "true", "type", "uname", "unset"
        ]
    );
    for name in names {
        assert!(is_builtin(name.as_bytes()));
    }
    assert!(!is_builtin(b""));
    assert!(!is_builtin(b"ech"));
    assert!(!is_builtin(b"echoo"));
    assert!(!is_builtin(b"rsh"));
}

#[test]
fn paths_are_normalised() {
    assert_eq!(normal(b""), b"/");
    assert_eq!(normal(b"/"), b"/");
    assert_eq!(normal(b"/a/b"), b"/a/b");
    assert_eq!(normal(b"a/b"), b"/a/b");
    assert_eq!(normal(b"//a///b//"), b"/a/b");
    assert_eq!(normal(b"/a/./b/."), b"/a/b");
    assert_eq!(normal(b"/a/../b"), b"/b");
    assert_eq!(normal(b"/a/b/../.."), b"/");
    assert_eq!(normal(b"/../../a"), b"/a");
    assert_eq!(normal(b"/..."), b"/...");
    assert_eq!(normal(b"/.a/..b"), b"/.a/..b");
}

#[test]
fn normalising_twice_changes_nothing() {
    for p in [&b"/a/../b/./c//d/"[..], b"..", b"x/y/../../../z", b"/"] {
        let once = normal(p);
        assert_eq!(normal(&once), once);
        assert_eq!(once[0], b'/');
    }
}

#[test]
fn long_components_are_cut_and_deep_ones_dropped() {
    let long = vec![b'c'; 70];
    assert_eq!(normal(&long).len(), 65);
    let deep = b"/d".repeat(40);
    assert_eq!(normal(&deep), b"/d".repeat(32));
    let mut back = deep.clone();
    back.extend_from_slice(b"/..");
    assert_eq!(normal(&back), b"/d".repeat(31));
}

#[test]
fn normalised_paths_stop_at_the_end_of_the_buffer() {
    let mut out = [b'x'; 6];
    assert_eq!(normalize_path(b"/ab/cd/ef", &mut out), 6);
    assert_eq!(&out, b"/ab/cd");
    let mut exact = [b'x'; 8];
    assert_eq!(normalize_path(b"/ab/cd", &mut exact), 6);
    assert_eq!(&exact, b"/ab/cdxx");
    let mut none = [0u8; 0];
    assert_eq!(normalize_path(b"/ab", &mut none), 0);
}

#[test]
fn relative_paths_start_from_the_base() {
    assert_eq!(resolve(b"/", b"bin"), b"/bin");
    assert_eq!(resolve(b"/home", b"a/b"), b"/home/a/b");
    assert_eq!(resolve(b"/home", b".."), b"/");
    assert_eq!(resolve(b"/home/u", b"../v"), b"/home/v");
    assert_eq!(resolve(b"/home", b""), b"/home");
    assert_eq!(resolve(b"/home", b"."), b"/home");
    assert_eq!(resolve(b"", b"a"), b"/a");
}

#[test]
fn absolute_paths_ignore_the_base() {
    assert_eq!(resolve(b"/home", b"/bin/../etc"), b"/etc");
    assert_eq!(resolve(b"/other", b"/bin/../etc"), b"/etc");
}

#[test]
fn paths_are_cut_before_they_are_normalised() {
    let base = b"/".to_vec();
    let mut rel = b"a/".repeat(300);
    rel.extend_from_slice(b"../..");
    assert_eq!(resolve(&base, &rel), b"/a".repeat(32));
    let mut absolute = b"/x".to_vec();
    absolute.extend(vec![b'/'; 510]);
    absolute.extend_from_slice(b"y");
    assert_eq!(resolve(&base, &absolute), b"/x");
}

#[test]
fn entering_and_leaving_leads_back() {
    let base = b"/home/user".to_vec();
    let inner = resolve(&base, b"src");
    assert_eq!(inner, b"/home/user/src");
    assert_eq!(resolve(&inner, b".."), base);
}

#[test]
fn directories_and_names_are_joined() {
    let mut out = [0u8; 20];
    let n = join_path(b"/bin", b"ls", &mut out);
    assert_eq!(&out[..n], b"/bin/ls");
    let n = join_path(b"/bin/", b"ls", &mut out);
    assert_eq!(&out[..n], b"/bin/ls");
    let n = join_path(b"", b"ls", &mut out);
    assert_eq!(&out[..n], b"/ls");
    let mut short = [0u8; 6];
    assert_eq!(join_path(b"/bin", b"ls", &mut short), 6);
    assert_eq!(&short, b"/bin/l");
}

#[test]
fn search_paths_are_split_at_colons() {
    assert_eq!(parts(b""), Vec::<Vec<u8>>::new());
    assert_eq!(parts(b"/bin"), vec![b"/bin".to_vec()]);
    assert_eq!(parts(b"/bin:/usr/bin"), vec![b"/bin".to_vec(), b"/usr/bin".to_vec()]);
    assert_eq!(parts(b"::a::b:"), vec![b"a".to_vec(), b"b".to_vec()]);
    assert_eq!(parts(b":::"), Vec::<Vec<u8>>::new());
}

#[test]
fn directory_records_are_listed() {
    let mut buf = record(b"bin", 4, 0);
    buf.extend(record(b"readme.txt", 8, 3));
    buf.extend(record(b"", 8, 0));
    let n = buf.len() as i64;
    assert_eq!(listing_of(&buf, n), b"bin/\nreadme.txt\n\n");
    buf.extend(vec![0u8; 100]);
    assert_eq!(listing_of(&buf, n), b"bin/\nreadme.txt\n\n");
}

#[test]
fn an_empty_directory_lists_nothing() {
    assert_eq!(listing_of(&[0u8; 64], 0), b"");
}

#[test]
fn a_record_of_length_zero_ends_the_listing() {
    let mut buf = record(b"a", 8, 0);
    let mut bad = record(b"b", 8, 0);
    bad[16] = 0;
    bad[17] = 0;
    buf.extend(bad);
    buf.extend(record(b"c", 8, 0));
    let n = buf.len() as i64;
    assert_eq!(listing_of(&buf, n), b"a\n");
}

#[test]
fn a_record_that_is_all_header_is_skipped() {
    let mut buf = vec![0u8; 19];
    buf[16] = 19;
    buf.extend(record(b"next", 8, 0));
    let n = buf.len() as i64;
    assert_eq!(listing_of(&buf, n), b"next\n");
}

#[test]
fn a_name_without_a_nul_fills_its_record() {
    let mut buf = record(b"abcd", 8, 0);
    buf[23] = b'e';
    let n = buf.len() as i64;
    assert_eq!(listing_of(&buf, n), b"abcde\n");
}

#[test]
fn records_outside_the_buffer_are_detected() {
    let buf = record(b"abcd", 8, 0);
    assert!(is_listable(&buf, buf.len() as i64));
    assert!(!is_listable(&buf, 2000));
    assert!(!is_listable(&buf[..22], 22));
    assert!(is_listable(&buf[..10], 19));
    assert!(!is_listable(&buf[..10], 20));
}
