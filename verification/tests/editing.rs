use rsh::editor::LineEditor;
use rsh::history::{History, HIST_CAP, HIST_ENTRY, MAX_LINE};
use rsh::io::StdoutWriter;

const PROMPT: &[u8] = b"> ";

struct Typist {
    editor: LineEditor,
    out: StdoutWriter,
}

impl Typist {
    fn new() -> Self {
        Typist { editor: LineEditor::new(), out: StdoutWriter::new() }
    }

    /// Start a line; the result is what appears on the terminal.
    fn start(&mut self) -> Vec<u8> {
        self.editor.read_line_start(PROMPT, &mut self.out);
        self.out.take_sent()
    }

    /// Press keys; the result is what appears on the terminal and whether the
    /// line is complete.
    fn press(&mut self, keys: &[u8]) -> (Vec<u8>, bool) {
        let mut done = false;
        for &k in keys {
            assert!(!done);
            done = self.editor.read_line_key(k, PROMPT, &mut self.out);
        }
        (self.out.take_sent(), done)
    }

    /// Enter a whole line.
    fn enter(&mut self, line: &[u8]) {
        self.start();
        self.press(line);
        assert!(self.press(b"\n").1);
        let line = self.editor.line().to_vec();
        self.editor.remember(&line);
    }
}

fn entries(h: &History) -> Vec<Vec<u8>> {
    (1..=h.len()).rev().map(|p| h.get(p).unwrap().to_vec()).collect()
}

#[test]
fn a_line_starts_with_the_prompt() {
    let mut t = Typist::new();
    assert_eq!(t.start(), b"> ");
    assert_eq!(t.editor.line(), b"");
}

#[test]
fn typed_characters_are_echoed_and_come_back() {
    let mut t = Typist::new();
    t.start();
    assert_eq!(t.press(b"echo hi"), (b"echo hi".to_vec(), false));
    assert_eq!(t.editor.line(), b"echo hi");
    assert_eq!(t.press(b"\r"), (b"\n".to_vec(), true));
    assert_eq!(t.editor.line(), b"echo hi");
    t.start();
    assert_eq!(t.editor.line(), b"");
}

#[test]
fn bytes_that_are_not_printable_are_ignored() {
    let mut t = Typist::new();
    t.start();
    assert_eq!(t.press(&[b'a', 0x00, 0x01, 0x80, 0xff, b'b']), (b"ab".to_vec(), false));
    assert_eq!(t.editor.line(), b"ab");
}

#[test]
fn a_full_line_takes_no_more() {
    let mut t = Typist::new();
    t.start();
    let typed = vec![b'a'; 300];
    let (shown, done) = t.press(&typed);
    assert_eq!(shown, vec![b'a'; 255]);
    assert!(!done);
    assert_eq!(t.editor.line().len(), MAX_LINE - 1);
}

#[test]
fn backspace_erases_the_last_character() {
    let mut t = Typist::new();
    t.start();
    assert_eq!(t.press(b"ab\x08"), (b"ab\x08 \x08".to_vec(), false));
    assert_eq!(t.editor.line(), b"a");
    assert_eq!(t.press(b"\x7f"), (b"\x08 \x08".to_vec(), false));
    assert_eq!(t.press(b"\x08"), (b"".to_vec(), false));
    assert_eq!(t.editor.line(), b"");
}

#[test]
fn ctrl_u_erases_the_line() {
    let mut t = Typist::new();
    t.start();
    assert_eq!(t.press(b"abc\x15"), (b"abc\x08 \x08\x08 \x08\x08 \x08".to_vec(), false));
    assert_eq!(t.editor.line(), b"");
}

#[test]
fn ctrl_c_cancels_the_line() {
    let mut t = Typist::new();
    t.start();
    assert_eq!(t.press(b"abc\x03"), (b"abc^C\n".to_vec(), true));
    assert_eq!(t.editor.line(), b"");
}

#[test]
fn ctrl_d_exits_on_an_empty_line_only() {
    let mut t = Typist::new();
    t.start();
    assert_eq!(t.press(b"a\x04"), (b"a".to_vec(), false));
    assert_eq!(t.press(b"\x08\x04"), (b"\x08 \x08exit\n".to_vec(), true));
    assert_eq!(t.editor.line(), b"exit");
}

#[test]
fn unknown_escape_sequences_are_ignored() {
    let mut t = Typist::new();
    t.start();
    assert_eq!(t.press(b"a\x1b[C\x1b[D\x1b[3~\x1b[Z\x1bOb"), (b"ab".to_vec(), false));
    assert_eq!(t.editor.line(), b"ab");
}

#[test]
fn tab_completes_a_single_match() {
    let mut t = Typist::new();
    t.start();
    assert_eq!(t.press(b"una\x09"), (b"una\x08 \x08\x08 \x08\x08 \x08uname ".to_vec(), false));
    assert_eq!(t.editor.line(), b"uname ");
}

#[test]
fn tab_lists_several_matches() {
    let mut t = Typist::new();
    t.start();
    t.press(b"ex");
    assert_eq!(t.press(b"\x09"), (b"\nexec  exit  export  \n> ex".to_vec(), false));
    assert_eq!(t.editor.line(), b"ex");
}

#[test]
fn tab_without_a_match_does_nothing() {
    let mut t = Typist::new();
    t.start();
    t.press(b"zz");
    assert_eq!(t.press(b"\x09"), (b"".to_vec(), false));
    assert_eq!(t.editor.line(), b"zz");
}

#[test]
fn tab_on_an_empty_line_lists_all_commands() {
    let mut t = Typist::new();
    t.start();
    assert_eq!(
        t.press(b"\x09").0,
        b"\ncat  cd  clear  echo  env  exec  exit  export  false  help  history  ls  pwd  \
          source  true  type  uname  unset  \n> "
            .to_vec()
    );
}

#[test]
fn arrows_walk_the_history() {
    let mut t = Typist::new();
    t.enter(b"one");
    t.enter(b"two");
    t.start();
    t.press(b"live");
    let erase4 = b"\x08 \x08".repeat(4);
    let erase3 = b"\x08 \x08".repeat(3);
    assert_eq!(t.press(b"\x1b[A").0, [&erase4[..], b"two"].concat());
    assert_eq!(t.press(b"\x1b[A").0, [&erase3[..], b"one"].concat());
    assert_eq!(t.press(b"\x1b[A").0, b"");
    assert_eq!(t.editor.line(), b"one");
    assert_eq!(t.press(b"\x1b[B").0, [&erase3[..], b"two"].concat());
    assert_eq!(t.press(b"\x1b[B").0, [&erase3[..], b"live"].concat());
    assert_eq!(t.press(b"\x1b[B").0, b"");
    assert_eq!(t.editor.line(), b"live");
}

#[test]
fn arrows_do_nothing_without_history() {
    let mut t = Typist::new();
    t.start();
    t.press(b"abc");
    assert_eq!(t.press(b"\x1b[A\x1b[B"), (b"".to_vec(), false));
    assert_eq!(t.editor.line(), b"abc");
}

#[test]
fn a_new_line_starts_at_the_live_input() {
    let mut t = Typist::new();
    t.enter(b"one");
    t.enter(b"two");
    t.start();
    t.press(b"\x1b[A\x1b[A");
    t.start();
    t.press(b"\x1b[A");
    assert_eq!(t.editor.line(), b"two");
}

#[test]
fn the_history_starts_empty() {
    let h = History::new();
    assert_eq!(h.len(), 0);
    assert_eq!(h.get(0), None);
    assert_eq!(h.get(1), None);
}

#[test]
fn the_history_remembers_trimmed_lines() {
    let mut h = History::new();
    h.push(b"  ls \n");
    h.push(b"pwd");
    assert_eq!(h.len(), 2);
    assert_eq!(h.get(0), None);
    assert_eq!(h.get(1), Some(&b"pwd"[..]));
    assert_eq!(h.get(2), Some(&b"ls"[..]));
    assert_eq!(h.get(3), None);
}

#[test]
fn the_history_skips_blanks_and_repeats() {
    let mut h = History::new();
    h.push(b"");
    h.push(b" \t ");
    assert_eq!(h.len(), 0);
    h.push(b"ls");
    h.push(b" ls ");
    assert_eq!(h.len(), 1);
    h.push(b"pwd");
    h.push(b"ls");
    assert_eq!(entries(&h), vec![b"ls".to_vec(), b"pwd".to_vec(), b"ls".to_vec()]);
}

#[test]
fn the_history_keeps_the_last_twenty() {
    let mut h = History::new();
    for i in 0..45u32 {
        h.push(format!("line {}", i).as_bytes());
        assert_eq!(h.len() as u32, if i < 20 { i + 1 } else { 20 });
    }
    assert_eq!(HIST_CAP, 20);
    for pos in 1..=20usize {
        assert_eq!(h.get(pos), Some(format!("line {}", 45 - pos).as_bytes()));
    }
    assert_eq!(h.get(21), None);
}

#[test]
fn long_lines_are_cut_in_the_history() {
    let mut h = History::new();
    h.push(&vec![b'a'; 200]);
    assert_eq!(h.get(1), Some(&vec![b'a'; HIST_ENTRY][..]));
}

#[test]
fn long_lines_are_skipped_when_repeated() {
    let mut h = History::new();
    let long = vec![b'a'; 200];
    h.push(&long);
    h.push(&long);
    assert_eq!(h.len(), 1);
    let other = [&long[..], b"b"].concat();
    h.push(&other);
    assert_eq!(h.len(), 2);
    h.push(&long);
    assert_eq!(h.len(), 3);
    h.push(&long[..128]);
    assert_eq!(h.len(), 3);
    h.push(&long);
    assert_eq!(h.len(), 4);
}

#[test]
fn as_many_steps_on_as_back_restore_the_input() {
    let mut t = Typist::new();
    for line in [&b"one"[..], b"two", b"three"] {
        t.enter(line);
    }
    for k in 1..=3 {
        t.start();
        t.press(b"live");
        t.press(&b"\x1b[A".repeat(k));
        assert_eq!(t.editor.line(), [&b"three"[..], b"two", b"one"][k - 1]);
        t.press(&b"\x1b[B".repeat(k));
        assert_eq!(t.editor.line(), b"live");
        assert_eq!(t.press(b"\x1b[B"), (b"".to_vec(), false));
        assert_eq!(t.editor.line(), b"live");
    }
}

#[test]
fn a_line_that_is_too_long_comes_back_cut() {
    let mut t = Typist::new();
    t.start();
    t.press(&vec![b'x'; 400]);
    assert_eq!(t.press(b"\r"), (b"\n".to_vec(), true));
    assert_eq!(t.editor.line(), vec![b'x'; 255]);
}
