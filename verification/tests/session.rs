use rsh::io::{pipe_capture_end, pipe_capture_start, StdoutWriter};
use rsh::machine::{Action, Event};
use rsh::shell::{Answer, Request, Shell};

const PROMPT: &str = "\x1b[1;32mrsh\x1b[0m:\x1b[1;34m/\x1b[0m$ ";

struct Session {
    shell: Shell,
    out: StdoutWriter,
    request: Request,
}

impl Session {
    /// A session at its first prompt.
    fn new() -> Self {
        let mut out = StdoutWriter::new();
        let (shell, request) = Shell::start(&mut out);
        out.take_sent();
        Session { shell, out, request }
    }

    /// A session with the plain prompt `$ `.
    fn plain() -> Self {
        let mut s = Session::new();
        s.shell.set_var(b"PS1", b"$ ");
        s.type_line("");
        s
    }

    /// Answer the request; the result is what is written.
    fn answer(&mut self, event: Answer) -> String {
        assert!(self.shell.accepts(&event));
        self.request = self.shell.step(event, &mut self.out);
        String::from_utf8(self.out.take_sent()).unwrap()
    }

    /// Type a line and Enter; the result is what is written after the echo.
    fn type_line(&mut self, line: &str) -> String {
        for b in line.bytes() {
            assert!(matches!(self.request, Action::ReadKey));
            assert_eq!(self.answer(Event::Key(b)), String::from(b as char));
        }
        let rest = self.answer(Event::Key(b'\n'));
        assert!(rest.starts_with('\n'));
        rest[1..].to_string()
    }

    /// Run a line that finishes at once; the result is what it writes before
    /// the next prompt.
    fn run(&mut self, line: &str) -> String {
        let text = self.type_line(line);
        assert!(matches!(self.request, Action::ReadKey));
        text.strip_suffix("$ ").unwrap().to_string()
    }

    fn opening(&self) -> String {
        match &self.request {
            Action::Open(path) => {
                assert_eq!(path.last(), Some(&0));
                String::from_utf8(path[..path.len() - 1].to_vec()).unwrap()
            }
            _ => panic!("no file is being opened"),
        }
    }

    fn executing(&self) -> String {
        match &self.request {
            Action::Exec(path) => {
                assert_eq!(path.last(), Some(&0));
                String::from_utf8(path[..path.len() - 1].to_vec()).unwrap()
            }
            _ => panic!("nothing is being executed"),
        }
    }

    fn changing(&self) -> String {
        match &self.request {
            Action::Chdir(path) => String::from_utf8(path.clone()).unwrap(),
            _ => panic!("the directory is not being changed"),
        }
    }

    fn closing(&self) -> i64 {
        match &self.request {
            Action::Close(fd) => *fd,
            _ => panic!("no file is being closed"),
        }
    }
}

fn dirent(name: &[u8], file_type: u8) -> Vec<u8> {
    let len = 20 + name.len();
    let mut r = vec![0u8; 16];
    r.push(len as u8);
    r.push(0);
    r.push(file_type);
    r.extend_from_slice(name);
    r.push(0);
    r
}

#[test]
fn the_shell_starts_with_a_banner_and_a_prompt() {
    let mut out = StdoutWriter::new();
    let (shell, request) = Shell::start(&mut out);
    assert!(matches!(request, Action::ReadKey));
    assert_eq!(
        String::from_utf8(out.take_sent()).unwrap(),
        format!(
            "\x1b[1;32mrsh\x1b[0m 0.1.0 \u{2014} RustOS Shell\n\
             Type 'help' for available commands, 'exit' to quit.\n\n{}",
            PROMPT
        )
    );
    assert_eq!(shell.cwd(), b"/");
    assert_eq!(shell.last_status(), 0);
    assert_eq!(shell.get_var(b"PATH"), Some(&b"/bin"[..]));
    assert_eq!(shell.get_var(b"SHELL"), Some(&b"/bin/rsh"[..]));
    assert_eq!(shell.get_var(b"HOME"), Some(&b"/"[..]));
    assert_eq!(shell.get_var(b"USER"), None);
}

#[test]
fn echo_prints_its_arguments() {
    let mut s = Session::plain();
    assert_eq!(s.run("echo"), "\n");
    assert_eq!(s.run("echo hello   world"), "hello world\n");
    assert_eq!(s.run("echo -n a b"), "a b");
    assert_eq!(s.run("echo a -n"), "a -n\n");
    assert_eq!(s.run("echo \"a   b\" c"), "a   b c\n");
    assert_eq!(s.run("echo $HOME $? '$HOME'"), "/ 0 $HOME\n");
}

#[test]
fn blank_lines_and_comments_do_nothing() {
    let mut s = Session::plain();
    s.run("false");
    assert_eq!(s.run(""), "");
    assert_eq!(s.run("   "), "");
    assert_eq!(s.run("# echo hi"), "");
    assert_eq!(s.run("  #x"), "");
    assert_eq!(s.run("$NONE"), "");
    assert_eq!(s.shell.last_status(), 1);
}

#[test]
fn true_and_false_set_the_status() {
    let mut s = Session::plain();
    assert_eq!(s.run("false"), "");
    assert_eq!(s.shell.last_status(), 1);
    assert_eq!(s.run("echo $?"), "1\n");
    assert_eq!(s.run("false"), "");
    assert_eq!(s.run("true"), "");
    assert_eq!(s.run("echo $?"), "0\n");
}

#[test]
fn assignments_set_variables() {
    let mut s = Session::plain();
    s.run("false");
    assert_eq!(s.run("NAME=some value"), "");
    assert_eq!(s.shell.last_status(), 1);
    assert_eq!(s.shell.get_var(b"NAME"), Some(&b"some value"[..]));
    assert_eq!(s.run("echo $NAME ${NAME}"), "some value some value\n");
    assert_eq!(s.run("TWO=$NAME$?"), "");
    assert_eq!(s.shell.get_var(b"TWO"), Some(&b"some value0"[..]));
    assert_eq!(s.run("EMPTY="), "");
    assert_eq!(s.shell.get_var(b"EMPTY"), Some(&b""[..]));
}

#[test]
fn export_env_and_unset() {
    let mut s = Session::plain();
    assert_eq!(s.run("export A=1 B=\"x $A\" C"), "");
    assert_eq!(
        s.run("env"),
        "PATH=/bin\nSHELL=/bin/rsh\nHOME=/\nPS1=$ \nA=1\nB=x \nC=\n"
    );
    assert_eq!(s.run("export A"), "");
    assert_eq!(s.shell.get_var(b"A"), Some(&b"1"[..]));
    assert_eq!(s.run("unset B HOME NONE"), "");
    assert_eq!(s.run("env"), "PATH=/bin\nSHELL=/bin/rsh\nPS1=$ \nA=1\nC=\n");
}

#[test]
fn the_prompt_follows_its_variable() {
    let mut s = Session::new();
    assert_eq!(s.type_line("PS1='\\w% '"), "/% ");
    assert_eq!(s.type_line("PS1=\\\\w:"), "/:");
    assert_eq!(s.type_line("PS1=\\w:"), "w:");
    assert_eq!(s.type_line("unset PS1"), "rsh:/$ ");
}

#[test]
fn fixed_messages() {
    let mut s = Session::plain();
    assert_eq!(s.run("uname"), "RustOS  rsh 0.1.0  x86_64\n");
    assert_eq!(s.run("source x"), "source: not yet implemented\n");
    assert_eq!(s.shell.last_status(), 1);
    assert_eq!(s.run("clear"), format!("\x1b[2J\x1b[H{}", "\n".repeat(25)));
    let help = s.run("help");
    assert!(help.starts_with("rsh 0.1.0 \u{2014} RustOS Shell\n\nBuilt-in commands:\n  echo [-n]"));
    assert!(help.contains("  type <cmd>             Show how a command is resolved\n"));
    assert!(help.contains("\n\nSpecial variables:  $?  $0  $PATH  $HOME  $SHELL  $PS1\n"));
    assert!(help.contains("Quoting:            '...'  \"...\"  \\<char>\n"));
    assert!(help.ends_with("Keyboard:           Tab  \u{2191}/\u{2193}  Ctrl-C  Ctrl-U  Ctrl-D\n"));
    assert_eq!(help.lines().count(), 23);
    assert_eq!(s.shell.last_status(), 0);
}

#[test]
fn history_lists_numbered_lines() {
    let mut s = Session::plain();
    s.run("echo one");
    s.run("echo one");
    s.run("# note");
    assert_eq!(s.run("history"), "   1  echo one\n   2  # note\n   3  history\n");
    for i in 0..30 {
        s.run(&format!("V={}", i));
    }
    let text = s.run("history");
    assert!(text.starts_with("   1  V=11\n"));
    assert!(text.ends_with("  19  V=29\n  20  history\n"));
    assert_eq!(text.lines().count(), 20);
}

#[test]
fn arrow_up_recalls_the_line_entered_last() {
    let mut s = Session::plain();
    s.run("echo again");
    s.answer(Event::Key(0x1b));
    s.answer(Event::Key(b'['));
    assert_eq!(s.answer(Event::Key(b'A')), "echo again");
    assert_eq!(s.answer(Event::Key(b'\n')), "\nagain\n$ ");
}

#[test]
fn a_cancelled_line_is_neither_run_nor_remembered() {
    let mut s = Session::plain();
    for b in "echo no".bytes() {
        s.answer(Event::Key(b));
    }
    assert_eq!(s.answer(Event::Key(0x03)), "^C\n$ ");
    assert_eq!(s.run("history"), "   1  history\n");
}

#[test]
fn exit_uses_its_argument_or_the_last_status() {
    let mut s = Session::plain();
    assert_eq!(s.type_line("exit 42"), "");
    assert!(matches!(s.request, Action::Exit(42)));
    let mut s = Session::plain();
    s.run("false");
    s.type_line("exit");
    assert!(matches!(s.request, Action::Exit(1)));
    let mut s = Session::plain();
    s.run("false");
    s.type_line("exit x");
    assert!(matches!(s.request, Action::Exit(1)));
    let mut s = Session::plain();
    s.type_line("exit -3 9");
    assert!(matches!(s.request, Action::Exit(-3)));
    assert!(!s.shell.accepts(&Event::Key(b'a')));
}

#[test]
fn ctrl_d_exits_with_the_last_status() {
    let mut s = Session::plain();
    s.run("false");
    assert_eq!(s.answer(Event::Key(0x04)), "exit\n");
    assert!(matches!(s.request, Action::Exit(1)));
}

#[test]
fn cd_changes_the_directory() {
    let mut s = Session::plain();
    assert_eq!(s.type_line("cd home/./user"), "");
    assert_eq!(s.changing(), "/home/user");
    assert_eq!(s.answer(Event::Chdir(0)), "$ ");
    assert_eq!(s.run("pwd"), "/home/user\n");
    s.type_line("cd ..");
    assert_eq!(s.changing(), "/home");
    s.answer(Event::Chdir(5));
    assert_eq!(s.shell.cwd(), b"/home");
    assert_eq!(s.shell.last_status(), 0);
}

#[test]
fn cd_falls_back_to_tracking_the_directory() {
    let mut s = Session::plain();
    s.type_line("cd /tmp");
    assert_eq!(s.answer(Event::Chdir(-38)), "$ ");
    assert_eq!(s.run("pwd"), "/tmp\n");
}

#[test]
fn a_refused_cd_leaves_the_directory() {
    let mut s = Session::plain();
    s.type_line("cd nowhere");
    assert_eq!(s.answer(Event::Chdir(-2)), "cd: nowhere: no such directory\n$ ");
    assert_eq!(s.shell.cwd(), b"/");
    assert_eq!(s.shell.last_status(), 1);
}

#[test]
fn cd_without_an_argument_goes_home() {
    let mut s = Session::plain();
    s.run("HOME=/home/me");
    s.type_line("cd");
    assert_eq!(s.changing(), "/home/me");
    s.answer(Event::Chdir(0));
    s.run("unset HOME");
    s.type_line("cd");
    assert_eq!(s.changing(), "/");
}

#[test]
fn ls_lists_a_directory() {
    let mut s = Session::plain();
    assert_eq!(s.type_line("ls bin"), "");
    assert_eq!(s.opening(), "/bin");
    s.answer(Event::Open(3));
    assert!(matches!(s.request, Action::ReadDir(3)));
    let mut buf = dirent(b"rsh", 8);
    buf.extend(dirent(b"lib", 4));
    let n = buf.len() as i64;
    buf.resize(1024, 0);
    assert_eq!(s.answer(Event::ReadDir { n, buf }), "");
    assert_eq!(s.closing(), 3);
    assert_eq!(s.answer(Event::Close), "rsh\nlib/\n$ ");
    assert_eq!(s.shell.last_status(), 0);
}

#[test]
fn ls_without_an_argument_lists_the_working_directory() {
    let mut s = Session::plain();
    s.type_line("cd /etc");
    s.answer(Event::Chdir(0));
    s.type_line("ls");
    assert_eq!(s.opening(), "/etc");
    s.answer(Event::Open(0));
    s.answer(Event::ReadDir { n: 0, buf: vec![0; 1024] });
    assert_eq!(s.closing(), 0);
    assert_eq!(s.answer(Event::Close), "$ ");
    assert_eq!(s.shell.last_status(), 0);
}

#[test]
fn ls_reports_failures() {
    let mut s = Session::plain();
    s.type_line("ls x");
    assert_eq!(s.answer(Event::Open(-2)), "ls: cannot open '/x'\n$ ");
    assert_eq!(s.shell.last_status(), 1);
    s.run("true");
    s.type_line("ls x");
    s.answer(Event::Open(4));
    s.answer(Event::ReadDir { n: -38, buf: vec![0; 1024] });
    assert_eq!(
        s.answer(Event::Close),
        "ls: not supported by this kernel (SYS_GETDENTS64 stub)\n$ "
    );
    assert_eq!(s.shell.last_status(), 1);
}

#[test]
fn cat_prints_files_one_after_the_other() {
    let mut s = Session::plain();
    s.type_line("cat a /b/c");
    assert_eq!(s.opening(), "/a");
    s.answer(Event::Open(3));
    assert!(matches!(s.request, Action::ReadFile(3)));
    assert_eq!(s.answer(Event::ReadFile { n: 5, buf: b"hello...".to_vec() }), "hello");
    assert_eq!(s.answer(Event::ReadFile { n: 2, buf: b"!\n".to_vec() }), "!\n");
    assert_eq!(s.answer(Event::ReadFile { n: 0, buf: b"??".to_vec() }), "");
    assert_eq!(s.closing(), 3);
    s.answer(Event::Close);
    assert_eq!(s.opening(), "/b/c");
    s.answer(Event::Open(4));
    s.answer(Event::ReadFile { n: -5, buf: vec![0; 512] });
    assert_eq!(s.closing(), 4);
    assert_eq!(s.answer(Event::Close), "$ ");
    assert_eq!(s.shell.last_status(), 0);
}

#[test]
fn cat_goes_on_after_a_file_it_cannot_open() {
    let mut s = Session::plain();
    s.type_line("cat a b");
    assert_eq!(s.answer(Event::Open(-1)), "cat: a: cannot open\n");
    assert_eq!(s.opening(), "/b");
    s.answer(Event::Open(3));
    s.answer(Event::ReadFile { n: 0, buf: vec![] });
    assert_eq!(s.answer(Event::Close), "$ ");
    assert_eq!(s.shell.last_status(), 1);
    assert_eq!(s.run("cat"), "cat: usage: cat <file>\n");
    assert_eq!(s.shell.last_status(), 1);
}

#[test]
fn exec_runs_a_binary() {
    let mut s = Session::plain();
    s.type_line("exec /bin/../app x");
    assert_eq!(s.executing(), "/bin/../app");
    assert_eq!(s.answer(Event::Exec(7)), "$ ");
    assert_eq!(s.shell.last_status(), 7);
    s.type_line("exec bin/../app");
    assert_eq!(s.executing(), "/app");
    assert_eq!(s.answer(Event::Exec(-2)), "exec: bin/../app: failed (error -2)\n$ ");
    assert_eq!(s.shell.last_status(), 127);
    assert_eq!(s.run("exec"), "exec: usage: exec <path>\n");
    assert_eq!(s.shell.last_status(), 1);
}

#[test]
fn commands_are_searched_for() {
    let mut s = Session::plain();
    s.run("PATH=/bin/:/usr/bin::/opt");
    s.type_line("tool a b");
    assert_eq!(s.opening(), "/bin/tool");
    assert_eq!(s.answer(Event::Open(-2)), "");
    assert_eq!(s.opening(), "/usr/bin/tool");
    assert_eq!(s.answer(Event::Open(9)), "");
    assert_eq!(s.closing(), 9);
    assert_eq!(s.answer(Event::Close), "");
    assert_eq!(s.executing(), "/usr/bin/tool");
    assert_eq!(s.answer(Event::Exec(3)), "$ ");
    assert_eq!(s.run("echo $?"), "3\n");
}

#[test]
fn commands_that_are_not_found_are_reported() {
    let mut s = Session::plain();
    s.run("PATH=/bin:/opt");
    s.type_line("tool");
    s.answer(Event::Open(-2));
    assert_eq!(s.opening(), "/opt/tool");
    assert_eq!(s.answer(Event::Open(-2)), "tool: command not found\n$ ");
    assert_eq!(s.shell.last_status(), 127);
    s.run("unset PATH");
    assert_eq!(s.run("tool"), "tool: command not found\n");
}

#[test]
fn absolute_commands_are_not_searched_for() {
    let mut s = Session::plain();
    s.type_line("/opt/tool");
    assert_eq!(s.executing(), "/opt/tool");
    assert_eq!(s.answer(Event::Exec(-38)), "/opt/tool: exec failed (-38)\n$ ");
    assert_eq!(s.shell.last_status(), 127);
}

#[test]
fn directories_that_make_a_path_too_long_are_left_out() {
    let mut s = Session::plain();
    let cmd = vec![b'c'; 128];
    let dir = vec![b'd'; 128];
    s.shell.set_var(b"PATH", &dir);
    assert_eq!(s.shell.find_in_path(&cmd), Vec::<Vec<u8>>::new());
    assert_eq!(s.shell.find_in_path(&cmd[..127]).len(), 1);
    s.shell.set_var(b"PATH", b"/a:/b/");
    assert_eq!(s.shell.find_in_path(b"x"), vec![b"/a/x".to_vec(), b"/b/x".to_vec()]);
}

#[test]
fn type_shows_how_commands_are_resolved() {
    let mut s = Session::plain();
    assert_eq!(s.type_line("type cd tool gone"), "cd is a shell built-in\n");
    assert_eq!(s.opening(), "/bin/tool");
    s.answer(Event::Open(3));
    assert_eq!(s.closing(), 3);
    assert_eq!(s.answer(Event::Close), "tool is /bin/tool\n");
    assert_eq!(s.opening(), "/bin/gone");
    assert_eq!(s.answer(Event::Open(-2)), "gone: not found\n$ ");
    assert_eq!(s.shell.last_status(), 1);
    assert_eq!(s.run("type echo ls"), "echo is a shell built-in\nls is a shell built-in\n");
    assert_eq!(s.shell.last_status(), 0);
    s.run("false");
    assert_eq!(s.run("type"), "");
    assert_eq!(s.shell.last_status(), 1);
    s.run("unset PATH");
    assert_eq!(s.run("type a echo"), "a: not found\necho is a shell built-in\n");
    assert_eq!(s.shell.last_status(), 1);
}

#[test]
fn answers_that_were_not_asked_for_are_not_accepted() {
    let mut s = Session::plain();
    assert!(!s.shell.accepts(&Event::Open(3)));
    assert!(!s.shell.accepts(&Event::Close));
    assert!(!s.shell.accepts(&Event::Exec(0)));
    assert!(!s.shell.accepts(&Event::Chdir(0)));
    s.type_line("cat a");
    assert!(!s.shell.accepts(&Event::Key(b'x')));
    s.answer(Event::Open(3));
    assert!(s.shell.accepts(&Event::ReadFile { n: 2, buf: vec![0; 2] }));
    assert!(!s.shell.accepts(&Event::ReadFile { n: 3, buf: vec![0; 2] }));
    assert!(!s.shell.accepts(&Event::ReadDir { n: 0, buf: vec![] }));
}

#[test]
fn records_outside_the_buffer_are_not_accepted() {
    let mut s = Session::plain();
    s.type_line("ls");
    s.answer(Event::Open(3));
    let mut buf = dirent(b"name", 8);
    let n = buf.len() as i64;
    assert!(s.shell.accepts(&Event::ReadDir { n, buf: buf.clone() }));
    buf[16] = 200;
    assert!(!s.shell.accepts(&Event::ReadDir { n, buf }));
}

#[test]
fn paths_that_are_too_long_are_not_accepted() {
    let mut s = Session::plain();
    for _ in 0..3 {
        s.type_line(&format!("cd {}", "d".repeat(60)));
        s.answer(Event::Chdir(0));
    }
    assert_eq!(s.shell.cwd().len(), 183);
    assert!(s.shell.line_fits(format!("cat {}", "x".repeat(64)).as_bytes()));
    let long = format!("cat {}/{}", "x".repeat(60), "y".repeat(60));
    assert!(!s.shell.line_fits(long.as_bytes()));
    assert!(s.shell.line_fits(format!("# {}", long).as_bytes()));
    for b in long.bytes() {
        s.answer(Event::Key(b));
    }
    assert!(!s.shell.accepts(&Event::Key(b'\n')));
    assert!(s.shell.accepts(&Event::Key(b'z')));
}

#[test]
fn names_that_are_not_utf8_are_replaced_in_messages() {
    let mut s = Session::plain();
    let r = s.shell.dispatch(&[b'/', 0xff], vec![], &mut s.out);
    assert!(matches!(r, Some(Action::Exec(_))));
    s.request = s.shell.step(Event::Exec(-1), &mut s.out);
    assert_eq!(s.out.take_sent(), b"<non-utf8>: exec failed (-1)\n$ ");
}

#[test]
fn output_of_commands_can_be_captured() {
    let mut s = Session::plain();
    pipe_capture_start(&mut s.out);
    assert!(s.shell.execute(b"echo captured", &mut s.out).is_none());
    assert_eq!(pipe_capture_end(&mut s.out), b"captured\n");
    assert_eq!(s.out.take_sent(), b"");
}

#[test]
fn commands_can_be_called_directly() {
    let mut s = Session::plain();
    let args = vec![b"-n".to_vec(), b"x".to_vec()];
    assert!(s.shell.cmd_echo(&args, &mut s.out).is_none());
    assert!(s.shell.cmd_pwd(&mut s.out).is_none());
    assert_eq!(s.out.take_sent(), b"x/\n");
    assert!(s.shell.cmd_export(&[b"K=v$HOME".to_vec()], &mut s.out).is_none());
    assert_eq!(s.shell.get_var(b"K"), Some(&b"v/"[..]));
    assert!(s.shell.cmd_unset(&[b"K".to_vec()], &mut s.out).is_none());
    assert_eq!(s.shell.get_var(b"K"), None);
    let mut buf = [0u8; 8];
    assert_eq!(s.shell.expand_vars(b"$SHELL", &mut buf), 8);
    assert_eq!(&buf, b"/bin/rsh");
    let mut prompt = [0u8; 128];
    assert_eq!(s.shell.format_prompt(&mut prompt), 2);
}

#[test]
fn entered_lines_are_cut_to_the_words_that_fit() {
    let mut s = Session::plain();
    let line = format!("echo {}", "a ".repeat(60));
    assert_eq!(s.run(line.trim_end()), format!("{}\n", vec!["a"; 31].join(" ")));
}

#[test]
fn commands_leave_the_rest_of_the_shell_alone() {
    let mut s = Session::plain();
    let before = s.run("env");
    s.type_line("ls gone");
    s.answer(Event::Open(-2));
    s.type_line("tool");
    s.answer(Event::Open(-2));
    s.run("type cd");
    s.run("clear");
    assert_eq!(s.run("env"), before);
    assert_eq!(s.run("pwd"), "/\n");
}

#[test]
fn quoted_arguments_are_literal() {
    let mut s = Session::plain();
    assert_eq!(s.run("echo 'a  b'"), "a  b\n");
    assert_eq!(s.run("echo a\\ \\ b"), "a  b\n");
    assert_eq!(s.run("echo '\\n' \"x\\\\y\" \\\\"), "\\n x\\y \\\n");
    assert_eq!(s.run("echo '# no' '$HOME'"), "# no $HOME\n");
}

#[test]
fn export_keeps_quotes_and_backslashes_of_its_value() {
    let mut s = Session::plain();
    s.type_line("export PS1=rsh:\\\\w$ ");
    assert_eq!(s.shell.get_var(b"PS1"), Some(&b"rsh:\\w$"[..]));
    assert_eq!(s.type_line("export PS1='[\\w] '"), "[/] ");
    s.type_line("export A=x=$SHELL");
    assert_eq!(s.shell.get_var(b"A"), Some(&b"x=/bin/rsh"[..]));
    s.type_line("export Q=\\'a\\\"");
    assert_eq!(s.shell.get_var(b"Q"), Some(&b"'a\""[..]));
    let args = vec![b"R=$A \\ '".to_vec()];
    assert!(s.shell.cmd_export(&args, &mut s.out).is_none());
    assert_eq!(s.shell.get_var(b"R"), Some(&b"x=/bin/rsh \\ '"[..]));
}

#[test]
fn export_takes_quoted_text_literally() {
    let mut s = Session::plain();
    s.run("export A='$HOME'");
    assert_eq!(s.shell.get_var(b"A"), Some(&b"$HOME"[..]));
    s.run("export A=\\$HOME");
    assert_eq!(s.shell.get_var(b"A"), Some(&b"$HOME"[..]));
    s.run("export A=\"\\$SHELL is $SHELL\"");
    assert_eq!(s.shell.get_var(b"A"), Some(&b"$SHELL is /bin/rsh"[..]));
    s.run("export A=$HOME'$HOME'B B='x  $? y'");
    assert_eq!(s.shell.get_var(b"A"), Some(&b"/$HOMEB"[..]));
    assert_eq!(s.shell.get_var(b"B"), Some(&b"x  $? y"[..]));
    s.run("export 'C=$0' D=''");
    assert_eq!(s.shell.get_var(b"C"), Some(&b"$0"[..]));
    assert_eq!(s.shell.get_var(b"D"), Some(&b""[..]));
    s.run("export A");
    assert_eq!(s.shell.get_var(b"A"), Some(&b"/$HOMEB"[..]));
}
