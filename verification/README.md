# rsh

The RustOS shell: line editing with history and tab completion, variable
expansion, quoting, `$PATH` lookup and built-in commands, verified with Verus.

`src/` is the library.  It performs no input or output: text for the terminal is
collected in an `io::StdoutWriter`, everything else the shell wants from the
kernel is returned as a `machine::Action`, and the answer goes back into
`shell::Shell::step` as a `machine::Event`.

| Module | Contents |
|--------|----------|
| `bytes` | byte classes, trimming, copying, bounded output buffers |
| `io` | terminal output with pipe capture, number formatting and parsing |
| `sys` | the in-process pipe-stdin buffer |
| `path` | path normalisation and resolution, splitting of `$PATH` |
| `history` | the ring buffer of entered lines |
| `builtins` | names of the built-in commands |
| `editor` | the line editor, one key at a time |
| `vars` | the table of shell variables |
| `expand` | variable expansion and quoting |
| `words` | splitting of expanded lines into arguments |
| `prompt` | the prompt |
| `dirents` | listings out of `getdents64` records |
| `machine` | requests to the kernel, and its answers |
| `model` | what the shell does, as functions from state to state |
| `shell` | the shell itself, proved to do what `model` says |
| `laws` | what holds of the shell as a whole |

`app/` is the program around the library: it runs on the `rustos-rt` runtime,
performs the system calls and hands their results back.  The library allocates and
takes its vectors from `std`, so the target has to supply `std`.
