# mcom

A serial terminal for embedded work, with a verified core. It replaces
`screen /dev/ttyACM0 115200` and minicom: coloured logs pass through untouched,
`Ctrl-A q` quits, and the port is free afterwards.

The library decides and the program around it acts. `src/` holds the decisions, each
with a contract that Verus proves:

| Module | What it holds |
| --- | --- |
| `ansi` | stripping escape sequences |
| `timestamps` | device output cut into lines and stamped |
| `scrollback` | received lines, and the ring buffer of the newest |
| `clock` | readings of the clocks, and how they are printed |
| `input` | keys decoded from input bytes |
| `tui` | the scrollback view: search, filter, layout |
| `ports` | which port is which, and which one to open |
| `serial` | port settings, errors and reconnecting |
| `logfile` | the log file's name and contents |
| `term` | what has been done to the terminal |
| `session` | events in, actions out |
| `guarantees` | what holds of a session as a whole |
| `cli`, `logo`, `text` | settings, startup art, text helpers |

`app/` is the program: it opens ports and files, runs the threads and draws on the
terminal. Each event goes to `Session::handle`, and each action that comes back is
carried out in order; input is taken in piece by piece with `Session::next_input`.

What the proofs rest on is marked `external_body` or `assume_specification`: a few
std functions, the clocks, chrono's formatting, the regex crate, and the column counts
of ansi-to-tui and ratatui.
