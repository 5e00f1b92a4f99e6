# esprobe

An SWD debug probe built from an ESP32-C3, reached over USB or over Wi-Fi, with
its logic verified in Verus.

- `src/` is the library: everything that decides. Framing and checksums, the
  wire's transfers and the memory behind them, flash programming, the bridge's
  command interpreter, the motor planner of the actuator station, the radio's
  retry loop, the HTTP replies, and what the host makes of what a bridge says.
  Every function carries its contract, and the `law_*` proof functions state
  what holds across several of them.
- `app/` is the program around it: the command line, the probe-rs driver, the
  GDB server and, for the ESP32-C3, the pads, the UART, the radio and the HTTP
  server. It carries out what the library asks for and reports back.
- `tests/` runs the library on concrete values.

Work that only the outside can do is asked for one step at a time. A module that
needs it returns an action, and goes on when it is told what came of it: see
`hub`, `transport`, `debug_port`, `core_run`, `program`, `radio` and `gdb`.

What is taken on trust is named where it is declared: SHA-256 from the `sha2`
crate, and, of the standard library, `String::push`, `String::push_str`,
`str::from_utf8` and the text of its error, and `str::to_lowercase`.
