# picotool-rs (verified core)

Flash a UF2 onto an RP2040 over USB PICOBOOT. The crate is split in two:

- `src/` — the library, verified with Verus: UF2 parsing with its family-id and
  flash-address guards (`uf2`), PICOBOOT command encoding (`picoboot`), runtime flash-size
  detection — the commands that run the JEDEC-id stub, the decoding of its answer and the
  fallback bound (`detect`), sector-erase planning and the `load` sequence as a state machine
  (`load`), the decisions of the USB transport (`transport`), and the command-line
  rewriting used by the Termux re-exec (`args`).
- `app/` — the `picotool-rs` binary: argument parsing, file reading, the nusb USB transport
  that performs what the library's detection commands and `LoadSession` ask for, and the
  Termux re-exec. A load runs open → detect → parse → load.

Usage: `picotool-rs load firmware.uf2 [--verify] [--any-device] [--fd N | --device PATH]`.
