# touchpad_raw

Reads raw multi-touch contact data from a Windows Precision Touchpad and draws
the live finger positions as an ASCII grid in the terminal.

`src/` is the library, verified with Verus. It never talks to the system:

- `decoder`: one raw input message as a dialogue. The decoder says what it needs
  next, takes the answer, and ends up with the contacts of each report.
- `contact`: the fingers of a report by finger slot, and what the value fields
  and button usages of a report make of them.
- `hid`: the usages that a touchpad speaks, and the ranges of its axes.
- `debug_render`: a frame of the terminal display as a string.
- `decoder_laws`: what holds of every dialogue, and what a message writes.
- `frame_laws`: what holds of every frame.
- `screen_laws`: what frames leave on a terminal that was cleared once.
- `axis`, `binary32`: the place of a coordinate on the grid, defined by
  single-precision arithmetic and computed exactly on integers.
- `text`: numbers as text.
- `window`: the decisions of the window and console plumbing.

`app/` is the program around it: the Win32 window, its message loop, and the
calls that answer the decoder. `tests/` runs the library.
