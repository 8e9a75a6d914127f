# Voicemeeter OSD

An on-screen volume display for Voicemeeter: a small tray program that watches
one strip or bus and shows a bar whenever its level changes.

- `src/` is the library `voicemeeter_osd`: settings and their file, the link's
  supervision, levels and their scale, the bar's placement, animation and
  drawing, the tray menu, and the settings window's model. Every function is
  verified with Verus, except one wrapper in `vmr.rs`, which calls
  `String::from_utf8_lossy`. What is taken on trust of the standard library
  besides it are the contracts of `String::push` (`text.rs`) and
  `char::from_u32` (`utf16.rs`).
- `app/` is the Windows program around it: windows, GDI+ calls, the registry,
  files, and the Voicemeeter Remote API.
- `tests/` runs the library on concrete values.

Gains, levels and lengths are single-precision numbers. The library keeps them
as bit patterns (`single::Single`) and specifies their arithmetic, reading and
printing exactly. The logarithm of a level and the powers that pace the
animation are computed by the program and handed in.
