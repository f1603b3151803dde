# matter_backlight

A dimmable Matter light that drives a Linux backlight and follows the ambient
light. The device logic is a library whose behaviour is stated in contracts and
proved with Verus.

- `src/` is the library: the scaling of levels and sensor readings to a
  brightness, in binary32 arithmetic on integers; the level, the on/off switch
  and its stored byte; the smoothing of the ambient light; the attribute files'
  names and texts; and the laws that relate them (`laws.rs` and the functions
  named `law_*`). It touches no file: where one is needed, a step says which to
  read or what to write, and the text goes back in.
- `tests/` runs the library, the arithmetic against the hardware's.
- `app/` is the program: threads, files, sockets and the Matter stack. It needs
  `rs-matter` 0.2.0 with its default features, which `Cargo.toml` leaves out so
  that the library and its tests build without it.

Options: `--no-filesystem` keeps the program away from the system's files, and
`--no-als-spoof` then keeps the ambient light from being simulated.
