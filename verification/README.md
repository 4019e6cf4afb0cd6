# razer_control

The logic behind the fan curves of a Razer laptop, verified with Verus: how a curve turns
a temperature into a fan speed, how the daemon brings the fans to that speed, which
sensors it reads, which settings it keeps, and how a curve is edited.

- `src/` is the library.
  - `rounding`, `binary32`, `binary64`: floating-point numbers, held by their bits
  - `text`: white space and decimal numbers in the kernel's sensor files
  - `comms`, `config`: the types that settings are made of, and their defaults
  - `thermal`: sensors and the evaluation of a curve
  - `fan_controller`: one tick of the control loop as a state machine
  - `curve_editor`: the rows of an editor and the curve they make up
  - `curve_laws`: what holds of every curve
- `app/` is the ordinary Rust around it: files, threads, the NVIDIA driver, widgets.
- `tests/` run the library, next to the floating-point unit where there is one to compare
  with.
