# meow

The decision logic of the meow proxy, verified with Verus.

The library decides, and asks for what is to be done: its state machines hand out requests
(`effect::Request`) and are stepped with what came of them (`effect::Reply`). What touches
the file system, the network or the log is in `app/`.

- `path`: paths, as byte strings, and their components, by the rules of Unix, which the whole
  project is for.
- `text`: bytes shown as text.
- `effect`: what is asked of the outside, and what is answered.
- `disk`: a model of the file system, for the laws about what a run leaves behind.
- `geodata`: the settings of the geographic databases.
- `download`: downloading a file and putting it, whole, in the place of an old one.
- `hysteria2`: settings of the Hysteria 2 protocol, and the negotiated transmit rate.
- `transport`: streams between transport layers, and raw passthrough.
- `ui`: the web interface.
  - `assets`, `serve`, `percent`: which one is served, and how requests are answered.
  - `archive`, `formats`: where the members of an archive go when it is unpacked.
  - `replace`, `update`: putting a downloaded web interface in the place of an old one.
  - `copied`, `replaced`, `updated`: what that leaves in the file system.

Laws of the library are public proof functions whose names start with `law_`. What is relied
on without proof is in `ui::formats`, `ui::percent` and `text`, and the type `serde_yaml::Value` in
`geodata`.
