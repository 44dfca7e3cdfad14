# flowrun

A runner for flows of HTTP calls, written in [Verus](https://github.com/verus-lang/verus):
the library under `src/` is executable Rust with contracts that Verus proves.

A flow is a Mermaid chart (`flow.mmd`) and a configuration per node
(`flow.yaml`); an environment (`dev.yaml`) adds the host, the tokens and seed
variables. A run goes from node to node: attended, where an operator is asked
before every step, or unattended, where it stops at the first failure.

## Layout

- `src/` — the verified library.
  - `flow`, `graph`, `chart`: joining a chart with its configuration; the order
    of the steps, and the proof that a flow has no cycle.
  - `template`, `path`, `branch`, `engine`, `error`: what a step sends, and what a
    response means for the step and for the variables.
  - `walk`, `worker`: how a run goes on; `commands`: what a worker tells over a
    list of commands.
  - `diagram`, `runner_ui`: the status picture, the board and the reports.
  - `session`, `picker`, `layout`, `palette`, `tree`: the state of the window.
  - `text`, `strmap`, `json`, `yaml`, `config`, `cli`: values and their models.
- `tests/` — the tests of the library.
- `app/` — ordinary Rust around the library: `main.rs` is the command line,
  `flowrun_gui.rs` the root of the desktop program, which is built with `eframe`,
  `egui` and `rfd`.

## What is trusted

`json`, `yaml` and `chart` are the boundaries to `serde_json`, `serde_yaml` and
`flowmaid`; `engine` parses HTTP methods with `reqwest`, `walk` uses
`str::to_lowercase`, and `picker` compares paths with `std::path`. Each function
that makes such a call says above it what is claimed of the call. Sending a request
is a function that the caller hands in.

## Laws

Functions named `law_..` prove what holds of the library as a whole: a loaded
flow is acyclic and every edge leads to a later step (`flow`); a run never enters
a step twice, and a failure is remembered (`walk`, `worker`); a worker that was
reset does what a new one does (`commands`); variables change only by captures,
and a capture is what `{{name}}` stands for afterwards (`engine`); a template fills
exactly when its names have values (`template`); the edges decide exactly when one
condition holds (`branch`); no flow is remembered twice (`picker`); the source of a
picture is kept (`diagram`); and more of the same kind beside the functions they
speak of.
