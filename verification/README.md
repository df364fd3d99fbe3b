# depdep

`depdep` compares the dependency lockfile in a working tree with the lockfile at
another Git revision. It knows Rust and npm projects, groups every resolved version
by package name, and prints the changes as a Markdown table.

The library in `src/` is written in Verus. Its contracts say exactly what each
function returns, and its laws are proof functions beside the functions that they
are about.

- `text`, `order`, `collections`, `path`: texts, their order, sets and maps of
  them, and paths inside a repository.
- `scanner`, `toml`, `cargo_lock`, `cargo_manifest`, `workspace`: what is read from
  `Cargo.lock` and `Cargo.toml`; `declarations` and `workspace_writing` prove that
  what is written there is read back.
- `json_grammar`, `json`, `npm`: what is read from `package.json` and
  `package-lock.json`; `json_writing` and `npm_writing` prove that what is written
  there is read back.
- `glob`, `source`, `members`: the members of a Rust workspace and the direct
  dependencies of a project.
- `ecosystem`, `project`, `options`, `revision`, `git`, `working_tree`: the command
  line, where a project is, and what is made of the answers of Git and of the file
  system.
- `report`, `compare`, `run`: the changes, the table that shows them, and what a whole
  run asks for and prints.
- `external`: the calls into the standard library whose contracts are not proved
  here.

A computation that needs something from outside, such as a file or a listing of
directories, returns the question.
The program in `app/` answers it and asks again, until the run is over.
