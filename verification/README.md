# gentooplz

A live terminal dashboard of what Portage is compiling: which packages are
being built, with which build system, how far each build has come, and what
CPU and memory its processes use.

The project is a Verus crate. `src/` is the verified library; `app/` is the
terminal program around it (command line, terminal, file system, `/proc`,
and the few computations made in floating point).

## Library modules (`src/`)

| module    | what it holds |
|-----------|---------------|
| `text`    | the Unicode classes `\s` and `\d`, `str::lines`, `str::trim`, the newest non-blank lines of a text |
| `pattern` | runs of a character class, literal words, ASCII numerals and their values |
| `grammar` | the line grammars of ninja, make, cargo and Portage's log, each with its leftmost match |
| `parser`  | what a build log's tail says (build system, progress, step, latest lines) and the merge-queue position in Portage's log |
| `names`   | Portage's version grammar and the split of a build directory's name into name and version |
| `process` | which processes work on a build, and the process tree behind it: its members, memory and busiest process |
| `walk`    | the bounded walks of a build tree: counting source and object files, finding a build-system marker |
| `order`   | the stable order of packages by full name |
| `view`, `nav` | the three views, the key bindings, the selection and the CPU history |
| `format`  | durations, numbers, padded and shortened labels, panel titles |
| `cli`     | the command line to repeat as root and the tool to suggest |

Every public function carries a contract that pins its result down; the
laws that relate functions (tabs cycle, a split rejoins into the directory
name, a decimal numeral parses back, a reading keeps the newest lines, ...)
are proof functions next to the code they speak of.

## Checking

`tests/` runs the library on concrete inputs, including comparisons of the
line grammars with the `regex` crate on generated text.
