# pa3

A command shell (`gash`) and a web server in two versions (`zhtta`, which
answers static files in arrival order, and `zhtta2`, which answers the
smallest file first, caches files, bounds its workers, and runs the shell
commands embedded in `.shtml` pages).

- `src/` is the verified library: text utilities (`text`), the shell's
  command-line parsing, history and packets (`gash`), request parsing,
  routing and pages (`http`), a string-keyed map (`table`), the two servers'
  state machines (`zhtta`, `zhtta2`) and command-line options (`cli`).
- `app/` runs the programs: terminal, process, file and network I/O, and
  the threads that move data, calling the library for every decision.
- `tests/` exercises the library on concrete inputs.
