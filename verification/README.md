# oncmp

Compares the parameters and regression tests of two runs of an Oneil model: a legacy run
(`oneil regression-test`) and a current one (`oneil eval` and `oneil test`). Both outputs
are parsed, parameters are matched by name and tests by expression, and what was added,
removed or changed is printed with a summary.

The library under `src/` is verified with Verus:

- `text`: the text model (trimming, searching, splitting, lines, replacing, ordering).
- `number`: which texts `f64` reads as numbers.
- `parse`: the two output formats, read into parameters and tests.
- `keys`, `diff`: matching by key and classifying each key.
- `print`: rendering diffs, sorting, and the summary.
- `args`, `config`, `run`: the options, the configuration check, the commands.
- `laws`: properties of every comparison.

Numbers are held as the literal text that denotes them; comparing two numbers and
displaying one are floating-point work that the caller passes in as closures.

`app/` is the program: command line, configuration file, running the commands, threads,
and terminal output.
