# grader

A command-line helper for teaching assistants: it downloads student
submissions from Canvas into a workspace of courses and assignments, and
compiles them on a remote host over SSH.

The library in `src/` holds the logic, verified with Verus:

- `workspace`, `settings`: the workspace root, course name checks, the
  course and assignment lookup (by name or by the current directory), the
  roster of users;
- `download`: matching uploaded files against the expected file name, the
  names files are saved under, the stable ordering of submissions, the rows
  shown and the files to fetch, and the pages of each Canvas list to ask for;
- `compile`: the remote commands for a file, the parsing of the remote
  output and exit status, and the report shown per file;
- `table`: the terminal table and its column widths;
- `text`, `paths`, `paint`: strings, Unix paths and terminal colours.

`app/` is the program around it: argument parsing, HTTP requests, files,
processes, threads and the terminal.
