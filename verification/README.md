# cc-session

A terminal editor and a scriptable command line for coding-assistant
session transcripts (JSON Lines files, one record per line): list and
search sessions, read them, rank their turns by token weight, and delete
records by forking the session into a new file.

The transcript logic is a library verified with Verus (`src/`):

- `session`: records, re-linking `parentUuid` over deleted records, and
  rendering a session without some of its records byte for byte;
- `pairing`: tool calls and turns, and auto-pairing of marked records;
- `cli` (`cli::report`, `cli::fork`): delete plans, the rows of `show`,
  the counts of `info`, the turns of `heatmap`, and the text of a fork;
- `scan`, `search`, `order`: titles of session files, fuzzy search and
  stable ordering;
- `screens`, `app`: the list and edit screens as state machines;
- `json`, `text`, `tokens`: JSON text, string helpers, token counts.

`app/` is the program around it: argument parsing, file and directory
access, the terminal user interface, and writing forks to disk.
