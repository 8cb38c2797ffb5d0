# pii

Session analytics and model explorer for the pi coding agent.

- `src/` is the library, verified with Verus: the summary of a session log,
  the session tree and the keys that move through it, the flat picker's
  ranking and keys, the settings picker, the session list and its query,
  the heatmap grid, calendar dates, number formatting (the one-decimal
  rendering of float quotients is computed exactly with integers), and the
  matching of model records from two sources.
- `app/` is the program around it: the command line, the SQLite database,
  the session files, the HTTP APIs, the terminal, and the float-valued
  views (costs, prices, scores, the radar chart).
- `tests/` runs the library on concrete values.
