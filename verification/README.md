# space-usage

CPU and RAM per herdr space, for the sidebar, the window title, the terminal and
scripts.

`src/` is the library: everything that is read out of a file or a host's answer,
decided, measured or rendered, each function with a contract that Verus proves.
`app/` is the program around it: arguments, files, the herdr socket, the process
table and the terminal. `tests/` run the library.

| module | what it holds |
|---|---|
| `text`, `views`, `big`, `double`, `number`, `units` | strings, whole numbers of any size, doubles, written numbers, percentages and sizes |
| `config`, `herdr_config` | the plugin's own settings, and the row it keeps in herdr's config |
| `battery`, `disk`, `proc`, `proc_linux`, `proc_macos`, `proc_windows` | what a host's answers mean |
| `model`, `collect` | spaces: panes, worktree families, measuring |
| `icons`, `render` | cells, rows, the report and the payload |
| `names`, `claims`, `daemon` | what was pushed, who serves a session, what the updater does next |
| `monitor`, `cli` | which system monitor to run, and what the arguments ask for |
| `*_laws` | what holds of several functions taken together |

Shares and sizes are numbers of double precision. The library holds them as whole
numbers of the smallest step a double has, and states every operation as the
double nearest to the exact result.
