# muxxy

A command-line tool for a REPL that runs inside a tmux pane: is it ready, what
did the last command print, run this command and wait for it. Any REPL works
whose prompt a regular expression describes.

The logic is a library verified with Verus; tmux, the clock and the arguments
are ordinary Rust around it.

## Library (`src/`)

| Module | What it holds |
|---|---|
| `text` | whitespace, trimming, splitting into lines and joining them |
| `pattern` | the boundary to the `regex` crate, and what a match says of its line |
| `kinds` | named lists of prompt patterns, and the JSON that overrides them |
| `prompts` | sets of prompts: prompt lines, bare prompts, what stands after a prompt |
| `extract` | the last command and its output, corrected by what was sent |
| `validate` | warnings about patterns that match ordinary output; the socket path |
| `wait` | the wait for a command, one event at a time |
| `outcome` | what a tmux command that has ended is taken for |
| `yaml` | the YAML emitter |
| `readback` | the rules of a YAML reader, and the proof that they undo the emitter |
| `report` | the reports that the commands print |

Functions whose names start with `law_` state what holds of several functions
together. What the library takes on trust is marked `external_body` or
`assume_specification`, and stands in `pattern`, `kinds` and `text`.

Functions that call the `regex` crate come in two layers. The lower one takes
the spans that were found, or the marks made from them, as arguments; the upper
one finds them.

## Program (`app/`)

```text
muxxy [--prompt <REGEX>]... [--kind <KIND>]... [OPTIONS] <COMMAND>
```

| Command | What it does |
|---|---|
| `is-repl-ready` | whether the pane shows a bare prompt, and which |
| `get-last-command` | the last command and its output; both null while busy |
| `execute-command <TEXT>` or `--lines <LINE>...` | runs a command and returns its output |
| `split-pane` | splits the pane and prints the identifier of the new one |
| `send-keys <TEXT>...` | sends text without waiting |
| `kill-pane` | closes the pane |

| Option | Meaning | Default |
|---|---|---|
| `--pane <PANE>` | tmux pane | `0` |
| `--max-lines <N>` | lines to capture | `5000` |
| `--socket <PATH>` | tmux server socket | default server |
| `--check <SECS>` | poll interval of `execute-command` | `2` |
| `--timeout <SECS>` | when `execute-command` gives up; `0` never | `60` |
| `--pretty` | JSON on several lines | off |
| `--yaml` | YAML instead of JSON | off |

`TMUX_REPL_KINDS` may hold a JSON object from kind names to a pattern or an
array of patterns; they override the built-in kinds `python`, `ipython`, `bash`,
`sh`, `zsh`, `node`, `irb`, `iex`, `lisp`, `sbcl` and `goose`.
