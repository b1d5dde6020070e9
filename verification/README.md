# ccr

Compaction of command output and conversation text for coding agents,
written in Verus: each function of the library carries a contract that the
verifier proves.

## Layout

- `src/`: the verified library.
  - `text`, `order`, `json`: character sequences, lines and words, sorted
    insertion, and JSON values as plain data with the lookups the handlers
    make.
  - `ansi`, `whitespace`, `sentence`, `simhash`, `summarizer`, `tokens`:
    escape stripping, whitespace normalisation, sentence splitting,
    near-duplicate line collapsing, head/tail and ranked summaries, and token
    counting.
  - `generative`: the prompt and the reply text of a generative summariser.
  - `handlers`: one module per command (`git`, `cargo`, `docker`, `kubectl`,
    `ls`, `grep`, `aws`, ...), each with the argument rewriting and the output
    filter of that command.
  - `rewrite`: the command rewriting of the pre-tool hook.
  - `agents::openclaw`: the OpenClaw hook script and hook registration.
  - `hook`, `history`: the decisions of the post-tool hook and the tally of
    the shell commands found in session history.
  - `outside`: the trusted items through which the library calls `regex`,
    `tiktoken-rs` and the parts of `std` that vstd does not specify.
- `tests/`: tests of the library on concrete inputs.
- `app/`: the command line around the library: running commands, reading
  history files, installing hooks, and the embedding-based ranking whose
  floating-point scores the library takes as rankings and similarity flags.
