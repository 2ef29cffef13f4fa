# fiducia_cli

The `fiducia` command-line client for fiducia.cloud helps a client pick the
region it routes to: it lists the selectable regions of `edge-regions.json`,
probes each region's health path, ranks them by median latency and names the
closest one, which the client then sends as `X-Fiducia-Region`.

- `src/` is the library, verified with Verus: region normalization and
  selection, the stable latency ranking, the environment snapshot and the
  precedence of flags over it, the checks on the flags parser's output and on
  the typed configuration, the rules of the `docs` and `health` commands, and
  the human renderings. Every public function has a contract; the laws of the
  library (ranking is unique and order-independent, normalizing is idempotent,
  a flag given on the command line wins, option values are never echoed, and
  more) are proof functions next to the code they speak of.
- `app/` is the binary around it: argument and environment access, files, HTTP
  probes, JSON and TOML decoding, the terminal, and the floating-point medians.
- `tests/` exercises the library on concrete values.
