# blit

The verified core of blit, a terminal-streaming tool: the logic of its
server, command-line client, desktop client, browser view, gateway and
demos, written in Verus with contracts proved against mathematical models.

- `src/` is the library. Each module holds one part of the logic: frame
  encoding and the browser's cell grid (`frame`, `grid`), the configuration
  and remotes files (`config`, `remotes`), the layout language and its tree
  (`dsl`, `bsp`), keyboard and mouse input (`input`, `mouse`), overlays and
  the session book of the desktop client (`overlay`, `book`, `actions`),
  surface encoding (`surface`, `dmabuf`), sharing keys and hub messages
  (`signing`, `forwarder`), the network dashboard (`dashboard`, `tracker`,
  `ansi`) and smaller pieces.
- `tests/` runs the library on concrete values.
- `app/` is the `blit` command around the library: environment, files,
  external tools, floating-point geometry and terminal I/O.

Calls into outside crates (lz4_flex, ed25519-dalek, sha2, pbkdf2, hmac,
base64, serde_json) go through a few trusted wrappers whose contracts say
what those crates document.
