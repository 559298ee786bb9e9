# esprit2

The engine of a tile-based roguelike, verified with Verus: the board and its chunks, path
finding, the turn queue and what pieces do on it, vault drawings and floor generation, text
templates that name characters, arithmetic expressions with dice, the client's input modes and
login menu, the interface's layout cursor, and the network protocol's packet framing, checksum and routing URLs.

- `src/` is the library; Verus verifies all of it, and every public function has a contract. Calls into
  `aho-corasick`, `url`, `percent-encoding` and `rand` go through small trusted wrappers whose
  contracts state what those crates document.
- `tests/` runs the library on concrete cases.
- `app/` is a text-mode driver: it reads keys from standard input, carries out the effects the
  library decides on, and prints the board. With `--connect <url>` it talks to a server instead,
  moving framed packets between a socket and the terminal.
