# tomesole

A careful terminal client for Library Genesis: it searches, downloads, keeps a
library of what it has downloaded, and shows covers where the terminal can draw
them.

Everything the program decides is in the library under `src/`, written in Verus
and proved against the contracts that stand beside it. What touches the world
(files, the network, the clock, the terminal, other programs) is ordinary Rust
under `app/`: it hands the library plain values and does what it is told.

| module | what it is for |
| --- | --- |
| `args`, `config` | the command line, the config file, and where things live |
| `commands`, `ui`, `line`, `term` | what each command decides and prints |
| `history` | the table of past downloads, and how entries are picked from it |
| `cover`, `embedded`, `jpeg`, `graphics` | finding, decoding and drawing covers |
| `launch` | opening a book, or showing it in the file manager |
| `tui`, `view`, `theme`, `screen` | the full-screen interface: its state, and its picture |
| `tui_laws` | what holds of the interface whatever is typed and whatever arrives |
| `query`, `model`, `order`, `html`, `net`, `path` | queries, records and their order, pages, addresses and paths |
| `text`, `bytes`, `double`, `keyed`, `error` | what the others are built on |

A contract speaks of values through their views: a `String` is its characters,
the interface is an `AppView`, a picture is an `ImageView`. Each key and each
event is a function from one `AppView` to the next, and a frame is a function
from an `AppView` to a list of widgets, so the laws are statements about plain
functions.

Eight functions outside the library are taken at their word, each behind a small
wrapper that says what is believed of it: lower-casing and lossy decoding of
text in `text` and `embedded`, the four parts an address is read for in `net`,
and the two ways of splitting an area in `screen`; beside them stands the
contract of `String::push`.
