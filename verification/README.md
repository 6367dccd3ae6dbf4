# local-mcp

A filesystem MCP server that speaks Streamable HTTP. `src/` is a library of the
rules behind it, verified with Verus; `app/` is the program around them: it reads
the environment, asks the disk, keeps the rows in SQLite, runs processes and
answers requests.

| Module | What it decides |
| --- | --- |
| `path`, `root` | Where a path leads, and that it cannot lead out of the root. |
| `fs_ops` | What the file tools answer, once the disk has been asked. |
| `exec_ops` | Which jobs are known, what is kept of their output, when they are dropped. |
| `server` | Which tools are offered, and how the shell tools answer. |
| `config` | What the environment variables ask for, and when the server refuses to start. |
| `auth` | Which requests reach the tools. |
| `oauth`, `pkce` | The consent flow: registration, consent page, codes, access tokens. |
| `store`, `table` | The rows that outlive the process, and the changes to write back. |
| `text`, `json`, `clock`, `ids`, `secret` | What the others are written with. |

Functions whose names start with `law_` state what holds of the library as a
whole: that a resolved path lies within the root whatever the disk says, that a
code is spent by its first use, that a running job is never dropped.

A few functions are believed rather than proved, because other crates do their
work: SHA-256 (`sha2`), base64 (`base64`), UUIDs (`uuid`), regular expressions
(`regex`), comparing secrets (`subtle`), and, of `std`, decoding UTF-8 that may be
broken and putting a character at the end of a `String`. Each says in its doc
comment what it claims of the function that it calls.
