# nreplops-tool (`nr`)

A non-interactive nREPL client for shell scripts and the command line,
written as a library verified with Verus and a thin program around it.

## Layout

- `src/` is the verified library (`nreplops_tool`).  Every function there
  has a contract that Verus proves it meets.
  - `bencode`: framing of the wire protocol (where one message ends).
  - `nrepl`: requests, responses, request ids and how a response is read.
  - `text`: characters, decimal numbers, searching, splitting, trimming.
  - `version`: versions, version blocks and version ranges.
  - `cli`: what the command line asks for.
  - `conn_expr`, `conn_parse`, `port_set`: connection expressions
    (`[[[USER@]TUNNEL[:PORTS]:]HOST:]PORTS` or a host key) and port sets.
  - `port_file`: the port file's text and the wait for it.
  - `routes`: the routes to the server, in the order they are tried.
  - `sources`: the programs to evaluate, with template arguments filled in.
  - `outputs`: where the server's output and the results go.
  - `lex`: the Clojure lexer: its grammar as a recognizer, and the lexemes
    that it gives as a spec function.
  - `result_ir`, `pprint`: the result printer (plain, colored, pretty).
- `app/` is the program: command-line parsing, files, the terminal, name
  lookup, sockets and the SSH client, and the session loop.  It hands plain
  values to the library and acts on what comes back.
- `tests/` runs the library on concrete values.

## Trusted parts

The contracts that are believed rather than proved are the wrappers around
`regex` (escaping and the first match of a pattern), `anstyle` (the escape
sequences for a color and for a reset), `char::from_u32` and `String::push`.
Each says in its doc comment what it claims.
