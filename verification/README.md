# Beeper

Beeper is an application-layer parser for eBPF. It compiles a set of patterns
into a deterministic automaton in user space and hands the automaton to a parser
program in the kernel as a table, so that HTTP/1.x, HTTP/2 and RESP2 messages can
be parsed where they pass by.

This is the part of it that decides things, written and proved in
[Verus](https://github.com/verus-lang/verus).

- `src/dfa` is the automaton: the model of what it is, the builder that compiles
  patterns into it, what a walk over a message reports, and the tables it is
  written into a parser program as.
- `src/resp2` compiles the commands and replies of Redis. `src/resp2/laws.rs`
  states what is captured of them.
- `src/http1` compiles the patterns of HTTP/1.x, for `http1::Parser` and
  `h1::Parser` alike. `src/http1/laws.rs` states what is captured of a message.
- `src/h2` compiles the field representations of HPACK and the names that are
  captured, by their Huffman codes.
- The remaining modules hold what a monitor, a benchmark and a program to try
  parsers out with are configured with.
- `app` is what is done in the kernel and on the network: it loads the parser
  programs, attaches them and runs a server whose traffic is monitored.
