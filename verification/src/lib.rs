//! A non-interactive nREPL client's core: the bencode framing of the wire
//! protocol, connection and port expressions, version ranges, the Clojure
//! lexer and the result printer.

pub mod bencode;
pub mod text;
pub mod version;
pub mod cli;
pub mod conn_expr;
pub mod error;
pub mod lex;
pub mod result_ir;
pub mod nrepl;
pub mod port_set;
pub mod pprint;
pub mod conn_parse;
pub mod routes;
pub mod outputs;
pub mod sources;
pub mod port_file;
