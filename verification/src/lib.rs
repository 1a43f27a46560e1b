//! Verified core of the fatty shell: its text editing model, its command
//! syntax helpers, the bolger markup scanner, the structured-data token
//! stream, and the small parsers and formatters of its tools.
pub mod unicode;
pub mod utf8;
pub mod wire;
pub mod term;
pub mod text_input;
pub mod control;
pub mod key_input;
pub mod marish_syntax;
pub mod marish_compiler;
pub mod fatty_vm;
pub mod where_filter;
pub mod fatty_syntax;
pub mod shell_syntax;
pub mod program;
pub mod exit_status;
pub mod search_path;
pub mod copying;
pub mod tty_keys;
pub mod bolger;
pub mod bolger_doc;
pub mod bolger_ui;
pub mod bwine;
pub mod codec;
pub mod colors;
pub mod expansion;
pub mod completion;
pub mod listing;
pub mod numbers;
pub mod pieces;
pub mod roundtrip;
pub mod stream_back;
pub mod procs;
pub mod select;
pub mod sizes;
pub mod top_rows;
