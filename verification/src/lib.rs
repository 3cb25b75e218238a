//! Front end of an interactive command shell: a quote-aware tokenizer, a
//! command splitter, an ordered pipeline of textual expansions over the
//! resulting tokens, the in-memory session state those expansions read, and a
//! model of the terminal/process-group handoff used for job control.

pub mod chars_util;
pub mod parser_line;
pub mod shell;
pub mod expand_env;
pub mod expand_home;
pub mod expand_brace;
pub mod expand_glob;
pub mod substitution;
pub mod pipeline;
pub mod terminal;
pub mod completions;
