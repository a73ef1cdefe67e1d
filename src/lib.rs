//! Parser for brace-delimited configuration files of the kind read by
//! reverse-proxy servers: a scanner that classifies characters into tokens,
//! and a builder that folds the tokens into a tree of statements and blocks.

mod text;
mod token;
mod lexer;
mod structure;
mod laws;

pub use text::{byte_offset, char_width, decimal, unicode_alphanumeric, utf8_len};
pub use token::{toks_view, Tok, Token};
pub use lexer::{
    is_blank, is_word_char, is_word_punct, lex, lex_from, scan_at, stuck_error, tokenize, LexError,
    Lexed, Scan,
};
pub use structure::{
    build, build_tree, error_text, finish, flush, run, start, step, trees_view, Builder, Frame,
    Structure, Tree,
};
pub use laws::{
    args_only, balanced, body, clean_tree, closes_ok, depth, directives, ends_in_arg, flatten,
    flatten_upto, lemma_no_comment_in_args, lemma_round_trip, lemma_text_round_trip,
};
