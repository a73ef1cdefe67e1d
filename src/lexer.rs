use vstd::prelude::*;

use crate::text::{
    byte_offset, char_width, is_alphanumeric, lemma_byte_offset_step, lemma_utf8_len_encoding,
    string_of, unicode_alphanumeric, utf8_len, width_of,
};
use crate::token::{toks_view, Tok, Token};

verus! {

/// Characters skipped between tokens.
pub open spec fn is_blank(c: char) -> bool {
    c == ' ' || c == '\t'
}

/// Punctuation allowed inside a word, besides letters, digits and `_`.
pub open spec fn is_word_punct(c: char) -> bool {
    c == '[' || c == ']' || c == '=' || c == '^' || c == '$' || c == ':' || c == '-' || c == '+'
        || c == '!' || c == '*' || c == '~' || c == '\'' || c == '.' || c == '/'
}

/// Characters that make up a word: alphanumerics, `_` and the punctuation above.
pub open spec fn is_word_char(c: char) -> bool {
    ||| 'a' <= c <= 'z'
    ||| 'A' <= c <= 'Z'
    ||| '0' <= c <= '9'
    ||| c == '_'
    ||| is_word_punct(c)
    ||| (c as u32 > 0x7f && unicode_alphanumeric(c))
}

/// Index of the first `c` in `text` at or after `i`, or the length of `text`.
pub open spec fn find_from(text: Seq<char>, i: int, c: char) -> int
    decreases text.len() - i,
{
    if i >= text.len() {
        text.len() as int
    } else if text[i] == c {
        i
    } else {
        find_from(text, i + 1, c)
    }
}

/// End of the run of word characters that starts at `i`.
pub open spec fn word_end(text: Seq<char>, i: int) -> int
    decreases text.len() - i,
{
    if i >= text.len() || !is_word_char(text[i]) {
        i
    } else {
        word_end(text, i + 1)
    }
}

/// End of the run of blanks that starts at `i`.
pub open spec fn blank_end(text: Seq<char>, i: int) -> int
    decreases text.len() - i,
{
    if i >= text.len() || !is_blank(text[i]) {
        i
    } else {
        blank_end(text, i + 1)
    }
}

/// What the scanner does at one position of the text.
pub enum Scan {
    /// Blanks up to the given index.
    Skip(int),
    /// A token, and the index just past it.
    Emit(Tok, int),
    /// No token rule matches here.
    Fail,
}

/// The rule that applies at index `i` (`i` within the text). The first
/// character decides which rule can match:
/// a quoted string runs to the next `"`, a braced string to the next `)` and
/// holds at least one character, a comment runs through the next newline, and
/// a word is the longest run of word characters.
pub open spec fn scan_at(text: Seq<char>, i: int) -> Scan {
    let c = text[i];
    let n = text.len() as int;
    if is_blank(c) {
        Scan::Skip(blank_end(text, i))
    } else if c == '"' {
        let j = find_from(text, i + 1, '"');
        if j < n {
            Scan::Emit(Tok::QuotedString(text.subrange(i, j + 1)), j + 1)
        } else {
            Scan::Fail
        }
    } else if c == ';' {
        Scan::Emit(Tok::Semicolon, i + 1)
    } else if c == '(' {
        let j = find_from(text, i + 1, ')');
        if i + 1 < j < n {
            Scan::Emit(Tok::BracedString(text.subrange(i, j + 1)), j + 1)
        } else {
            Scan::Fail
        }
    } else if c == '#' {
        let j = find_from(text, i + 1, '\n');
        if j < n {
            Scan::Emit(Tok::Comment(text.subrange(i, j + 1)), j + 1)
        } else {
            Scan::Fail
        }
    } else if c == '\n' {
        Scan::Emit(Tok::Newline, i + 1)
    } else if c == '{' {
        Scan::Emit(Tok::BracketOpen, i + 1)
    } else if c == '}' {
        Scan::Emit(Tok::BracketClose, i + 1)
    } else if is_word_char(c) {
        Scan::Emit(Tok::Word(text.subrange(i, word_end(text, i))), word_end(text, i))
    } else {
        Scan::Fail
    }
}

/// Outcome of scanning a whole text.
pub enum Lexed {
    /// Every character belongs to a token or a run of blanks.
    Tokens(Seq<Tok>),
    /// The character at this index starts no token.
    Stuck(int),
}

/// The tokens of `text` from index `i` on.
pub open spec fn lex_from(text: Seq<char>, i: int) -> Lexed
    decreases text.len() - i,
{
    if i < 0 || i >= text.len() {
        Lexed::Tokens(seq![])
    } else {
        match scan_at(text, i) {
            Scan::Skip(j) => if i < j <= text.len() {
                lex_from(text, j)
            } else {
                Lexed::Stuck(i)
            },
            Scan::Emit(t, j) => if i < j <= text.len() {
                match lex_from(text, j) {
                    Lexed::Tokens(ts) => Lexed::Tokens(seq![t] + ts),
                    Lexed::Stuck(k) => Lexed::Stuck(k),
                }
            } else {
                Lexed::Stuck(i)
            },
            Scan::Fail => Lexed::Stuck(i),
        }
    }
}

/// The tokens of a whole text.
pub open spec fn lex(text: Seq<char>) -> Lexed {
    lex_from(text, 0)
}

/// `done` followed by what scanning yields after it.
pub open spec fn prepend(done: Seq<Tok>, rest: Lexed) -> Lexed {
    match rest {
        Lexed::Tokens(ts) => Lexed::Tokens(done + ts),
        Lexed::Stuck(k) => Lexed::Stuck(k),
    }
}

/// A character that starts no token, as a byte range of the source.
#[derive(Debug, Clone, Copy, PartialEq, Eq)]
pub struct LexError {
    pub start: usize,
    pub end: usize,
}

/// The error for a scan stuck at character index `k`: the bytes of that character.
pub open spec fn stuck_error(text: Seq<char>, k: int) -> LexError {
    LexError {
        start: byte_offset(text, k) as usize,
        end: (byte_offset(text, k) + char_width(text[k])) as usize,
    }
}

proof fn lemma_find_from(text: Seq<char>, i: int, c: char)
    requires
        0 <= i <= text.len(),
    ensures
        i <= find_from(text, i, c) <= text.len(),
        find_from(text, i, c) < text.len() ==> text[find_from(text, i, c)] == c,
        forall|k: int| i <= k < find_from(text, i, c) ==> text[k] != c,
    decreases text.len() - i,
{
    if i < text.len() && text[i] != c {
        lemma_find_from(text, i + 1, c);
    }
}

fn find_char(text: &Vec<char>, from: usize, c: char) -> (j: usize)
    requires
        from <= text.len(),
    ensures
        j == find_from(text@, from as int, c),
{
    let mut j = from;
    while j < text.len() && text[j] != c
        invariant
            from <= j <= text.len(),
            find_from(text@, j as int, c) == find_from(text@, from as int, c),
        decreases text.len() - j,
    {
        j = j + 1;
    }
    j
}

fn word_char(c: char) -> (r: bool)
    ensures
        r == is_word_char(c),
{
    if ('a' <= c && c <= 'z') || ('A' <= c && c <= 'Z') || ('0' <= c && c <= '9') || c == '_' {
        true
    } else if c == '[' || c == ']' || c == '=' || c == '^' || c == '$' || c == ':' || c == '-'
        || c == '+' || c == '!' || c == '*' || c == '~' || c == '\'' || c == '.' || c == '/' {
        true
    } else {
        (c as u32) > 0x7f && is_alphanumeric(c)
    }
}

fn word_end_at(text: &Vec<char>, from: usize) -> (j: usize)
    requires
        from <= text.len(),
    ensures
        j == word_end(text@, from as int),
        from <= j <= text.len(),
{
    let mut j = from;
    while j < text.len() && word_char(text[j])
        invariant
            from <= j <= text.len(),
            word_end(text@, j as int) == word_end(text@, from as int),
        decreases text.len() - j,
    {
        j = j + 1;
    }
    j
}

fn blank_end_at(text: &Vec<char>, from: usize) -> (j: usize)
    requires
        from <= text.len(),
    ensures
        j == blank_end(text@, from as int),
        from <= j <= text.len(),
{
    let mut j = from;
    while j < text.len() && (text[j] == ' ' || text[j] == '\t')
        invariant
            from <= j <= text.len(),
            blank_end(text@, j as int) == blank_end(text@, from as int),
        decreases text.len() - j,
    {
        j = j + 1;
    }
    j
}

/// The rule that applies at index `i`, as the executable scanner sees it:
/// `Ok(None)` for blanks, `Ok(Some(t))` for a token, `Err(())` for no rule;
/// with the index just past what was read.
fn scan_one(text: &Vec<char>, i: usize) -> (r: (Result<Option<Token>, ()>, usize))
    requires
        i < text.len(),
    ensures
        match scan_at(text@, i as int) {
            Scan::Skip(j) => r.0 == Ok::<Option<Token>, ()>(None) && r.1 == j && j > i,
            Scan::Emit(t, j) => r.0 is Ok && r.0->Ok_0 is Some && r.0->Ok_0->Some_0@ == t && r.1
                == j && j > i,
            Scan::Fail => r.0 is Err,
        },
        r.1 <= text.len(),
{
    let c = text[i];
    let n = text.len();
    if c == ' ' || c == '\t' {
        let j = blank_end_at(text, i + 1);
        (Ok(None), j)
    } else if c == '"' {
        let j = find_char(text, i + 1, '"');
        proof {
            lemma_find_from(text@, i + 1, '"');
        }
        if j < n {
            (Ok(Some(Token::QuotedString(string_of(text, i, j + 1)))), j + 1)
        } else {
            (Err(()), i)
        }
    } else if c == ';' {
        (Ok(Some(Token::Semicolon)), i + 1)
    } else if c == '(' {
        let j = find_char(text, i + 1, ')');
        proof {
            lemma_find_from(text@, i + 1, ')');
        }
        if i + 1 < j && j < n {
            (Ok(Some(Token::BracedString(string_of(text, i, j + 1)))), j + 1)
        } else {
            (Err(()), i)
        }
    } else if c == '#' {
        let j = find_char(text, i + 1, '\n');
        proof {
            lemma_find_from(text@, i + 1, '\n');
        }
        if j < n {
            (Ok(Some(Token::Comment(string_of(text, i, j + 1)))), j + 1)
        } else {
            (Err(()), i)
        }
    } else if c == '\n' {
        (Ok(Some(Token::Newline)), i + 1)
    } else if c == '{' {
        (Ok(Some(Token::BracketOpen)), i + 1)
    } else if c == '}' {
        (Ok(Some(Token::BracketClose)), i + 1)
    } else if word_char(c) {
        let j = word_end_at(text, i + 1);
        (Ok(Some(Token::Word(string_of(text, i, j)))), j)
    } else {
        (Err(()), i)
    }
}

/// The characters of a string, in order.
pub fn chars_of(cfg: &str) -> (r: Vec<char>)
    ensures
        r@ == cfg@,
{
    let mut out: Vec<char> = Vec::new();
    for c in it: cfg.chars()
        invariant
            out@ == it.seq().take(it.index() as int),
            it.seq() == cfg@,
    {
        out.push(c);
    }
    out
}

/// Splits `cfg` into tokens, in source order. Blanks between tokens are
/// dropped; comments and newlines are kept as tokens. Fails with the byte
/// range of the first character at which no token rule matches.
pub fn tokenize(cfg: &str) -> (r: Result<Vec<Token>, LexError>)
    ensures
        match lex(cfg@) {
            Lexed::Tokens(ts) => r is Ok && toks_view(r->Ok_0@) == ts,
            Lexed::Stuck(k) => r == Err::<Vec<Token>, LexError>(stuck_error(cfg@, k)),
        },
{
    let total = cfg.as_bytes().len();
    let text = chars_of(cfg);
    proof {
        lemma_utf8_len_encoding(cfg@);
    }
    let n = text.len();
    let mut toks: Vec<Token> = Vec::new();
    let mut i: usize = 0;
    let mut b: usize = 0;
    while i < n
        invariant
            n == text.len(),
            text@ == cfg@,
            i <= n,
            utf8_len(text@) == total,
            b == byte_offset(text@, i as int),
            lex(text@) == prepend(toks_view(toks@), lex_from(text@, i as int)),
        decreases n - i,
    {
        let (step, j) = scan_one(&text, i);
        match step {
            Err(()) => {
                proof {
                    lemma_byte_offset_step(text@, i as int);
                }
                let w = width_of(text[i]);
                return Err(LexError { start: b, end: b + w });
            },
            Ok(found) => {
                let ghost old_toks = toks@;
                match found {
                    Some(t) => {
                        toks.push(t);
                        proof {
                            let tv = toks@.last()@;
                            assert(toks_view(toks@) =~= toks_view(old_toks) + seq![tv]);
                            match lex_from(text@, j as int) {
                                Lexed::Tokens(ts) => {
                                    assert(toks_view(old_toks) + (seq![tv] + ts)
                                        =~= toks_view(old_toks) + seq![tv] + ts);
                                },
                                Lexed::Stuck(_) => {},
                            }
                        }
                    },
                    None => {},
                }
                let mut k = i;
                while k < j
                    invariant
                        i <= k <= j <= n,
                        n == text.len(),
                        utf8_len(text@) == total,
                        b == byte_offset(text@, k as int),
                    decreases j - k,
                {
                    proof {
                        lemma_byte_offset_step(text@, k as int);
                    }
                    b = b + width_of(text[k]);
                    k = k + 1;
                }
                i = j;
            },
        }
    }
    Ok(toks)
}

} // verus!
