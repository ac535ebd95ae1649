//! Lexer: turns source text into the token stream that the CFG builder
//! consumes.
//!
//! Tokens are the seven single-character symbols, identifiers
//! (`[A-Za-z0-9_]+`), and the reserved words `if`, `else` and `while`.
//! Whitespace separates tokens; any other character carries no token.
use vstd::prelude::*;

verus! {

/// An executable token. Identifier tokens carry their name.
#[derive(Debug, PartialEq, Eq)]
pub enum Token {
    Var(String),
    Ampersand,
    Star,
    Semicolon,
    Assign,
    LeftBrace,
    RightBrace,
    Sharp,
    If,
    Else,
    While,
}

/// The mathematical counterpart of [`Token`]: identifier names are
/// sequences of characters.
pub enum Tokv {
    Var(Seq<char>),
    Ampersand,
    Star,
    Semicolon,
    Assign,
    LeftBrace,
    RightBrace,
    Sharp,
    If,
    Else,
    While,
}

impl View for Token {
    type V = Tokv;

    open spec fn view(&self) -> Tokv {
        match self {
            Token::Var(s) => Tokv::Var(s@),
            Token::Ampersand => Tokv::Ampersand,
            Token::Star => Tokv::Star,
            Token::Semicolon => Tokv::Semicolon,
            Token::Assign => Tokv::Assign,
            Token::LeftBrace => Tokv::LeftBrace,
            Token::RightBrace => Tokv::RightBrace,
            Token::Sharp => Tokv::Sharp,
            Token::If => Tokv::If,
            Token::Else => Tokv::Else,
            Token::While => Tokv::While,
        }
    }
}

/// The token stream a vector of tokens stands for.
pub open spec fn tokens_view(ts: Seq<Token>) -> Seq<Tokv> {
    ts.map_values(|t: Token| t@)
}

/// Identifier characters: ASCII letters, digits and the underscore.
pub open spec fn is_ident_char(c: char) -> bool {
    let u = c as u32;
    (('a' as u32) <= u && u <= ('z' as u32)) || (('A' as u32) <= u && u <= ('Z' as u32)) || ((
    '0' as u32) <= u && u <= ('9' as u32)) || u == ('_' as u32)
}

/// The position right after the identifier that starts at `i` (or `i`
/// itself when no identifier starts there).
pub open spec fn ident_end(s: Seq<char>, i: int) -> int
    decreases s.len() - i,
    when 0 <= i <= s.len()
{
    if i >= s.len() || !is_ident_char(s[i]) {
        i
    } else {
        ident_end(s, i + 1)
    }
}

/// The token an identifier word stands for: a reserved word or a variable.
pub open spec fn token_of_word(w: Seq<char>) -> Tokv {
    if w == "while"@ {
        Tokv::While
    } else if w == "if"@ {
        Tokv::If
    } else if w == "else"@ {
        Tokv::Else
    } else {
        Tokv::Var(w)
    }
}

/// The token stream of the source text from position `i` on.
pub open spec fn spec_tokens(s: Seq<char>, i: int) -> Seq<Tokv>
    decreases s.len() - i,
    when 0 <= i <= s.len()
    via spec_tokens_dec
{
    if i >= s.len() {
        Seq::empty()
    } else {
        let c = s[i];
        if c == '&' {
            seq![Tokv::Ampersand] + spec_tokens(s, i + 1)
        } else if c == '*' {
            seq![Tokv::Star] + spec_tokens(s, i + 1)
        } else if c == ';' {
            seq![Tokv::Semicolon] + spec_tokens(s, i + 1)
        } else if c == '=' {
            seq![Tokv::Assign] + spec_tokens(s, i + 1)
        } else if c == '{' {
            seq![Tokv::LeftBrace] + spec_tokens(s, i + 1)
        } else if c == '}' {
            seq![Tokv::RightBrace] + spec_tokens(s, i + 1)
        } else if c == '#' {
            seq![Tokv::Sharp] + spec_tokens(s, i + 1)
        } else if is_ident_char(c) {
            let j = ident_end(s, i);
            seq![token_of_word(s.subrange(i, j))] + spec_tokens(s, j)
        } else {
            spec_tokens(s, i + 1)
        }
    }
}

#[via_fn]
proof fn spec_tokens_dec(s: Seq<char>, i: int) {
    if 0 <= i < s.len() && is_ident_char(s[i]) {
        lemma_ident_end(s, i);
    }
}

/// `ident_end` lands between `i` and the end of the text, right after a
/// run of identifier characters, and moves at least one step when an
/// identifier character stands at `i`.
pub proof fn lemma_ident_end(s: Seq<char>, i: int)
    requires
        0 <= i <= s.len(),
    ensures
        i <= ident_end(s, i) <= s.len(),
        i < s.len() && is_ident_char(s[i]) ==> ident_end(s, i) > i,
    decreases s.len() - i,
{
    if i < s.len() && is_ident_char(s[i]) {
        lemma_ident_end(s, i + 1);
    }
}

/// A maximal run of identifier characters pins `ident_end` down.
proof fn lemma_ident_end_unique(s: Seq<char>, i: int, j: int)
    requires
        0 <= i <= j <= s.len(),
        forall|k: int| i <= k < j ==> is_ident_char(#[trigger] s[k]),
        j == s.len() || !is_ident_char(s[j]),
    ensures
        ident_end(s, i) == j,
    decreases j - i,
{
    if i < j {
        lemma_ident_end_unique(s, i + 1, j);
    }
}

/// Whether two string slices hold the same characters.
fn str_eq(a: &str, b: &str) -> (r: bool)
    ensures
        r == (a@ == b@),
{
    let na = a.unicode_len();
    let nb = b.unicode_len();
    if na != nb {
        return false;
    }
    let mut i: usize = 0;
    while i < na
        invariant
            i <= na,
            na == a@.len(),
            na == b@.len(),
            forall|k: int| 0 <= k < i ==> a@[k] == b@[k],
        decreases na - i,
    {
        if a.get_char(i) != b.get_char(i) {
            return false;
        }
        i += 1;
    }
    proof {
        assert(a@ =~= b@);
    }
    true
}

/// Whether `c` is an identifier character.
fn ident_char(c: char) -> (r: bool)
    ensures
        r == is_ident_char(c),
{
    let u = c as u32;
    (('a' as u32) <= u && u <= ('z' as u32)) || (('A' as u32) <= u && u <= ('Z' as u32)) || ((
    '0' as u32) <= u && u <= ('9' as u32)) || u == ('_' as u32)
}

/// Whether an identifier character stands at position `i`.
fn ident_char_at(source: &str, i: usize) -> (r: bool)
    requires
        i < source@.len(),
    ensures
        r == is_ident_char(source@[i as int]),
{
    ident_char(source.get_char(i))
}

/// Scan the source text into its token stream.
pub fn get_tokens(source: &str) -> (tokens: Vec<Token>)
    ensures
        tokens_view(tokens@) == spec_tokens(source@, 0),
{
    let ghost s = source@;
    let n = source.unicode_len();
    let mut toks: Vec<Token> = Vec::new();
    let mut i: usize = 0;
    while i < n
        invariant
            i <= n,
            n == s.len(),
            s == source@,
            spec_tokens(s, 0) == tokens_view(toks@) + spec_tokens(s, i as int),
        decreases n - i,
    {
        let ghost pre = toks@;
        let ghost i0 = i as int;
        let c = source.get_char(i);
        if c == '&' {
            toks.push(Token::Ampersand);
            i += 1;
        } else if c == '*' {
            toks.push(Token::Star);
            i += 1;
        } else if c == ';' {
            toks.push(Token::Semicolon);
            i += 1;
        } else if c == '=' {
            toks.push(Token::Assign);
            i += 1;
        } else if c == '{' {
            toks.push(Token::LeftBrace);
            i += 1;
        } else if c == '}' {
            toks.push(Token::RightBrace);
            i += 1;
        } else if c == '#' {
            toks.push(Token::Sharp);
            i += 1;
        } else if ident_char(c) {
            let start = i;
            i += 1;
            while i < n && ident_char_at(source, i)
                invariant
                    start < i <= n,
                    n == s.len(),
                    s == source@,
                    forall|k: int| start <= k < i ==> is_ident_char(#[trigger] s[k]),
                decreases n - i,
            {
                i += 1;
            }
            proof {
                lemma_ident_end_unique(s, start as int, i as int);
            }
            let word = source.substring_char(start, i).to_owned();
            let tok = if str_eq(word.as_str(), "while") {
                Token::While
            } else if str_eq(word.as_str(), "if") {
                Token::If
            } else if str_eq(word.as_str(), "else") {
                Token::Else
            } else {
                Token::Var(word)
            };
            proof {
                assert(tok@ == token_of_word(s.subrange(start as int, i as int)));
            }
            toks.push(tok);
        } else {
            i += 1;
        }
        proof {
            if toks@.len() > pre.len() {
                let t = toks@.last();
                assert(tokens_view(toks@) =~= tokens_view(pre).push(t@));
                assert(spec_tokens(s, i0) == seq![t@] + spec_tokens(s, i as int));
                assert(tokens_view(pre) + spec_tokens(s, i0) =~= tokens_view(toks@) + spec_tokens(
                    s,
                    i as int,
                ));
            } else {
                assert(spec_tokens(s, i0) == spec_tokens(s, i as int));
            }
        }
    }
    proof {
        assert(spec_tokens(s, n as int) =~= Seq::empty());
        assert(tokens_view(toks@) + spec_tokens(s, n as int) =~= tokens_view(toks@));
    }
    toks
}

} // verus!
