//! CFG builder: consumes the token stream and emits a flat,
//! index-addressed instruction array that is at once the program's
//! syntax and its control-flow graph (edges are array positions).
//!
//! Control constructs are emitted with placeholder branches whose target
//! lists are back-patched once the controlled block has been emitted.
//! The grammar is:
//!
//! ```text
//! Program    := Stmt*
//! Stmt       := RefStmt | AliasStmt | DerefReadStmt | DerefWriteStmt
//!             | IfStmt | WhileStmt | CheckStmt | ';'
//! RefStmt        := IDENT '=' '&' IDENT ';'
//! AliasStmt      := IDENT '=' IDENT ';'
//! DerefReadStmt  := IDENT '=' '*' IDENT ';'
//! DerefWriteStmt := '*' IDENT '=' IDENT ';'
//! IfStmt     := 'if' '{' Stmt* '}' ('else' '{' Stmt* '}')?
//! WhileStmt  := 'while' '{' Stmt* '}'
//! CheckStmt  := '#' IDENT
//! ```
use vstd::prelude::*;

use crate::lexer::Token;
use crate::lexer::Tokv;
use crate::lexer::tokens_view;

verus! {

/// A pointer statement; every kind carries a left and a right operand.
#[derive(Debug, PartialEq, Eq)]
pub enum Stmt {
    /// `lhs = &rhs`
    Ref { lhs: String, rhs: String },
    /// `lhs = rhs`
    Alias { lhs: String, rhs: String },
    /// `lhs = *rhs`
    DerefRead { lhs: String, rhs: String },
    /// `*lhs = rhs`
    DerefWrite { lhs: String, rhs: String },
}

/// The mathematical counterpart of [`Stmt`].
pub enum Stmtv {
    Ref { lhs: Seq<char>, rhs: Seq<char> },
    Alias { lhs: Seq<char>, rhs: Seq<char> },
    DerefRead { lhs: Seq<char>, rhs: Seq<char> },
    DerefWrite { lhs: Seq<char>, rhs: Seq<char> },
}

impl View for Stmt {
    type V = Stmtv;

    open spec fn view(&self) -> Stmtv {
        match self {
            Stmt::Ref { lhs, rhs } => Stmtv::Ref { lhs: lhs@, rhs: rhs@ },
            Stmt::Alias { lhs, rhs } => Stmtv::Alias { lhs: lhs@, rhs: rhs@ },
            Stmt::DerefRead { lhs, rhs } => Stmtv::DerefRead { lhs: lhs@, rhs: rhs@ },
            Stmt::DerefWrite { lhs, rhs } => Stmtv::DerefWrite { lhs: lhs@, rhs: rhs@ },
        }
    }
}

/// One instruction of the flat control-flow graph.
#[derive(Debug, PartialEq, Eq)]
pub enum IR {
    /// A pointer statement; falls through to the next position.
    Stmt(Stmt),
    /// An explicit multi-way branch; its successors are exactly the
    /// listed positions, with no implicit fallthrough.
    Branch(Vec<usize>),
    /// A checkpoint marker carrying a tag for the reporter.
    Check(String),
    /// A structural merge point with no effect.
    Nop,
}

/// The mathematical counterpart of [`IR`].
pub enum IRv {
    Stmt(Stmtv),
    Branch(Seq<int>),
    Check(Seq<char>),
    Nop,
}

impl View for IR {
    type V = IRv;

    open spec fn view(&self) -> IRv {
        match self {
            IR::Stmt(s) => IRv::Stmt(s@),
            IR::Branch(ts) => IRv::Branch(targets_view(ts@)),
            IR::Check(tag) => IRv::Check(tag@),
            IR::Nop => IRv::Nop,
        }
    }
}

/// The target positions a vector of branch targets stands for.
pub open spec fn targets_view(ts: Seq<usize>) -> Seq<int> {
    ts.map_values(|u: usize| u as int)
}

/// The instruction sequence a vector of instructions stands for.
pub open spec fn irs_view(irs: Seq<IR>) -> Seq<IRv> {
    irs.map_values(|x: IR| x@)
}

/// An instruction sequence is as long as the vector it views.
pub broadcast proof fn lemma_irs_view_len(irs: Seq<IR>)
    ensures
        #[trigger] irs_view(irs).len() == irs.len(),
{
}

/// An instruction sequence views its vector element by element.
pub broadcast proof fn lemma_irs_view_index(irs: Seq<IR>, k: int)
    requires
        0 <= k < irs.len(),
    ensures
        #![trigger irs_view(irs), irs[k]]
        irs_view(irs)[k] == irs[k]@,
{
}

/// Why the builder rejected a token stream.
#[derive(Debug, PartialEq, Eq)]
pub enum ParseError {
    /// The token at this position does not match the grammar.
    SyntaxError(usize),
    /// A statement or block is left unterminated at the end of input.
    UnexpectedEndOfInput,
}

/// Tokens that may start a statement.
pub open spec fn starts_stmt(t: Tokv) -> bool {
    t is Var || t is Star || t is If || t is While || t is Sharp || t is Semicolon
}

/// `j` clamped into `[lo, hi]`.
pub open spec fn clamp_pos(j: int, lo: int, hi: int) -> int {
    if j < lo {
        lo
    } else if j > hi {
        hi
    } else {
        j
    }
}

/// Every branch in an emitted block is patched: its target list is
/// non-empty and lies within the block's own position window.
pub open spec fn branch_targets_in(ts: Seq<int>, lo: int, hi: int) -> bool {
    ts.len() > 0 && (forall|m: int| 0 <= m < ts.len() ==> lo <= #[trigger] ts[m] < hi)
}

/// All branches of a block emitted at position `base` are patched and
/// point into the block itself.
pub open spec fn emitted_wf(irs: Seq<IRv>, base: int) -> bool {
    forall|k: int|
        0 <= k < irs.len() && #[trigger] irs[k] is Branch ==> branch_targets_in(
            irs[k]->Branch_0,
            base,
            base + irs.len(),
        )
}

/// The builder's post-condition on a finished instruction array: every
/// branch has a non-empty target list, and every target is a valid
/// position or one position past the end (program exit).
pub open spec fn wf_instrs(irs: Seq<IRv>) -> bool {
    forall|k: int|
        0 <= k < irs.len() && #[trigger] irs[k] is Branch ==> branch_targets_in(
            irs[k]->Branch_0,
            0,
            irs.len() + 1 as int,
        )
}

/// Parse `IDENT '=' '&' IDENT ';'` at position `i`.
pub open spec fn sp_ref_stmt(t: Seq<Tokv>, i: int) -> Result<(int, Seq<IRv>), ParseError> {
    if !(t[i] is Var) {
        Err(ParseError::SyntaxError(i as usize))
    } else if i + 1 >= t.len() {
        Err(ParseError::UnexpectedEndOfInput)
    } else if !(t[i + 1] is Assign) {
        Err(ParseError::SyntaxError((i + 1) as usize))
    } else if i + 2 >= t.len() {
        Err(ParseError::UnexpectedEndOfInput)
    } else if !(t[i + 2] is Ampersand) {
        Err(ParseError::SyntaxError((i + 2) as usize))
    } else if i + 3 >= t.len() {
        Err(ParseError::UnexpectedEndOfInput)
    } else if !(t[i + 3] is Var) {
        Err(ParseError::SyntaxError((i + 3) as usize))
    } else if i + 4 >= t.len() {
        Err(ParseError::UnexpectedEndOfInput)
    } else if !(t[i + 4] is Semicolon) {
        Err(ParseError::SyntaxError((i + 4) as usize))
    } else {
        Ok(
            (
                i + 5,
                seq![IRv::Stmt(Stmtv::Ref { lhs: t[i]->Var_0, rhs: t[i + 3]->Var_0 })],
            ),
        )
    }
}

/// Parse `IDENT '=' IDENT ';'` at position `i`.
pub open spec fn sp_alias_stmt(t: Seq<Tokv>, i: int) -> Result<(int, Seq<IRv>), ParseError> {
    if !(t[i] is Var) {
        Err(ParseError::SyntaxError(i as usize))
    } else if i + 1 >= t.len() {
        Err(ParseError::UnexpectedEndOfInput)
    } else if !(t[i + 1] is Assign) {
        Err(ParseError::SyntaxError((i + 1) as usize))
    } else if i + 2 >= t.len() {
        Err(ParseError::UnexpectedEndOfInput)
    } else if !(t[i + 2] is Var) {
        Err(ParseError::SyntaxError((i + 2) as usize))
    } else if i + 3 >= t.len() {
        Err(ParseError::UnexpectedEndOfInput)
    } else if !(t[i + 3] is Semicolon) {
        Err(ParseError::SyntaxError((i + 3) as usize))
    } else {
        Ok(
            (
                i + 4,
                seq![IRv::Stmt(Stmtv::Alias { lhs: t[i]->Var_0, rhs: t[i + 2]->Var_0 })],
            ),
        )
    }
}

/// Parse `IDENT '=' '*' IDENT ';'` at position `i`.
pub open spec fn sp_deref_read_stmt(t: Seq<Tokv>, i: int) -> Result<(int, Seq<IRv>), ParseError> {
    if !(t[i] is Var) {
        Err(ParseError::SyntaxError(i as usize))
    } else if i + 1 >= t.len() {
        Err(ParseError::UnexpectedEndOfInput)
    } else if !(t[i + 1] is Assign) {
        Err(ParseError::SyntaxError((i + 1) as usize))
    } else if i + 2 >= t.len() {
        Err(ParseError::UnexpectedEndOfInput)
    } else if !(t[i + 2] is Star) {
        Err(ParseError::SyntaxError((i + 2) as usize))
    } else if i + 3 >= t.len() {
        Err(ParseError::UnexpectedEndOfInput)
    } else if !(t[i + 3] is Var) {
        Err(ParseError::SyntaxError((i + 3) as usize))
    } else if i + 4 >= t.len() {
        Err(ParseError::UnexpectedEndOfInput)
    } else if !(t[i + 4] is Semicolon) {
        Err(ParseError::SyntaxError((i + 4) as usize))
    } else {
        Ok(
            (
                i + 5,
                seq![IRv::Stmt(Stmtv::DerefRead { lhs: t[i]->Var_0, rhs: t[i + 3]->Var_0 })],
            ),
        )
    }
}

/// Parse `'*' IDENT '=' IDENT ';'` at position `i`.
pub open spec fn sp_deref_write_stmt(t: Seq<Tokv>, i: int) -> Result<(int, Seq<IRv>), ParseError> {
    if !(t[i] is Star) {
        Err(ParseError::SyntaxError(i as usize))
    } else if i + 1 >= t.len() {
        Err(ParseError::UnexpectedEndOfInput)
    } else if !(t[i + 1] is Var) {
        Err(ParseError::SyntaxError((i + 1) as usize))
    } else if i + 2 >= t.len() {
        Err(ParseError::UnexpectedEndOfInput)
    } else if !(t[i + 2] is Assign) {
        Err(ParseError::SyntaxError((i + 2) as usize))
    } else if i + 3 >= t.len() {
        Err(ParseError::UnexpectedEndOfInput)
    } else if !(t[i + 3] is Var) {
        Err(ParseError::SyntaxError((i + 3) as usize))
    } else if i + 4 >= t.len() {
        Err(ParseError::UnexpectedEndOfInput)
    } else if !(t[i + 4] is Semicolon) {
        Err(ParseError::SyntaxError((i + 4) as usize))
    } else {
        Ok(
            (
                i + 5,
                seq![
                    IRv::Stmt(Stmtv::DerefWrite { lhs: t[i + 1]->Var_0, rhs: t[i + 3]->Var_0 }),
                ],
            ),
        )
    }
}

/// Parse `'#' IDENT` at position `i`.
pub open spec fn sp_check_stmt(t: Seq<Tokv>, i: int) -> Result<(int, Seq<IRv>), ParseError> {
    if !(t[i] is Sharp) {
        Err(ParseError::SyntaxError(i as usize))
    } else if i + 1 >= t.len() {
        Err(ParseError::UnexpectedEndOfInput)
    } else if !(t[i + 1] is Var) {
        Err(ParseError::SyntaxError((i + 1) as usize))
    } else {
        Ok((i + 2, seq![IRv::Check(t[i + 1]->Var_0)]))
    }
}

/// Parse an `if` statement at position `i`, emitting at position `base`.
///
/// Emits `Branch₁ A Branch₂ B? Nop`; `Branch₁` targets the start of `A`,
/// the start of `B` when present, and the merge point; `Branch₂` targets
/// the merge point.
pub open spec fn sp_if_stmt(t: Seq<Tokv>, i: int, base: int) -> Result<
    (int, Seq<IRv>),
    ParseError,
>
    decreases t.len() - i, 1int,
    when 0 <= i < t.len()
{
    if !(t[i] is If) {
        Err(ParseError::SyntaxError(i as usize))
    } else if i + 1 >= t.len() {
        Err(ParseError::UnexpectedEndOfInput)
    } else if !(t[i + 1] is LeftBrace) {
        Err(ParseError::SyntaxError((i + 1) as usize))
    } else {
        match sp_stmts(t, i + 2, base + 1) {
            Err(e) => Err(e),
            Ok((j1r, a)) => {
                let j1 = clamp_pos(j1r, i + 2, t.len() as int);
                if j1 >= t.len() {
                    Err(ParseError::UnexpectedEndOfInput)
                } else if !(t[j1] is RightBrace) {
                    Err(ParseError::SyntaxError(j1 as usize))
                } else if j1 + 2 < t.len() && t[j1 + 1] is Else {
                    if !(t[j1 + 2] is LeftBrace) {
                        Err(ParseError::SyntaxError((j1 + 2) as usize))
                    } else {
                        match sp_stmts(t, j1 + 3, base + 2 + a.len()) {
                            Err(e) => Err(e),
                            Ok((j2r, b)) => {
                                let j2 = clamp_pos(j2r, j1 + 3, t.len() as int);
                                if j2 >= t.len() {
                                    Err(ParseError::UnexpectedEndOfInput)
                                } else if !(t[j2] is RightBrace) {
                                    Err(ParseError::SyntaxError(j2 as usize))
                                } else {
                                    let l1 = base + 1;
                                    let l2 = base + 2 + a.len();
                                    let l3 = base + 2 + a.len() + b.len();
                                    Ok(
                                        (
                                            j2 + 1,
                                            seq![IRv::Branch(seq![l1, l2, l3])] + a + seq![
                                                IRv::Branch(seq![l3]),
                                            ] + b + seq![IRv::Nop],
                                        ),
                                    )
                                }
                            },
                        }
                    }
                } else if j1 + 1 < t.len() && t[j1 + 1] is Else {
                    Err(ParseError::UnexpectedEndOfInput)
                } else {
                    let l1 = base + 1;
                    let l3 = base + 2 + a.len();
                    Ok(
                        (
                            j1 + 1,
                            seq![IRv::Branch(seq![l1, l3])] + a + seq![IRv::Branch(seq![l3])] + seq![
                                IRv::Nop,
                            ],
                        ),
                    )
                }
            },
        }
    }
}

/// Parse a `while` statement at position `i`, emitting at position
/// `base`.
///
/// Emits `Branch₁ A Branch₂ Nop`; both branches target the loop body's
/// start (the back edge) and the exit merge point.
pub open spec fn sp_while_stmt(t: Seq<Tokv>, i: int, base: int) -> Result<
    (int, Seq<IRv>),
    ParseError,
>
    decreases t.len() - i, 1int,
    when 0 <= i < t.len()
{
    if !(t[i] is While) {
        Err(ParseError::SyntaxError(i as usize))
    } else if i + 1 >= t.len() {
        Err(ParseError::UnexpectedEndOfInput)
    } else if !(t[i + 1] is LeftBrace) {
        Err(ParseError::SyntaxError((i + 1) as usize))
    } else {
        match sp_stmts(t, i + 2, base + 1) {
            Err(e) => Err(e),
            Ok((j1r, a)) => {
                let j1 = clamp_pos(j1r, i + 2, t.len() as int);
                if j1 >= t.len() {
                    Err(ParseError::UnexpectedEndOfInput)
                } else if !(t[j1] is RightBrace) {
                    Err(ParseError::SyntaxError(j1 as usize))
                } else {
                    let l1 = base + 1;
                    let l2 = base + 2 + a.len();
                    Ok(
                        (
                            j1 + 1,
                            seq![IRv::Branch(seq![l1, l2])] + a + seq![IRv::Branch(seq![l1, l2])]
                                + seq![IRv::Nop],
                        ),
                    )
                }
            },
        }
    }
}

/// Parse one statement at position `i`, emitting at position `base`.
///
/// A statement starting with an identifier is disambiguated by the token
/// two positions ahead: `&` begins a reference, `*` a load, and another
/// identifier a copy.
pub open spec fn sp_stmt(t: Seq<Tokv>, i: int, base: int) -> Result<(int, Seq<IRv>), ParseError>
    decreases t.len() - i, 2int,
    when 0 <= i < t.len()
{
    match t[i] {
        Tokv::If => sp_if_stmt(t, i, base),
        Tokv::While => sp_while_stmt(t, i, base),
        Tokv::Star => sp_deref_write_stmt(t, i),
        Tokv::Sharp => sp_check_stmt(t, i),
        Tokv::Semicolon => Ok((i + 1, Seq::empty())),
        Tokv::Var(_) => {
            if i + 2 >= t.len() {
                Err(ParseError::UnexpectedEndOfInput)
            } else {
                match t[i + 2] {
                    Tokv::Ampersand => sp_ref_stmt(t, i),
                    Tokv::Star => sp_deref_read_stmt(t, i),
                    Tokv::Var(_) => sp_alias_stmt(t, i),
                    _ => Err(ParseError::SyntaxError((i + 2) as usize)),
                }
            }
        },
        _ => Err(ParseError::SyntaxError(i as usize)),
    }
}

/// Parse a run of statements from position `i` on, emitting at position
/// `base`; stops in front of the first token that cannot start a
/// statement.
pub open spec fn sp_stmts(t: Seq<Tokv>, i: int, base: int) -> Result<(int, Seq<IRv>), ParseError>
    decreases t.len() - i, 3int,
    when 0 <= i <= t.len()
{
    if i >= t.len() {
        Ok((i, Seq::empty()))
    } else if !starts_stmt(t[i]) {
        Ok((i, Seq::empty()))
    } else {
        match sp_stmt(t, i, base) {
            Err(e) => Err(e),
            Ok((jr, irs)) => {
                let j = clamp_pos(jr, i + 1, t.len() as int);
                match sp_stmts(t, j, base + irs.len()) {
                    Err(e) => Err(e),
                    Ok((k, rest)) => Ok((k, irs + rest)),
                }
            },
        }
    }
}

/// Parse a whole program: a run of statements that must consume every
/// token, followed by the end-of-program checkpoint.
pub open spec fn sp_parse(t: Seq<Tokv>) -> Result<Seq<IRv>, ParseError> {
    match sp_stmts(t, 0, 0) {
        Err(e) => Err(e),
        Ok((j, irs)) => {
            if j < t.len() {
                Err(ParseError::SyntaxError(j as usize))
            } else {
                Ok(irs.push(IRv::Check("(End)"@)))
            }
        },
    }
}

/// How one step of the builder relates to its specification: on
/// success the reader stands at the specified position and exactly the
/// specified instructions were appended; on failure the errors agree.
pub open spec fn emits(
    r: Result<(), ParseError>,
    sp: Result<(int, Seq<IRv>), ParseError>,
    new_i: int,
    old_irs: Seq<IRv>,
    new_irs: Seq<IRv>,
) -> bool {
    match r {
        Ok(_) => sp is Ok && sp->Ok_0.0 == new_i && new_irs == old_irs + sp->Ok_0.1,
        Err(e) => sp == Err::<(int, Seq<IRv>), ParseError>(e),
    }
}

/// A cursor over the token stream with two-token lookahead.
struct TokenReader {
    tokens: Vec<Token>,
    i: usize,
}

impl TokenReader {
    /// The token stream being read.
    spec fn toks(&self) -> Seq<Tokv> {
        tokens_view(self.tokens@)
    }

    /// The cursor never passes the end of the stream.
    spec fn wf(&self) -> bool {
        self.i <= self.tokens@.len()
    }

    /// The token under the cursor.
    fn peek(&self) -> (t: &Token)
        requires
            self.i < self.tokens@.len(),
        ensures
            t@ == self.toks()[self.i as int],
    {
        &self.tokens[self.i]
    }

    /// The token `offset` positions ahead of the cursor, if any.
    fn peek_forward(&self, offset: usize) -> (t: Option<&Token>)
        requires
            self.wf(),
        ensures
            self.tokens@.len() <= usize::MAX,
            match t {
                Some(tok) => self.i + offset < self.tokens@.len() && tok@ == self.toks()[self.i
                    + offset],
                None => self.i + offset >= self.tokens@.len(),
            },
    {
        if self.tokens.len() - self.i > offset {
            Some(&self.tokens[self.i + offset])
        } else {
            None
        }
    }

    /// Advance the cursor by one token, unless at the end.
    fn next(&mut self)
        requires
            old(self).wf(),
        ensures
            final(self).wf(),
            final(self).tokens == old(self).tokens,
            final(self).i == if old(self).i < old(self).tokens@.len() {
                old(self).i + 1
            } else {
                old(self).i as int
            },
    {
        if self.i < self.tokens.len() {
            self.i = self.i + 1;
        }
    }

    /// Whether the cursor stands at the end of the stream.
    fn is_eof(&self) -> (r: bool)
        ensures
            r == (self.i == self.tokens@.len()),
    {
        self.tokens.len() == self.i
    }
}

/// Parse `IDENT '=' '&' IDENT ';'` and append one `Ref` statement.
fn parse_ref_stmt(reader: &mut TokenReader, ir: &mut Vec<IR>) -> (r: Result<(), ParseError>)
    requires
        old(reader).wf(),
        old(reader).i < old(reader).tokens@.len(),
    ensures
        final(reader).tokens == old(reader).tokens,
        final(reader).wf(),
        emits(
            r,
            sp_ref_stmt(old(reader).toks(), old(reader).i as int),
            final(reader).i as int,
            irs_view(old(ir)@),
            irs_view(final(ir)@),
        ),
        r is Ok ==> final(reader).i > old(reader).i,
{
    let ghost t = reader.toks();
    let ghost pre = irs_view(ir@);
    let lhs = match reader.peek() {
        Token::Var(s) => s.clone(),
        _ => { return Err(ParseError::SyntaxError(reader.i)) },
    };
    reader.next();  // identifier
    if reader.is_eof() {
        return Err(ParseError::UnexpectedEndOfInput);
    }
    match reader.peek() {
        Token::Assign => (),
        _ => { return Err(ParseError::SyntaxError(reader.i)) },
    }
    reader.next();  // '='
    if reader.is_eof() {
        return Err(ParseError::UnexpectedEndOfInput);
    }
    match reader.peek() {
        Token::Ampersand => (),
        _ => { return Err(ParseError::SyntaxError(reader.i)) },
    }
    reader.next();  // '&'
    if reader.is_eof() {
        return Err(ParseError::UnexpectedEndOfInput);
    }
    let rhs = match reader.peek() {
        Token::Var(s) => s.clone(),
        _ => { return Err(ParseError::SyntaxError(reader.i)) },
    };
    reader.next();  // identifier
    if reader.is_eof() {
        return Err(ParseError::UnexpectedEndOfInput);
    }
    match reader.peek() {
        Token::Semicolon => (),
        _ => { return Err(ParseError::SyntaxError(reader.i)) },
    }
    reader.next();  // ';'
    ir.push(IR::Stmt(Stmt::Ref { lhs, rhs }));
    proof {
        assert(irs_view(ir@) =~= pre + sp_ref_stmt(t, old(reader).i as int)->Ok_0.1);
    }
    Ok(())
}

/// Parse `IDENT '=' IDENT ';'` and append one `Alias` statement.
fn parse_alias_stmt(reader: &mut TokenReader, ir: &mut Vec<IR>) -> (r: Result<(), ParseError>)
    requires
        old(reader).wf(),
        old(reader).i < old(reader).tokens@.len(),
    ensures
        final(reader).tokens == old(reader).tokens,
        final(reader).wf(),
        emits(
            r,
            sp_alias_stmt(old(reader).toks(), old(reader).i as int),
            final(reader).i as int,
            irs_view(old(ir)@),
            irs_view(final(ir)@),
        ),
        r is Ok ==> final(reader).i > old(reader).i,
{
    let ghost t = reader.toks();
    let ghost pre = irs_view(ir@);
    let lhs = match reader.peek() {
        Token::Var(s) => s.clone(),
        _ => { return Err(ParseError::SyntaxError(reader.i)) },
    };
    reader.next();  // identifier
    if reader.is_eof() {
        return Err(ParseError::UnexpectedEndOfInput);
    }
    match reader.peek() {
        Token::Assign => (),
        _ => { return Err(ParseError::SyntaxError(reader.i)) },
    }
    reader.next();  // '='
    if reader.is_eof() {
        return Err(ParseError::UnexpectedEndOfInput);
    }
    let rhs = match reader.peek() {
        Token::Var(s) => s.clone(),
        _ => { return Err(ParseError::SyntaxError(reader.i)) },
    };
    reader.next();  // identifier
    if reader.is_eof() {
        return Err(ParseError::UnexpectedEndOfInput);
    }
    match reader.peek() {
        Token::Semicolon => (),
        _ => { return Err(ParseError::SyntaxError(reader.i)) },
    }
    reader.next();  // ';'
    ir.push(IR::Stmt(Stmt::Alias { lhs, rhs }));
    proof {
        assert(irs_view(ir@) =~= pre + sp_alias_stmt(t, old(reader).i as int)->Ok_0.1);
    }
    Ok(())
}

/// Parse `IDENT '=' '*' IDENT ';'` and append one `DerefRead`
/// statement.
fn parse_deref_read_stmt(reader: &mut TokenReader, ir: &mut Vec<IR>) -> (r: Result<(), ParseError>)
    requires
        old(reader).wf(),
        old(reader).i < old(reader).tokens@.len(),
    ensures
        final(reader).tokens == old(reader).tokens,
        final(reader).wf(),
        emits(
            r,
            sp_deref_read_stmt(old(reader).toks(), old(reader).i as int),
            final(reader).i as int,
            irs_view(old(ir)@),
            irs_view(final(ir)@),
        ),
        r is Ok ==> final(reader).i > old(reader).i,
{
    let ghost t = reader.toks();
    let ghost pre = irs_view(ir@);
    let lhs = match reader.peek() {
        Token::Var(s) => s.clone(),
        _ => { return Err(ParseError::SyntaxError(reader.i)) },
    };
    reader.next();  // identifier
    if reader.is_eof() {
        return Err(ParseError::UnexpectedEndOfInput);
    }
    match reader.peek() {
        Token::Assign => (),
        _ => { return Err(ParseError::SyntaxError(reader.i)) },
    }
    reader.next();  // '='
    if reader.is_eof() {
        return Err(ParseError::UnexpectedEndOfInput);
    }
    match reader.peek() {
        Token::Star => (),
        _ => { return Err(ParseError::SyntaxError(reader.i)) },
    }
    reader.next();  // '*'
    if reader.is_eof() {
        return Err(ParseError::UnexpectedEndOfInput);
    }
    let rhs = match reader.peek() {
        Token::Var(s) => s.clone(),
        _ => { return Err(ParseError::SyntaxError(reader.i)) },
    };
    reader.next();  // identifier
    if reader.is_eof() {
        return Err(ParseError::UnexpectedEndOfInput);
    }
    match reader.peek() {
        Token::Semicolon => (),
        _ => { return Err(ParseError::SyntaxError(reader.i)) },
    }
    reader.next();  // ';'
    ir.push(IR::Stmt(Stmt::DerefRead { lhs, rhs }));
    proof {
        assert(irs_view(ir@) =~= pre + sp_deref_read_stmt(t, old(reader).i as int)->Ok_0.1);
    }
    Ok(())
}

/// Parse `'*' IDENT '=' IDENT ';'` and append one `DerefWrite`
/// statement.
fn parse_deref_write_stmt(reader: &mut TokenReader, ir: &mut Vec<IR>) -> (r: Result<(), ParseError>)
    requires
        old(reader).wf(),
        old(reader).i < old(reader).tokens@.len(),
    ensures
        final(reader).tokens == old(reader).tokens,
        final(reader).wf(),
        emits(
            r,
            sp_deref_write_stmt(old(reader).toks(), old(reader).i as int),
            final(reader).i as int,
            irs_view(old(ir)@),
            irs_view(final(ir)@),
        ),
        r is Ok ==> final(reader).i > old(reader).i,
{
    let ghost t = reader.toks();
    let ghost pre = irs_view(ir@);
    match reader.peek() {
        Token::Star => (),
        _ => { return Err(ParseError::SyntaxError(reader.i)) },
    }
    reader.next();  // '*'
    if reader.is_eof() {
        return Err(ParseError::UnexpectedEndOfInput);
    }
    let lhs = match reader.peek() {
        Token::Var(s) => s.clone(),
        _ => { return Err(ParseError::SyntaxError(reader.i)) },
    };
    reader.next();  // identifier
    if reader.is_eof() {
        return Err(ParseError::UnexpectedEndOfInput);
    }
    match reader.peek() {
        Token::Assign => (),
        _ => { return Err(ParseError::SyntaxError(reader.i)) },
    }
    reader.next();  // '='
    if reader.is_eof() {
        return Err(ParseError::UnexpectedEndOfInput);
    }
    let rhs = match reader.peek() {
        Token::Var(s) => s.clone(),
        _ => { return Err(ParseError::SyntaxError(reader.i)) },
    };
    reader.next();  // identifier
    if reader.is_eof() {
        return Err(ParseError::UnexpectedEndOfInput);
    }
    match reader.peek() {
        Token::Semicolon => (),
        _ => { return Err(ParseError::SyntaxError(reader.i)) },
    }
    reader.next();  // ';'
    ir.push(IR::Stmt(Stmt::DerefWrite { lhs, rhs }));
    proof {
        assert(irs_view(ir@) =~= pre + sp_deref_write_stmt(t, old(reader).i as int)->Ok_0.1);
    }
    Ok(())
}

/// Parse `'#' IDENT` and append one `Check` instruction.
fn parse_check_stmt(reader: &mut TokenReader, ir: &mut Vec<IR>) -> (r: Result<(), ParseError>)
    requires
        old(reader).wf(),
        old(reader).i < old(reader).tokens@.len(),
    ensures
        final(reader).tokens == old(reader).tokens,
        final(reader).wf(),
        emits(
            r,
            sp_check_stmt(old(reader).toks(), old(reader).i as int),
            final(reader).i as int,
            irs_view(old(ir)@),
            irs_view(final(ir)@),
        ),
        r is Ok ==> final(reader).i > old(reader).i,
{
    let ghost t = reader.toks();
    let ghost pre = irs_view(ir@);
    match reader.peek() {
        Token::Sharp => (),
        _ => { return Err(ParseError::SyntaxError(reader.i)) },
    }
    reader.next();  // '#'
    if reader.is_eof() {
        return Err(ParseError::UnexpectedEndOfInput);
    }
    let tag = match reader.peek() {
        Token::Var(s) => s.clone(),
        _ => { return Err(ParseError::SyntaxError(reader.i)) },
    };
    reader.next();  // tag
    ir.push(IR::Check(tag));
    proof {
        assert(irs_view(ir@) =~= pre + sp_check_stmt(t, old(reader).i as int)->Ok_0.1);
    }
    Ok(())
}

/// Parse a `while` statement: a guard branch, the body, a back-edge
/// branch, and the exit merge point, with both branches back-patched.
fn parse_while_stmt(reader: &mut TokenReader, ir: &mut Vec<IR>) -> (r: Result<(), ParseError>)
    requires
        old(reader).wf(),
        old(reader).i < old(reader).tokens@.len(),
    ensures
        final(reader).tokens == old(reader).tokens,
        final(reader).wf(),
        emits(
            r,
            sp_while_stmt(old(reader).toks(), old(reader).i as int, old(ir)@.len() as int),
            final(reader).i as int,
            irs_view(old(ir)@),
            irs_view(final(ir)@),
        ),
        r is Ok ==> final(reader).i > old(reader).i,
    decreases old(reader).tokens@.len() - old(reader).i, 1int,
{
    let ghost t = reader.toks();
    let ghost i0 = reader.i as int;
    let ghost pre = irs_view(ir@);
    let ghost base = ir@.len() as int;
    match reader.peek() {
        Token::While => (),
        _ => { return Err(ParseError::SyntaxError(reader.i)) },
    }
    reader.next();  // 'while'
    if reader.is_eof() {
        return Err(ParseError::UnexpectedEndOfInput);
    }
    match reader.peek() {
        Token::LeftBrace => (),
        _ => { return Err(ParseError::SyntaxError(reader.i)) },
    }
    reader.next();  // '{'
    let idx_br_1 = ir.len();
    ir.push(IR::Branch(Vec::new()));
    let ghost v1 = ir@;
    let label_1 = ir.len();
    let res = parse_stmts(reader, ir);
    if let Err(e) = res {
        return Err(e);
    }
    let ghost v3 = ir@;
    proof {
        assert(sp_stmts(t, i0 + 2, base + 1) is Ok);
        assert(irs_view(ir@).len() == ir@.len());
        assert(irs_view(ir@).len() == base + 1 + sp_stmts(t, i0 + 2, base + 1)->Ok_0.1.len());
        assert(clamp_pos(reader.i as int, i0 + 2, t.len() as int) == reader.i as int);
    }
    if reader.is_eof() {
        return Err(ParseError::UnexpectedEndOfInput);
    }
    match reader.peek() {
        Token::RightBrace => (),
        _ => { return Err(ParseError::SyntaxError(reader.i)) },
    }
    let idx_br_2 = ir.len();
    ir.push(IR::Branch(Vec::new()));
    let label_2 = ir.len();
    reader.next();  // '}'
    ir.push(IR::Nop);
    // back-patch both branches
    let mut targets1: Vec<usize> = Vec::new();
    targets1.push(label_1);
    targets1.push(label_2);
    ir.set(idx_br_1, IR::Branch(targets1));
    let mut targets2: Vec<usize> = Vec::new();
    targets2.push(label_1);
    targets2.push(label_2);
    ir.set(idx_br_2, IR::Branch(targets2));
    proof {
        broadcast use lemma_irs_view_len, lemma_irs_view_index;

        let a = sp_stmts(t, i0 + 2, base + 1)->Ok_0.1;
        let l1 = base + 1;
        let l2 = base + 2 + a.len();
        assert(targets_view(targets1@) =~= seq![l1, l2]);
        assert(targets_view(targets2@) =~= seq![l1, l2]);
        assert(irs_view(v1) =~= pre.push(IRv::Branch(targets_view(Seq::empty()))));
        assert(irs_view(v3) == irs_view(v1) + a);
        assert(irs_view(ir@) =~= pre + (seq![IRv::Branch(seq![l1, l2])] + a + seq![
            IRv::Branch(seq![l1, l2]),
        ] + seq![IRv::Nop]));
    }
    Ok(())
}

/// Parse an `if` statement: a decision branch, the first block, a skip
/// branch, the optional `else` block, and the merge point, with both
/// branches back-patched.
fn parse_if_stmt(reader: &mut TokenReader, ir: &mut Vec<IR>) -> (r: Result<(), ParseError>)
    requires
        old(reader).wf(),
        old(reader).i < old(reader).tokens@.len(),
    ensures
        final(reader).tokens == old(reader).tokens,
        final(reader).wf(),
        emits(
            r,
            sp_if_stmt(old(reader).toks(), old(reader).i as int, old(ir)@.len() as int),
            final(reader).i as int,
            irs_view(old(ir)@),
            irs_view(final(ir)@),
        ),
        r is Ok ==> final(reader).i > old(reader).i,
    decreases old(reader).tokens@.len() - old(reader).i, 1int,
{
    let ghost t = reader.toks();
    let ghost i0 = reader.i as int;
    let ghost pre = irs_view(ir@);
    let ghost base = ir@.len() as int;
    match reader.peek() {
        Token::If => (),
        _ => { return Err(ParseError::SyntaxError(reader.i)) },
    }
    reader.next();  // 'if'
    if reader.is_eof() {
        return Err(ParseError::UnexpectedEndOfInput);
    }
    match reader.peek() {
        Token::LeftBrace => (),
        _ => { return Err(ParseError::SyntaxError(reader.i)) },
    }
    reader.next();  // '{'
    let idx_br_1 = ir.len();
    ir.push(IR::Branch(Vec::new()));
    let ghost v1 = ir@;
    let label_1 = ir.len();
    let res = parse_stmts(reader, ir);
    if let Err(e) = res {
        return Err(e);
    }
    let ghost v2 = ir@;
    let ghost j1 = reader.i as int;
    let ghost a = sp_stmts(t, i0 + 2, base + 1)->Ok_0.1;
    proof {
        broadcast use lemma_irs_view_len, lemma_irs_view_index;

        assert(irs_view(v1) =~= pre.push(IRv::Branch(targets_view(Seq::empty()))));
        assert(irs_view(v2) == irs_view(v1) + a);
        assert(irs_view(v2).len() == v2.len());
        assert(v2.len() == base + 1 + a.len());
        assert(clamp_pos(j1, i0 + 2, t.len() as int) == j1);
    }
    if reader.is_eof() {
        return Err(ParseError::UnexpectedEndOfInput);
    }
    match reader.peek() {
        Token::RightBrace => (),
        _ => { return Err(ParseError::SyntaxError(reader.i)) },
    }
    let idx_br_2 = ir.len();
    ir.push(IR::Branch(Vec::new()));
    let ghost v3 = ir@;
    reader.next();  // '}'
    let has_else = match reader.peek_forward(0) {
        Some(tok) => matches!(tok, Token::Else),
        None => false,
    };
    let mut label_2_opt: Option<usize> = None;
    if has_else {
        reader.next();  // 'else'
        if reader.is_eof() {
            return Err(ParseError::UnexpectedEndOfInput);
        }
        match reader.peek() {
            Token::LeftBrace => (),
            _ => { return Err(ParseError::SyntaxError(reader.i)) },
        }
        reader.next();  // '{'
        label_2_opt = Some(ir.len());
        proof {
            broadcast use lemma_irs_view_len, lemma_irs_view_index;

            assert(v3.len() == base + 2 + a.len());
        }
        let res2 = parse_stmts(reader, ir);
        if let Err(e) = res2 {
            return Err(e);
        }
        proof {
            broadcast use lemma_irs_view_len, lemma_irs_view_index;

            let b = sp_stmts(t, j1 + 3, base + 2 + a.len())->Ok_0.1;
            assert(irs_view(ir@) == irs_view(v3) + b);
            assert(irs_view(ir@).len() == ir@.len());
            assert(ir@.len() == base + 2 + a.len() + b.len());
            assert(clamp_pos(reader.i as int, j1 + 3, t.len() as int) == reader.i as int);
        }
        if reader.is_eof() {
            return Err(ParseError::UnexpectedEndOfInput);
        }
        match reader.peek() {
            Token::RightBrace => (),
            _ => { return Err(ParseError::SyntaxError(reader.i)) },
        }
        reader.next();  // '}'
    }
    let ghost v4 = ir@;
    let label_3 = ir.len();
    ir.push(IR::Nop);
    // back-patch the decision branch and the skip branch
    let mut targets1: Vec<usize> = Vec::new();
    targets1.push(label_1);
    if let Some(l2) = label_2_opt {
        targets1.push(l2);
    }
    targets1.push(label_3);
    ir.set(idx_br_1, IR::Branch(targets1));
    let mut targets2: Vec<usize> = Vec::new();
    targets2.push(label_3);
    ir.set(idx_br_2, IR::Branch(targets2));
    proof {
        broadcast use lemma_irs_view_len, lemma_irs_view_index;

        let l1 = base + 1;
        assert(irs_view(v3) =~= irs_view(v2).push(IRv::Branch(targets_view(Seq::empty()))));
        if label_2_opt is Some {
            let b = sp_stmts(t, j1 + 3, base + 2 + a.len())->Ok_0.1;
            let l2 = base + 2 + a.len();
            let l3 = base + 2 + a.len() + b.len();
            assert(v4.len() == base + 2 + a.len() + b.len());
            assert(targets_view(targets1@) =~= seq![l1, l2, l3]);
            assert(targets_view(targets2@) =~= seq![l3]);
            assert(irs_view(ir@) =~= pre + (seq![IRv::Branch(seq![l1, l2, l3])] + a + seq![
                IRv::Branch(seq![l3]),
            ] + b + seq![IRv::Nop]));
        } else {
            let l3 = base + 2 + a.len();
            assert(v4 == v3);
            assert(targets_view(targets1@) =~= seq![l1, l3]);
            assert(targets_view(targets2@) =~= seq![l3]);
            assert(irs_view(ir@) =~= pre + (seq![IRv::Branch(seq![l1, l3])] + a + seq![
                IRv::Branch(seq![l3]),
            ] + seq![IRv::Nop]));
        }
    }
    Ok(())
}

/// Parse one statement, dispatching on the token under the cursor (and,
/// for statements that start with an identifier, on the token two
/// positions ahead).
fn parse_stmt(reader: &mut TokenReader, ir: &mut Vec<IR>) -> (r: Result<(), ParseError>)
    requires
        old(reader).wf(),
        old(reader).i < old(reader).tokens@.len(),
    ensures
        final(reader).tokens == old(reader).tokens,
        final(reader).wf(),
        emits(
            r,
            sp_stmt(old(reader).toks(), old(reader).i as int, old(ir)@.len() as int),
            final(reader).i as int,
            irs_view(old(ir)@),
            irs_view(final(ir)@),
        ),
        r is Ok ==> final(reader).i > old(reader).i,
    decreases old(reader).tokens@.len() - old(reader).i, 2int,
{
    let ghost pre = irs_view(ir@);
    if matches!(reader.peek(), Token::If) {
        parse_if_stmt(reader, ir)
    } else if matches!(reader.peek(), Token::While) {
        parse_while_stmt(reader, ir)
    } else if matches!(reader.peek(), Token::Star) {
        parse_deref_write_stmt(reader, ir)
    } else if matches!(reader.peek(), Token::Sharp) {
        parse_check_stmt(reader, ir)
    } else if matches!(reader.peek(), Token::Semicolon) {
        reader.next();
        proof {
            assert(irs_view(ir@) =~= pre + Seq::<IRv>::empty());
        }
        Ok(())
    } else if matches!(reader.peek(), Token::Var(_)) {
        let two = reader.peek_forward(2);
        match two {
            None => Err(ParseError::UnexpectedEndOfInput),
            Some(tok) => {
                // which statement form follows `IDENT '='`
                let kind: u8 = match tok {
                    Token::Ampersand => 0,
                    Token::Star => 1,
                    Token::Var(_) => 2,
                    _ => 3,
                };
                if kind == 0 {
                    parse_ref_stmt(reader, ir)
                } else if kind == 1 {
                    parse_deref_read_stmt(reader, ir)
                } else if kind == 2 {
                    parse_alias_stmt(reader, ir)
                } else {
                    Err(ParseError::SyntaxError(reader.i + 2))
                }
            },
        }
    } else {
        Err(ParseError::SyntaxError(reader.i))
    }
}

/// Parse a run of statements, stopping in front of the first token that
/// cannot start one.
fn parse_stmts(reader: &mut TokenReader, ir: &mut Vec<IR>) -> (r: Result<(), ParseError>)
    requires
        old(reader).wf(),
    ensures
        final(reader).tokens == old(reader).tokens,
        final(reader).wf(),
        emits(
            r,
            sp_stmts(old(reader).toks(), old(reader).i as int, old(ir)@.len() as int),
            final(reader).i as int,
            irs_view(old(ir)@),
            irs_view(final(ir)@),
        ),
        r is Ok ==> final(reader).i >= old(reader).i,
    decreases old(reader).tokens@.len() - old(reader).i, 3int,
{
    let ghost t = reader.toks();
    let ghost i0 = reader.i as int;
    let ghost pre = irs_view(ir@);
    let ghost base = ir@.len() as int;
    if reader.is_eof() {
        proof {
            assert(irs_view(ir@) =~= pre + Seq::<IRv>::empty());
        }
        return Ok(());
    }
    let starts = matches!(
        reader.peek(),
        Token::Var(_) | Token::Star | Token::If | Token::While | Token::Sharp | Token::Semicolon
    );
    if !starts {
        proof {
            assert(!starts_stmt(t[i0]));
            assert(irs_view(ir@) =~= pre + Seq::<IRv>::empty());
        }
        return Ok(());
    }
    let res = parse_stmt(reader, ir);
    if let Err(e) = res {
        proof {
            assert(starts_stmt(t[i0]));
            assert(sp_stmt(t, i0, base) == Err::<(int, Seq<IRv>), ParseError>(e));
            assert(sp_stmts(t, i0, base) == Err::<(int, Seq<IRv>), ParseError>(e));
        }
        return Err(e);
    }
    let ghost j = reader.i as int;
    proof {
        broadcast use lemma_irs_view_len, lemma_irs_view_index;

        let irs = sp_stmt(t, i0, base)->Ok_0.1;
        assert(irs_view(ir@) == pre + irs);
        assert(irs_view(ir@).len() == ir@.len());
        assert(ir@.len() == base + irs.len());
        assert(clamp_pos(j, i0 + 1, t.len() as int) == j);
    }
    let res2 = parse_stmts(reader, ir);
    if let Err(e) = res2 {
        return Err(e);
    }
    proof {
        let irs = sp_stmt(t, i0, base)->Ok_0.1;
        let rest = sp_stmts(t, j, base + irs.len())->Ok_0.1;
        assert(irs_view(ir@) =~= pre + (irs + rest));
    }
    Ok(())
}

/// On success, one parsed statement lands strictly further in the token
/// stream and emits a block whose branches are all patched into the
/// block's own position window.
proof fn lemma_sp_stmt_wf(t: Seq<Tokv>, i: int, base: int)
    requires
        0 <= i < t.len(),
    ensures
        match sp_stmt(t, i, base) {
            Ok((j, irs)) => i < j <= t.len() && emitted_wf(irs, base),
            Err(_) => true,
        },
    decreases t.len() - i, 2int,
{
    match t[i] {
        Tokv::If => {
            if i + 1 < t.len() && t[i + 1] is LeftBrace {
                lemma_sp_stmts_wf(t, i + 2, base + 1);
                match sp_stmts(t, i + 2, base + 1) {
                    Err(_) => {},
                    Ok((j1r, a)) => {
                        let j1 = clamp_pos(j1r, i + 2, t.len() as int);
                        assert(j1 == j1r);
                        if j1 < t.len() && t[j1] is RightBrace {
                            if j1 + 2 < t.len() && t[j1 + 1] is Else && t[j1 + 2] is LeftBrace {
                                lemma_sp_stmts_wf(t, j1 + 3, base + 2 + a.len());
                                match sp_stmts(t, j1 + 3, base + 2 + a.len()) {
                                    Err(_) => {},
                                    Ok((j2r, b)) => {
                                        let j2 = clamp_pos(j2r, j1 + 3, t.len() as int);
                                        assert(j2 == j2r);
                                        if j2 < t.len() && t[j2] is RightBrace {
                                            let l1 = base + 1;
                                            let l2 = base + 2 + a.len();
                                            let l3 = base + 2 + a.len() + b.len();
                                            let irs = seq![IRv::Branch(seq![l1, l2, l3])] + a
                                                + seq![IRv::Branch(seq![l3])] + b + seq![IRv::Nop];
                                            assert forall|k: int|
                                                0 <= k < irs.len() && #[trigger] irs[k]
                                                    is Branch implies branch_targets_in(
                                                irs[k]->Branch_0,
                                                base,
                                                base + irs.len(),
                                            ) by {
                                                if k == 0 {
                                                    assert(irs[0]->Branch_0 =~= seq![l1, l2, l3]);
                                                } else if k < 1 + a.len() {
                                                    assert(irs[k] == a[k - 1]);
                                                    assert(branch_targets_in(
                                                        a[k - 1]->Branch_0,
                                                        base + 1,
                                                        base + 1 + a.len(),
                                                    ));
                                                } else if k == 1 + a.len() {
                                                    assert(irs[k]->Branch_0 =~= seq![l3]);
                                                } else if k < 2 + a.len() + b.len() {
                                                    assert(irs[k] == b[k - 2 - a.len()]);
                                                    assert(branch_targets_in(
                                                        b[k - 2 - a.len()]->Branch_0,
                                                        base + 2 + a.len(),
                                                        base + 2 + a.len() + b.len(),
                                                    ));
                                                } else {
                                                    assert(irs[k] is Nop);
                                                }
                                            }
                                        }
                                    },
                                }
                            } else {
                                let l1 = base + 1;
                                let l3 = base + 2 + a.len();
                                let irs = seq![IRv::Branch(seq![l1, l3])] + a + seq![
                                    IRv::Branch(seq![l3]),
                                ] + seq![IRv::Nop];
                                assert forall|k: int|
                                    0 <= k < irs.len() && #[trigger] irs[k]
                                        is Branch implies branch_targets_in(
                                    irs[k]->Branch_0,
                                    base,
                                    base + irs.len(),
                                ) by {
                                    if k == 0 {
                                        assert(irs[0]->Branch_0 =~= seq![l1, l3]);
                                    } else if k < 1 + a.len() {
                                        assert(irs[k] == a[k - 1]);
                                        assert(branch_targets_in(
                                            a[k - 1]->Branch_0,
                                            base + 1,
                                            base + 1 + a.len(),
                                        ));
                                    } else if k == 1 + a.len() {
                                        assert(irs[k]->Branch_0 =~= seq![l3]);
                                    } else {
                                        assert(irs[k] is Nop);
                                    }
                                }
                            }
                        }
                    },
                }
            }
        },
        Tokv::While => {
            if i + 1 < t.len() && t[i + 1] is LeftBrace {
                lemma_sp_stmts_wf(t, i + 2, base + 1);
                match sp_stmts(t, i + 2, base + 1) {
                    Err(_) => {},
                    Ok((j1r, a)) => {
                        let j1 = clamp_pos(j1r, i + 2, t.len() as int);
                        assert(j1 == j1r);
                        if j1 < t.len() && t[j1] is RightBrace {
                            let l1 = base + 1;
                            let l2 = base + 2 + a.len();
                            let irs = seq![IRv::Branch(seq![l1, l2])] + a + seq![
                                IRv::Branch(seq![l1, l2]),
                            ] + seq![IRv::Nop];
                            assert forall|k: int|
                                0 <= k < irs.len() && #[trigger] irs[k]
                                    is Branch implies branch_targets_in(
                                irs[k]->Branch_0,
                                base,
                                base + irs.len(),
                            ) by {
                                if k == 0 {
                                    assert(irs[0]->Branch_0 =~= seq![l1, l2]);
                                } else if k < 1 + a.len() {
                                    assert(irs[k] == a[k - 1]);
                                    assert(branch_targets_in(
                                        a[k - 1]->Branch_0,
                                        base + 1,
                                        base + 1 + a.len(),
                                    ));
                                } else if k == 1 + a.len() {
                                    assert(irs[k]->Branch_0 =~= seq![l1, l2]);
                                } else {
                                    assert(irs[k] is Nop);
                                }
                            }
                        }
                    },
                }
            }
        },
        _ => {},
    }
}

/// On success, a parsed run of statements never moves backwards and
/// emits a block whose branches are all patched into the block's own
/// position window.
proof fn lemma_sp_stmts_wf(t: Seq<Tokv>, i: int, base: int)
    requires
        0 <= i <= t.len(),
    ensures
        match sp_stmts(t, i, base) {
            Ok((j, irs)) => i <= j <= t.len() && emitted_wf(irs, base),
            Err(_) => true,
        },
    decreases t.len() - i, 3int,
{
    if i < t.len() && starts_stmt(t[i]) {
        lemma_sp_stmt_wf(t, i, base);
        match sp_stmt(t, i, base) {
            Err(_) => {},
            Ok((jr, irs)) => {
                let j = clamp_pos(jr, i + 1, t.len() as int);
                assert(j == jr);
                lemma_sp_stmts_wf(t, j, base + irs.len());
                match sp_stmts(t, j, base + irs.len()) {
                    Err(_) => {},
                    Ok((k, rest)) => {
                        let whole = irs + rest;
                        assert forall|m: int|
                            0 <= m < whole.len() && #[trigger] whole[m]
                                is Branch implies branch_targets_in(
                            whole[m]->Branch_0,
                            base,
                            base + whole.len(),
                        ) by {
                            if m < irs.len() {
                                assert(whole[m] == irs[m]);
                                assert(branch_targets_in(
                                    irs[m]->Branch_0,
                                    base,
                                    base + irs.len(),
                                ));
                            } else {
                                assert(whole[m] == rest[m - irs.len()]);
                                assert(branch_targets_in(
                                    rest[m - irs.len()]->Branch_0,
                                    base + irs.len(),
                                    base + irs.len() + rest.len(),
                                ));
                            }
                        }
                    },
                }
            },
        }
    }
}

/// Build the control-flow graph of a whole token stream.
///
/// On success the returned instruction array is exactly what the
/// grammar prescribes, closed by the end-of-program checkpoint, and
/// every branch in it is patched: non-empty, with every target a valid
/// position or one past the end. On failure the error names the
/// offending token position, or reports that the input ended inside a
/// statement or block; no partial graph is returned.
pub fn parse(tokens: Vec<Token>) -> (r: Result<Vec<IR>, ParseError>)
    ensures
        match r {
            Ok(ir) => sp_parse(tokens_view(tokens@)) == Ok::<Seq<IRv>, ParseError>(irs_view(ir@))
                && wf_instrs(irs_view(ir@)),
            Err(e) => sp_parse(tokens_view(tokens@)) == Err::<Seq<IRv>, ParseError>(e),
        },
{
    let ghost t = tokens_view(tokens@);
    let mut reader = TokenReader { tokens, i: 0 };
    let mut ir: Vec<IR> = Vec::new();
    let res = parse_stmts(&mut reader, &mut ir);
    if let Err(e) = res {
        return Err(e);
    }
    if !reader.is_eof() {
        return Err(ParseError::SyntaxError(reader.i));
    }
    let ghost irs0 = sp_stmts(t, 0, 0)->Ok_0.1;
    proof {
        broadcast use lemma_irs_view_len, lemma_irs_view_index;

        lemma_sp_stmts_wf(t, 0, 0);
        assert(irs_view(ir@) =~= irs0);
    }
    ir.push(IR::Check(String::from_str("(End)")));
    proof {
        broadcast use lemma_irs_view_len, lemma_irs_view_index;

        assert(irs_view(ir@) =~= irs0.push(IRv::Check("(End)"@)));
        let whole = irs_view(ir@);
        assert forall|k: int|
            0 <= k < whole.len() && #[trigger] whole[k] is Branch implies branch_targets_in(
            whole[k]->Branch_0,
            0,
            whole.len() + 1 as int,
        ) by {
            assert(whole[k] == irs0[k]);
            assert(branch_targets_in(irs0[k]->Branch_0, 0, irs0.len() as int));
        }
    }
    Ok(ir)
}

} // verus!
