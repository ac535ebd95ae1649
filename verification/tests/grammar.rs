use pointsto::lexer::get_tokens;
use pointsto::lexer::Token;
use pointsto::parser::parse;
use pointsto::parser::IR;
use pointsto::parser::ParseError;
use pointsto::parser::Stmt;

#[test]
fn tokens_of_a_statement() {
    let toks = get_tokens("a = &b;");
    assert_eq!(
        toks,
        vec![
            Token::Var("a".to_string()),
            Token::Assign,
            Token::Ampersand,
            Token::Var("b".to_string()),
            Token::Semicolon,
        ]
    );
}

#[test]
fn keywords_are_reserved() {
    let toks = get_tokens("while if else whilex");
    assert_eq!(
        toks,
        vec![Token::While, Token::If, Token::Else, Token::Var("whilex".to_string())]
    );
}

#[test]
fn unknown_characters_carry_no_token() {
    let toks = get_tokens("a + b % !");
    assert_eq!(
        toks,
        vec![Token::Var("a".to_string()), Token::Var("b".to_string())]
    );
}

#[test]
fn whitespace_separates_identifiers() {
    let toks = get_tokens("ab\n\tcd_3");
    assert_eq!(
        toks,
        vec![Token::Var("ab".to_string()), Token::Var("cd_3".to_string())]
    );
}

#[test]
fn all_symbols_lex() {
    let toks = get_tokens("{ } # * ; =");
    assert_eq!(
        toks,
        vec![
            Token::LeftBrace,
            Token::RightBrace,
            Token::Sharp,
            Token::Star,
            Token::Semicolon,
            Token::Assign,
        ]
    );
}

#[test]
fn statements_build_their_instructions() {
    let ir = parse(get_tokens("a = &b; c = a; d = *c; *d = a; #stop")).unwrap();
    assert_eq!(ir.len(), 6);
    assert_eq!(
        ir[0],
        IR::Stmt(Stmt::Ref { lhs: "a".to_string(), rhs: "b".to_string() })
    );
    assert_eq!(
        ir[1],
        IR::Stmt(Stmt::Alias { lhs: "c".to_string(), rhs: "a".to_string() })
    );
    assert_eq!(
        ir[2],
        IR::Stmt(Stmt::DerefRead { lhs: "d".to_string(), rhs: "c".to_string() })
    );
    assert_eq!(
        ir[3],
        IR::Stmt(Stmt::DerefWrite { lhs: "d".to_string(), rhs: "a".to_string() })
    );
    assert_eq!(ir[4], IR::Check("stop".to_string()));
    assert_eq!(ir[5], IR::Check("(End)".to_string()));
}

#[test]
fn if_else_is_emitted_with_patched_branches() {
    let ir = parse(get_tokens("p = &x; if { r = p; } else { r = q; } #done")).unwrap();
    // 0: p = &x
    // 1: branch -> {then, else, merge}   2: r = p
    // 3: branch -> {merge}               4: r = q
    // 5: merge                           6: #done   7: end marker
    assert_eq!(ir.len(), 8);
    assert_eq!(ir[1], IR::Branch(vec![2, 4, 5]));
    assert_eq!(ir[3], IR::Branch(vec![5]));
    assert_eq!(ir[5], IR::Nop);
    assert_eq!(ir[6], IR::Check("done".to_string()));
}

#[test]
fn if_without_else_skips_the_block() {
    let ir = parse(get_tokens("if { a = &b; }")).unwrap();
    assert_eq!(ir.len(), 5);
    assert_eq!(ir[0], IR::Branch(vec![1, 3]));
    assert_eq!(ir[2], IR::Branch(vec![3]));
    assert_eq!(ir[3], IR::Nop);
}

#[test]
fn while_is_emitted_with_back_edge() {
    let ir = parse(get_tokens("while { a = b; }")).unwrap();
    // 0: guard branch -> {body, exit}
    // 1: a = b
    // 2: back-edge branch -> {body, exit}
    // 3: exit merge    4: end marker
    assert_eq!(ir.len(), 5);
    assert_eq!(ir[0], IR::Branch(vec![1, 3]));
    assert_eq!(ir[2], IR::Branch(vec![1, 3]));
    assert_eq!(ir[3], IR::Nop);
}

#[test]
fn nested_blocks_patch_their_branches() {
    let ir = parse(get_tokens("while { if { a = &b; } }")).unwrap();
    // 0: while guard -> {body, exit}
    // 1: if decision -> {then, inner merge}   2: a = &b
    // 3: if skip -> {inner merge}             4: inner merge
    // 5: while back edge -> {body, exit}      6: exit merge   7: end marker
    assert_eq!(ir.len(), 8);
    assert_eq!(ir[0], IR::Branch(vec![1, 6]));
    assert_eq!(ir[1], IR::Branch(vec![2, 4]));
    assert_eq!(ir[3], IR::Branch(vec![4]));
    assert_eq!(ir[4], IR::Nop);
    assert_eq!(ir[5], IR::Branch(vec![1, 6]));
    assert_eq!(ir[6], IR::Nop);
}

#[test]
fn missing_identifier_after_ampersand_is_a_syntax_error() {
    let r = parse(get_tokens("a = & ;"));
    assert_eq!(r.unwrap_err(), ParseError::SyntaxError(3));
}

#[test]
fn missing_semicolon_ends_the_input_early() {
    let r = parse(get_tokens("a = b"));
    assert_eq!(r.unwrap_err(), ParseError::UnexpectedEndOfInput);
}

#[test]
fn unterminated_if_block_ends_the_input_early() {
    let r = parse(get_tokens("if {"));
    assert_eq!(r.unwrap_err(), ParseError::UnexpectedEndOfInput);
}

#[test]
fn unterminated_while_body_ends_the_input_early() {
    let r = parse(get_tokens("while { a = b;"));
    assert_eq!(r.unwrap_err(), ParseError::UnexpectedEndOfInput);
}

#[test]
fn lone_identifier_ends_the_input_early() {
    let r = parse(get_tokens("a"));
    assert_eq!(r.unwrap_err(), ParseError::UnexpectedEndOfInput);
}

#[test]
fn stray_closing_brace_is_a_syntax_error() {
    let r = parse(get_tokens("}"));
    assert_eq!(r.unwrap_err(), ParseError::SyntaxError(0));
}

#[test]
fn bad_token_after_assignment_is_a_syntax_error() {
    let r = parse(get_tokens("a = ;"));
    assert_eq!(r.unwrap_err(), ParseError::SyntaxError(2));
}

#[test]
fn else_without_block_ends_the_input_early() {
    let r = parse(get_tokens("if { } else"));
    assert_eq!(r.unwrap_err(), ParseError::UnexpectedEndOfInput);
}

#[test]
fn checkpoint_needs_an_identifier_tag() {
    let r = parse(get_tokens("# while"));
    assert_eq!(r.unwrap_err(), ParseError::SyntaxError(1));
}

#[test]
fn address_of_cannot_be_stored_through_a_pointer() {
    // the grammar allows only an identifier on the right of a store
    let r = parse(get_tokens("*r = &z;"));
    assert_eq!(r.unwrap_err(), ParseError::SyntaxError(3));
}

#[test]
fn leftover_tokens_are_a_syntax_error() {
    let r = parse(get_tokens("a = &b; = c"));
    assert_eq!(r.unwrap_err(), ParseError::SyntaxError(5));
}
