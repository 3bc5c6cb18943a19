use jehanni::errors::Error;
use jehanni::tokenizer::{Token, TokenList};

#[test]
fn simple_identifier() {
    assert_eq!(
        vec![Token::Identifier("ident".to_string())],
        TokenList::new("ident").unwrap().tokens
    );
}

#[test]
fn identifier_containing_int_literal() {
    assert_eq!(
        vec![Token::Identifier("ident01".to_string())],
        TokenList::new("ident01").unwrap().tokens
    );
    assert_eq!(
        vec![Token::Identifier("ident01test".to_string())],
        TokenList::new("ident01test").unwrap().tokens
    );
}

#[test]
fn sequential_identifier() {
    assert_eq!(
        vec![
            Token::Identifier("a".to_string()),
            Token::Identifier("b".to_string()),
            Token::Identifier("cd".to_string())
        ],
        TokenList::new("a b cd").unwrap().tokens
    );
}

#[test]
fn simple_definion() {
    assert_eq!(vec![Token::Definion], TokenList::new(":=").unwrap().tokens);
}

#[test]
fn tokenizer_sequential_definion() {
    assert_eq!(
        vec![Token::Definion, Token::Definion, Token::Definion],
        TokenList::new(":= :=:=").unwrap().tokens
    );
}

#[test]
fn sequential_definion_no_spaces() {
    assert_eq!(
        vec![Token::Definion, Token::Definion, Token::Definion],
        TokenList::new(":=:=:=").unwrap().tokens
    );
}

#[test]
fn simple_int_literal() {
    assert_eq!(
        vec![Token::IntLiteral("3".to_string())],
        TokenList::new("3").unwrap().tokens
    );
    assert_eq!(
        vec![Token::IntLiteral("05".to_string())],
        TokenList::new("05").unwrap().tokens
    );
}

#[test]
fn sequential_int_literal() {
    assert_eq!(
        vec![
            Token::IntLiteral("1".to_string()),
            Token::IntLiteral("2".to_string()),
            Token::IntLiteral("34".to_string())
        ],
        TokenList::new("1 2 34").unwrap().tokens
    );
}

#[test]
fn int_literal_and_identifier() {
    assert_eq!(
        vec![
            Token::IntLiteral("7".to_string()),
            Token::Identifier("eleven".to_string())
        ],
        TokenList::new("7 eleven").unwrap().tokens
    );
}

#[test]
fn simple_newline() {
    assert_eq!(vec![Token::Newline], TokenList::new("\n").unwrap().tokens);
}

#[test]
fn sequential_newline() {
    assert_eq!(vec![Token::Newline], TokenList::new("\n\n").unwrap().tokens);
}

#[test]
fn long_newline_run() {
    assert_eq!(
        vec![Token::Newline],
        TokenList::new("\n\n\n\n\n\n\n").unwrap().tokens
    );
}

#[test]
fn simple_definition() {
    assert_eq!(
        vec![
            Token::Identifier("test".to_string()),
            Token::Definion,
            Token::IntLiteral("3".to_string()),
            Token::Newline
        ],
        TokenList::new("test := 3\n").unwrap().tokens
    );
}

#[test]
fn sequential_definition() {
    assert_eq!(
        vec![
            Token::Identifier("test01".to_string()),
            Token::Definion,
            Token::IntLiteral("3".to_string()),
            Token::Newline,
            Token::Identifier("test02".to_string()),
            Token::Definion,
            Token::IntLiteral("25".to_string()),
            Token::Newline
        ],
        TokenList::new("test01 := 3\ntest02:=25\n").unwrap().tokens
    );
}

#[test]
fn empty_input() {
    assert_eq!(Vec::<Token>::new(), TokenList::new("").unwrap().tokens);
}

#[test]
fn spaces_only() {
    assert_eq!(Vec::<Token>::new(), TokenList::new("   ").unwrap().tokens);
}

#[test]
fn underscore_identifier() {
    assert_eq!(
        vec![Token::Identifier("_under_score".to_string())],
        TokenList::new("_under_score").unwrap().tokens
    );
}

#[test]
fn character_error() {
    let err = TokenList::new("漢字").unwrap_err();
    assert_eq!(Error::CharacterError('漢'), err);
    assert_eq!(
        "CharacterError: I found an unknown character '漢'.",
        err.message().as_str()
    );
}

#[test]
fn token_beginning() {
    let err = TokenList::new("=").unwrap_err();
    assert_eq!(Error::TokenError('='), err);
    assert_eq!(
        "TokenError: I found an unsuitable character '='.",
        err.message().as_str()
    );
}

#[test]
fn identifier_contains_equal() {
    assert_eq!(Error::TokenError('='), TokenList::new("test=").unwrap_err());
}

#[test]
fn int_literal_contains_equal() {
    assert_eq!(Error::TokenError('='), TokenList::new("20=").unwrap_err());
}

#[test]
fn int_literal_contains_letter() {
    assert_eq!(Error::TokenError('c'), TokenList::new("3cm").unwrap_err());
}

#[test]
fn broken_definion() {
    assert_eq!(Error::TokenError('a'), TokenList::new(":a").unwrap_err());
}

#[test]
fn unfinished_definion() {
    assert_eq!(Error::TokenError(':'), TokenList::new(":").unwrap_err());
}

#[test]
fn token_display_forms() {
    assert_eq!("'foo'", Token::Identifier("foo".to_string()).display().as_str());
    assert_eq!("'10'", Token::IntLiteral("10".to_string()).display().as_str());
    assert_eq!("':='", Token::Definion.display().as_str());
    assert_eq!("'\\n'", Token::Newline.display().as_str());
    assert_eq!("EOF", Token::EOF.display().as_str());
}

#[test]
fn token_list_display() {
    assert_eq!(
        "['test', ':=', '3', '\\n']",
        TokenList::new("test := 3\n").unwrap().display().as_str()
    );
    assert_eq!("[]", TokenList::new("").unwrap().display().as_str());
}

#[test]
fn cursor_at_end_after_scan() {
    let tl = TokenList::new("test := 3\n").unwrap();
    assert_eq!(tl.source.len(), tl.index);
    assert_eq!(10, tl.index);
}
