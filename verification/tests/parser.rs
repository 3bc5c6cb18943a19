use jehanni::errors::Error;
use jehanni::parser::{Node, AST};
use jehanni::tokenizer::TokenList;

#[test]
fn simple_line() {
    assert_eq!(
        vec![Node::Line(Box::new(Node::VarDefinition(
            Box::new(Node::VarName("test".to_string())),
            Box::new(Node::Value("10".to_string())),
        )))],
        AST::new(TokenList::new("test := 10\n").unwrap()).unwrap().nodes
    );
}

#[test]
fn two_lines_in_order() {
    assert_eq!(
        vec![
            Node::Line(Box::new(Node::VarDefinition(
                Box::new(Node::VarName("a".to_string())),
                Box::new(Node::Value("1".to_string())),
            ))),
            Node::Line(Box::new(Node::VarDefinition(
                Box::new(Node::VarName("b".to_string())),
                Box::new(Node::Value("2".to_string())),
            ))),
        ],
        AST::new(TokenList::new("a := 1\nb := 2\n").unwrap()).unwrap().nodes
    );
}

#[test]
fn empty_token_sequence() {
    assert_eq!(
        Vec::<Node>::new(),
        AST::new(TokenList::new("").unwrap()).unwrap().nodes
    );
}

#[test]
fn line_ends_eof() {
    let err = AST::new(TokenList::new("test := 10").unwrap()).unwrap_err();
    assert_eq!(
        Error::SyntaxError("a newline at the end of a line", "EOF".to_string()),
        err
    );
    assert_eq!(
        "SyntaxError: I was expecting a newline at the end of a line, but found EOF before it.",
        err.message().as_str()
    );
}

#[test]
fn line_ends_foo() {
    assert_eq!(
        Error::SyntaxError("a newline at the end of a line", "'foo'".to_string()),
        AST::new(TokenList::new("test := 10 foo").unwrap()).unwrap_err()
    );
}

#[test]
fn line_starts_definion() {
    assert_eq!(
        Error::SyntaxError(
            "the variable name at the beginning of a line",
            "':='".to_string()
        ),
        AST::new(TokenList::new(":=").unwrap()).unwrap_err()
    );
}

#[test]
fn no_definion() {
    assert_eq!(
        Error::SyntaxError("':=' for a variable definition", "EOF".to_string()),
        AST::new(TokenList::new("test").unwrap()).unwrap_err()
    );
}

#[test]
fn parser_sequential_definion() {
    assert_eq!(
        Error::SyntaxError("the value of the variable", "':='".to_string()),
        AST::new(TokenList::new("x:=:=").unwrap()).unwrap_err()
    );
}

#[test]
fn ast_display() {
    assert_eq!(
        "[test:=10]",
        AST::new(TokenList::new("test := 10\n").unwrap())
            .unwrap()
            .display()
            .as_str()
    );
    assert_eq!(
        "[a:=1, b:=2]",
        AST::new(TokenList::new("a := 1\nb := 2\n").unwrap())
            .unwrap()
            .display()
            .as_str()
    );
}

#[test]
fn cursor_at_end_after_parse() {
    let ast = AST::new(TokenList::new("test := 10\n").unwrap()).unwrap();
    assert_eq!(ast.tokens.len(), ast.index);
    assert_eq!(4, ast.index);
}
