use jehanni::parser::{Node, AST};
use jehanni::tokenizer::TokenList;
use jehanni::transpiler::transpile;

#[test]
fn transpile_test() {
    assert_eq!(
        transpile(&vec![Node::Line(Box::new(Node::VarDefinition(
            Box::new(Node::VarName(String::from("name"))),
            Box::new(Node::Value(String::from("value"))),
        )))]),
        String::from(
            "fn main() {
    let name = value;
}
"
        )
    )
}

#[test]
fn transpile_empty_program() {
    assert_eq!("fn main() {\n}\n", transpile(&Vec::new()).as_str());
}

#[test]
fn transpile_preserves_order() {
    let ast = AST::new(TokenList::new("a := 1\nb := 2\nc := 3\n").unwrap()).unwrap();
    assert_eq!(
        "fn main() {\n    let a = 1;\n    let b = 2;\n    let c = 3;\n}\n",
        transpile(&ast.nodes).as_str()
    );
}

#[test]
fn transpile_keeps_duplicate_names() {
    let ast = AST::new(TokenList::new("x := 1\nx := 2\n").unwrap()).unwrap();
    assert_eq!(
        "fn main() {\n    let x = 1;\n    let x = 2;\n}\n",
        transpile(&ast.nodes).as_str()
    );
}

#[test]
fn end_to_end_pipeline() {
    let tokens = TokenList::new("test01 := 3\ntest02:=25\n").unwrap();
    let ast = AST::new(tokens).unwrap();
    assert_eq!(
        "fn main() {\n    let test01 = 3;\n    let test02 = 25;\n}\n",
        transpile(&ast.nodes).as_str()
    );
}
