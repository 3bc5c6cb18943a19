//! Syntactic analysis: the token sequence becomes an ordered sequence of
//! statement nodes, by recursive descent with one token of lookahead and no
//! backtracking.
//!
//! The grammar:
//! ```text
//! Line          ::= VarDefinition Newline
//! VarDefinition ::= VarName Definition Value
//! VarName       ::= Identifier
//! Value         ::= IntLiteral
//! ```

use vstd::prelude::*;
use vstd::string::StringExecFns;
use crate::errors::{Error, ErrorModel};
use crate::tokenizer::{spec_token_display, tokens_view, Token, TokenList, TokenModel};

verus! {

/// Mathematical model of a [`Node`]: text payloads as character sequences.
pub enum NodeModel {
    Line(Box<NodeModel>),
    VarDefinition(Box<NodeModel>, Box<NodeModel>),
    VarName(Seq<char>),
    Value(Seq<char>),
}

/// One node of the abstract syntax tree.
///
/// - `Line(inner)`: wraps exactly one statement.
/// - `VarDefinition(name, value)`: represents `name := value`; its first
///   child is always a `VarName` and its second a `Value`, by construction.
/// - `VarName(text)`: an identifier used as a binding target.
/// - `Value(text)`: an integer literal used as a bound value.
#[derive(Debug, PartialEq)]
pub enum Node {
    Line(Box<Node>),
    VarDefinition(Box<Node>, Box<Node>),
    VarName(String),
    Value(String),
}

/// The model of a node.
pub open spec fn node_view(n: Node) -> NodeModel
    decreases n,
{
    match n {
        Node::Line(inner) => NodeModel::Line(Box::new(node_view(*inner))),
        Node::VarDefinition(name, value) => NodeModel::VarDefinition(
            Box::new(node_view(*name)),
            Box::new(node_view(*value)),
        ),
        Node::VarName(s) => NodeModel::VarName(s@),
        Node::Value(s) => NodeModel::Value(s@),
    }
}

/// The model of a whole node sequence.
pub open spec fn nodes_view(ns: Seq<Node>) -> Seq<NodeModel> {
    Seq::new(ns.len(), |i: int| node_view(ns[i]))
}

/// The token under the cursor; past the end of the sequence it is the
/// `EOF` sentinel, never an out-of-bounds access.
pub open spec fn spec_current(toks: Seq<TokenModel>, i: int) -> TokenModel {
    if 0 <= i < toks.len() {
        toks[i]
    } else {
        TokenModel::EOF
    }
}

pub open spec fn spec_expected_newline() -> Seq<char> {
    "a newline at the end of a line"@
}

pub open spec fn spec_expected_definition() -> Seq<char> {
    "':=' for a variable definition"@
}

pub open spec fn spec_expected_var_name() -> Seq<char> {
    "the variable name at the beginning of a line"@
}

pub open spec fn spec_expected_value() -> Seq<char> {
    "the value of the variable"@
}

/// What parsing a `VarName` at cursor `i` yields: the node and the new
/// cursor, or the failure.
pub open spec fn spec_var_name(toks: Seq<TokenModel>, i: int) -> Result<(NodeModel, int), ErrorModel> {
    match spec_current(toks, i) {
        TokenModel::Identifier(s) => Ok((NodeModel::VarName(s), i + 1)),
        t => Err(ErrorModel::SyntaxError(spec_expected_var_name(), spec_token_display(t))),
    }
}

/// What parsing a `Value` at cursor `i` yields.
pub open spec fn spec_value(toks: Seq<TokenModel>, i: int) -> Result<(NodeModel, int), ErrorModel> {
    match spec_current(toks, i) {
        TokenModel::IntLiteral(s) => Ok((NodeModel::Value(s), i + 1)),
        t => Err(ErrorModel::SyntaxError(spec_expected_value(), spec_token_display(t))),
    }
}

/// What parsing a `VarDefinition` at cursor `i` yields.
pub open spec fn spec_var_definition(toks: Seq<TokenModel>, i: int) -> Result<
    (NodeModel, int),
    ErrorModel,
> {
    match spec_var_name(toks, i) {
        Err(e) => Err(e),
        Ok((name, j)) => {
            if spec_current(toks, j) is Definion {
                match spec_value(toks, j + 1) {
                    Err(e) => Err(e),
                    Ok((value, k)) => Ok(
                        (NodeModel::VarDefinition(Box::new(name), Box::new(value)), k),
                    ),
                }
            } else {
                Err(
                    ErrorModel::SyntaxError(
                        spec_expected_definition(),
                        spec_token_display(spec_current(toks, j)),
                    ),
                )
            }
        },
    }
}

/// What parsing a `Line` at cursor `i` yields.
pub open spec fn spec_line(toks: Seq<TokenModel>, i: int) -> Result<(NodeModel, int), ErrorModel> {
    match spec_var_definition(toks, i) {
        Err(e) => Err(e),
        Ok((def, j)) => {
            if spec_current(toks, j) is Newline {
                Ok((NodeModel::Line(Box::new(def)), j + 1))
            } else {
                Err(
                    ErrorModel::SyntaxError(
                        spec_expected_newline(),
                        spec_token_display(spec_current(toks, j)),
                    ),
                )
            }
        },
    }
}

/// Where the cursor stands after a failed line parse at `i`: at the first
/// offending token, just past the matched prefix. A name mismatch consumes
/// nothing; a missing `:=` leaves the consumed name behind; a value
/// mismatch leaves name and operator behind; a missing newline leaves the
/// whole definition behind.
pub open spec fn spec_line_error_cursor(toks: Seq<TokenModel>, i: int) -> int {
    if spec_var_name(toks, i) is Err {
        i
    } else if !(spec_current(toks, i + 1) is Definion) {
        i + 1
    } else if spec_value(toks, i + 2) is Err {
        i + 2
    } else {
        i + 3
    }
}

/// Prepends already-parsed nodes to the outcome of parsing the rest of
/// the tokens; an error passes through unchanged.
pub open spec fn with_nodes(pre: Seq<NodeModel>, r: Result<Seq<NodeModel>, ErrorModel>) -> Result<
    Seq<NodeModel>,
    ErrorModel,
> {
    match r {
        Ok(rest) => Ok(pre + rest),
        Err(e) => Err(e),
    }
}

pub proof fn lemma_with_nodes_empty(r: Result<Seq<NodeModel>, ErrorModel>)
    ensures
        with_nodes(Seq::empty(), r) == r,
{
    match r {
        Ok(rest) => {
            assert(Seq::<NodeModel>::empty() + rest =~= rest);
        },
        Err(_) => {},
    }
}

pub proof fn lemma_with_nodes_assoc(
    a: Seq<NodeModel>,
    b: Seq<NodeModel>,
    r: Result<Seq<NodeModel>, ErrorModel>,
)
    ensures
        with_nodes(a, with_nodes(b, r)) == with_nodes(a + b, r),
{
    match r {
        Ok(rest) => {
            assert(a + (b + rest) =~= (a + b) + rest);
        },
        Err(_) => {},
    }
}

/// What parsing the tokens from cursor `i` onward yields: one `Line` after
/// another until the end of the sequence, stopping at the first failure.
pub open spec fn spec_parse_at(toks: Seq<TokenModel>, i: int) -> Result<Seq<NodeModel>, ErrorModel>
    decreases toks.len() - i when 0 <= i <= toks.len()
{
    if i >= toks.len() {
        Ok(Seq::empty())
    } else {
        match spec_line(toks, i) {
            Err(e) => Err(e),
            Ok((n, j)) => with_nodes(seq![n], spec_parse_at(toks, j)),
        }
    }
}

/// What parsing the whole token sequence yields.
pub open spec fn spec_parse(toks: Seq<TokenModel>) -> Result<Seq<NodeModel>, ErrorModel> {
    spec_parse_at(toks, 0)
}

/// The abstract syntax tree: an ordered sequence of `Line` nodes, in
/// source order, built once from a token sequence it takes ownership of.
#[derive(Debug, PartialEq)]
pub struct AST {
    /// The parsed statements, in source order.
    pub nodes: Vec<Node>,
    /// The tokens the statements were parsed from.
    pub tokens: Vec<Token>,
    /// The parse cursor; it only advances, never rewinds.
    pub index: usize,
}

impl AST {
    /// Parses a whole token sequence. Returns the statement sequence
    /// exactly as the grammar describes it, or the first syntactic
    /// failure.
    pub fn new(token_list: TokenList) -> (r: Result<AST, Error>)
        ensures
            match r {
                Ok(ast) => {
                    &&& spec_parse(tokens_view(token_list.tokens@)) == Ok::<
                        Seq<NodeModel>,
                        ErrorModel,
                    >(nodes_view(ast.nodes@))
                    &&& ast.tokens@ == token_list.tokens@
                    &&& ast.index == ast.tokens@.len()
                },
                Err(e) => spec_parse(tokens_view(token_list.tokens@)) == Err::<
                    Seq<NodeModel>,
                    ErrorModel,
                >(e@),
            },
    {
        let mut ast = AST { nodes: Vec::new(), tokens: token_list.tokens, index: 0 };
        match ast.parse() {
            Ok(()) => Ok(ast),
            Err(e) => Err(e),
        }
    }

    /// The token under the cursor, or the `EOF` sentinel past the end.
    fn current(&self) -> (t: &Token)
        ensures
            t@ == spec_current(tokens_view(self.tokens@), self.index as int),
    {
        if self.index < self.tokens.len() {
            &self.tokens[self.index]
        } else {
            &Token::EOF
        }
    }

    /// Parses one `Line` after another until the cursor reaches the end of
    /// the token sequence; the first failure stops processing immediately.
    fn parse(&mut self) -> (r: Result<(), Error>)
        requires
            old(self).index == 0,
            old(self).nodes@.len() == 0,
        ensures
            final(self).tokens@ == old(self).tokens@,
            match r {
                Ok(()) => {
                    &&& spec_parse(tokens_view(old(self).tokens@)) == Ok::<
                        Seq<NodeModel>,
                        ErrorModel,
                    >(nodes_view(final(self).nodes@))
                    &&& final(self).index == old(self).tokens@.len()
                },
                Err(e) => spec_parse(tokens_view(old(self).tokens@)) == Err::<
                    Seq<NodeModel>,
                    ErrorModel,
                >(e@),
            },
    {
        let ghost tv = tokens_view(self.tokens@);
        proof {
            assert(nodes_view(self.nodes@) =~= Seq::<NodeModel>::empty());
            lemma_with_nodes_empty(spec_parse_at(tv, 0));
        }
        while self.index < self.tokens.len()
            invariant
                old(self).tokens@ == self.tokens@,
                tv == tokens_view(self.tokens@),
                self.index <= self.tokens.len(),
                spec_parse(tv) == with_nodes(
                    nodes_view(self.nodes@),
                    spec_parse_at(tv, self.index as int),
                ),
            decreases self.tokens.len() - self.index,
        {
            let ghost i = self.index as int;
            let ghost pre = nodes_view(self.nodes@);
            match self.line() {
                Ok(node) => {
                    let ghost n = node_view(node);
                    let ghost j = self.index as int;
                    self.nodes.push(node);
                    proof {
                        assert(spec_parse_at(tv, i) == with_nodes(seq![n], spec_parse_at(tv, j)));
                        assert(nodes_view(self.nodes@) =~= pre + seq![n]);
                        lemma_with_nodes_assoc(pre, seq![n], spec_parse_at(tv, j));
                    }
                },
                Err(e) => {
                    return Err(e);
                },
            }
        }
        proof {
            assert(spec_parse_at(tv, tv.len() as int) == Ok::<Seq<NodeModel>, ErrorModel>(
                Seq::empty(),
            ));
            assert(nodes_view(self.nodes@) + Seq::<NodeModel>::empty() =~= nodes_view(
                self.nodes@,
            ));
        }
        Ok(())
    }

    /// Parses one `Line`: a `VarDefinition` closed by a `Newline` token.
    fn line(&mut self) -> (r: Result<Node, Error>)
        requires
            old(self).index <= old(self).tokens.len(),
        ensures
            final(self).tokens@ == old(self).tokens@,
            final(self).nodes@ == old(self).nodes@,
            ({
                let tv = tokens_view(old(self).tokens@);
                let i = old(self).index as int;
                match r {
                    Ok(n) => {
                        &&& spec_line(tv, i) == Ok::<(NodeModel, int), ErrorModel>(
                            (node_view(n), final(self).index as int),
                        )
                        &&& i < final(self).index as int <= tv.len()
                    },
                    Err(e) => {
                        &&& spec_line(tv, i) == Err::<(NodeModel, int), ErrorModel>(e@)
                        &&& final(self).index as int == spec_line_error_cursor(tv, i)
                    },
                }
            }),
    {
        let node: Node;
        match self.var_definition() {
            Ok(n) => {
                node = Node::Line(Box::new(n));
            },
            Err(e) => {
                return Err(e);
            },
        }
        let token = self.current();
        match token {
            Token::Newline => {
                self.index = self.index + 1;
                Ok(node)
            },
            _ => {
                Err(Error::SyntaxError("a newline at the end of a line", token.display()))
            },
        }
    }

    /// Parses one `VarDefinition`: a `VarName`, the `:=` operator, and a
    /// `Value`.
    fn var_definition(&mut self) -> (r: Result<Node, Error>)
        requires
            old(self).index <= old(self).tokens.len(),
        ensures
            final(self).tokens@ == old(self).tokens@,
            final(self).nodes@ == old(self).nodes@,
            ({
                let tv = tokens_view(old(self).tokens@);
                let i = old(self).index as int;
                match r {
                    Ok(n) => {
                        &&& spec_var_definition(tv, i) == Ok::<(NodeModel, int), ErrorModel>(
                            (node_view(n), final(self).index as int),
                        )
                        &&& i < final(self).index as int <= tv.len()
                    },
                    Err(e) => {
                        &&& spec_var_definition(tv, i) == Err::<(NodeModel, int), ErrorModel>(
                            e@,
                        )
                        &&& final(self).index as int == spec_line_error_cursor(tv, i)
                    },
                }
            }),
    {
        let name: Node;
        match self.var_name() {
            Ok(n) => {
                name = n;
            },
            Err(e) => {
                return Err(e);
            },
        }
        let token = self.current();
        match token {
            Token::Definion => {
                self.index = self.index + 1;
            },
            _ => {
                return Err(
                    Error::SyntaxError("':=' for a variable definition", token.display()),
                );
            },
        }
        let value: Node;
        match self.value() {
            Ok(n) => {
                value = n;
            },
            Err(e) => {
                return Err(e);
            },
        }
        Ok(Node::VarDefinition(Box::new(name), Box::new(value)))
    }

    /// Parses one `VarName`: the current token must be an `Identifier`.
    fn var_name(&mut self) -> (r: Result<Node, Error>)
        requires
            old(self).index <= old(self).tokens.len(),
        ensures
            final(self).tokens@ == old(self).tokens@,
            final(self).nodes@ == old(self).nodes@,
            ({
                let tv = tokens_view(old(self).tokens@);
                let i = old(self).index as int;
                match r {
                    Ok(n) => {
                        &&& spec_var_name(tv, i) == Ok::<(NodeModel, int), ErrorModel>(
                            (node_view(n), final(self).index as int),
                        )
                        &&& i < final(self).index as int <= tv.len()
                    },
                    Err(e) => {
                        &&& spec_var_name(tv, i) == Err::<(NodeModel, int), ErrorModel>(e@)
                        &&& final(self).index == old(self).index
                    },
                }
            }),
    {
        let token = self.current();
        match token {
            Token::Identifier(s) => {
                let name = s.clone();
                self.index = self.index + 1;
                Ok(Node::VarName(name))
            },
            _ => {
                Err(
                    Error::SyntaxError(
                        "the variable name at the beginning of a line",
                        token.display(),
                    ),
                )
            },
        }
    }

    /// Parses one `Value`: the current token must be an `IntLiteral`.
    fn value(&mut self) -> (r: Result<Node, Error>)
        requires
            old(self).index <= old(self).tokens.len(),
        ensures
            final(self).tokens@ == old(self).tokens@,
            final(self).nodes@ == old(self).nodes@,
            ({
                let tv = tokens_view(old(self).tokens@);
                let i = old(self).index as int;
                match r {
                    Ok(n) => {
                        &&& spec_value(tv, i) == Ok::<(NodeModel, int), ErrorModel>(
                            (node_view(n), final(self).index as int),
                        )
                        &&& i < final(self).index as int <= tv.len()
                    },
                    Err(e) => {
                        &&& spec_value(tv, i) == Err::<(NodeModel, int), ErrorModel>(e@)
                        &&& final(self).index == old(self).index
                    },
                }
            }),
    {
        let token = self.current();
        match token {
            Token::IntLiteral(s) => {
                let value = s.clone();
                self.index = self.index + 1;
                Ok(Node::Value(value))
            },
            _ => {
                Err(Error::SyntaxError("the value of the variable", token.display()))
            },
        }
    }
}

/// The display form of a node: the definitions it holds, rendered as
/// `name:=value`.
pub open spec fn spec_node_display(n: NodeModel) -> Seq<char>
    decreases n,
{
    match n {
        NodeModel::Line(inner) => spec_node_display(*inner),
        NodeModel::VarDefinition(name, value) => (spec_node_display(*name) + ":="@)
            + spec_node_display(*value),
        NodeModel::VarName(s) => s,
        NodeModel::Value(s) => s,
    }
}

/// The items of a node sequence's display form, comma-separated.
pub open spec fn spec_node_items(ns: Seq<NodeModel>) -> Seq<char>
    decreases ns.len(),
{
    if ns.len() == 0 {
        Seq::empty()
    } else {
        (spec_node_items(ns.drop_last()) + (if ns.len() == 1 {
            Seq::empty()
        } else {
            ", "@
        })) + spec_node_display(ns.last())
    }
}

/// The display form of a whole node sequence.
pub open spec fn spec_ast_display(ns: Seq<NodeModel>) -> Seq<char> {
    ("["@ + spec_node_items(ns)) + "]"@
}

impl Node {
    /// The display form of this node, rendering each definition it holds
    /// as `name:=value`.
    pub fn display(&self) -> (out: String)
        ensures
            out@ == spec_node_display(node_view(*self)),
        decreases *self,
    {
        match self {
            Node::Line(inner) => (&**inner).display(),
            Node::VarDefinition(name, value) => {
                let mut out = (&**name).display();
                out.append(":=");
                let rendered = (&**value).display();
                out.append(rendered.as_str());
                out
            },
            Node::VarName(s) => s.clone(),
            Node::Value(s) => s.clone(),
        }
    }
}

impl AST {
    /// The display form of this tree: the nodes' display forms,
    /// comma-separated inside square brackets.
    pub fn display(&self) -> (out: String)
        ensures
            out@ == spec_ast_display(nodes_view(self.nodes@)),
    {
        let ghost nv = nodes_view(self.nodes@);
        let mut out = String::from_str("[");
        proof {
            assert(nv.take(0) =~= Seq::<NodeModel>::empty());
            assert("["@ + Seq::<char>::empty() =~= "["@);
        }
        for i in 0..self.nodes.len()
            invariant
                nv == nodes_view(self.nodes@),
                out@ == "["@ + spec_node_items(nv.take(i as int)),
        {
            if i != 0 {
                out.append(", ");
            }
            let rendered = self.nodes[i].display();
            out.append(rendered.as_str());
            proof {
                assert(nv.take(i + 1).drop_last() =~= nv.take(i as int));
                assert(nv.take(i + 1).last() == nv[i as int]);
                let sep: Seq<char> = if i == 0 {
                    Seq::empty()
                } else {
                    ", "@
                };
                assert(spec_node_items(nv.take(i + 1)) == (spec_node_items(nv.take(i as int))
                    + sep) + spec_node_display(nv[i as int]));
                assert(("["@ + spec_node_items(nv.take(i as int))) + sep + spec_node_display(
                    nv[i as int],
                ) =~= "["@ + ((spec_node_items(nv.take(i as int)) + sep) + spec_node_display(
                    nv[i as int],
                )));
            }
        }
        proof {
            assert(nv.take(nv.len() as int) =~= nv);
        }
        out.append("]");
        out
    }
}

} // verus!
