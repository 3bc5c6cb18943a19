//! Code generation: the statement sequence becomes output-language source
//! text, one top-level block with an opening header line, one indented line
//! per statement in program order, and a closing footer line.

use vstd::prelude::*;
use vstd::string::StringExecFns;
use crate::parser::{node_view, nodes_view, Node, NodeModel};

verus! {

/// One indentation unit, repeated once per nesting level.
pub open spec fn spec_indentation(n: nat) -> Seq<char>
    decreases n,
{
    if n == 0 {
        Seq::empty()
    } else {
        spec_indentation((n - 1) as nat) + "    "@
    }
}

/// The text a node renders to at the given nesting level. `VarName` and
/// `Value` render as their stored text verbatim.
pub open spec fn spec_node_text(n: NodeModel, indent: nat) -> Seq<char>
    decreases n,
{
    match n {
        NodeModel::Line(inner) => spec_node_text(*inner, indent),
        NodeModel::VarDefinition(name, value) => spec_indentation(indent) + "let "@
            + spec_node_text(*name, indent) + " = "@ + spec_node_text(*value, indent) + ";\n"@,
        NodeModel::VarName(s) => s,
        NodeModel::Value(s) => s,
    }
}

/// The statement lines of the output: each node rendered at nesting level
/// one, in program order.
pub open spec fn spec_body(nodes: Seq<NodeModel>) -> Seq<char>
    decreases nodes.len(),
{
    if nodes.len() == 0 {
        Seq::empty()
    } else {
        spec_node_text(nodes[0], 1) + spec_body(nodes.drop_first())
    }
}

/// The whole output text: header, statement lines, footer.
pub open spec fn spec_transpile(nodes: Seq<NodeModel>) -> Seq<char> {
    "fn main() {\n"@ + spec_body(nodes) + "}\n"@
}

/// Splitting off the last statement of a prefix: the body of the first
/// `k + 1` statements is the body of the first `k` followed by the
/// rendering of statement `k`.
pub proof fn lemma_body_snoc(nodes: Seq<NodeModel>, k: int)
    requires
        0 <= k < nodes.len(),
    ensures
        spec_body(nodes.take(k + 1)) == spec_body(nodes.take(k)) + spec_node_text(nodes[k], 1),
    decreases k,
{
    if k == 0 {
        assert(nodes.take(0) =~= Seq::<NodeModel>::empty());
        assert(nodes.take(1).drop_first() =~= Seq::<NodeModel>::empty());
        assert(nodes.take(1)[0] == nodes[0]);
        assert(spec_node_text(nodes[0], 1) + Seq::<char>::empty() =~= spec_node_text(
            nodes[0],
            1,
        ));
        assert(Seq::<char>::empty() + spec_node_text(nodes[0], 1) =~= spec_node_text(
            nodes[0],
            1,
        ));
    } else {
        let rest = nodes.drop_first();
        lemma_body_snoc(rest, k - 1);
        assert(nodes.take(k + 1).drop_first() =~= rest.take(k));
        assert(nodes.take(k).drop_first() =~= rest.take(k - 1));
        assert(nodes.take(k + 1)[0] == nodes[0]);
        assert(nodes.take(k)[0] == nodes[0]);
        assert(rest[k - 1] == nodes[k]);
        assert(spec_node_text(nodes[0], 1) + (spec_body(rest.take(k - 1)) + spec_node_text(
            nodes[k],
            1,
        )) =~= (spec_node_text(nodes[0], 1) + spec_body(rest.take(k - 1))) + spec_node_text(
            nodes[k],
            1,
        ));
    }
}

/// No newline character occurs in `s`.
pub open spec fn newline_free(s: Seq<char>) -> bool {
    forall|k: int| 0 <= k < s.len() ==> s[k] != '\n'
}

/// The number of newline characters in `s`.
pub open spec fn newline_count(s: Seq<char>) -> nat
    decreases s.len(),
{
    if s.len() == 0 {
        0
    } else {
        (if s[0] == '\n' {
            1nat
        } else {
            0nat
        }) + newline_count(s.drop_first())
    }
}

pub proof fn lemma_newline_count_concat(a: Seq<char>, b: Seq<char>)
    ensures
        newline_count(a + b) == newline_count(a) + newline_count(b),
    decreases a.len(),
{
    if a.len() == 0 {
        assert(a + b =~= b);
    } else {
        lemma_newline_count_concat(a.drop_first(), b);
        assert((a + b).drop_first() =~= a.drop_first() + b);
        assert((a + b)[0] == a[0]);
    }
}

pub proof fn lemma_newline_count_free(s: Seq<char>)
    requires
        newline_free(s),
    ensures
        newline_count(s) == 0,
    decreases s.len(),
{
    if s.len() > 0 {
        assert(newline_free(s.drop_first()));
        lemma_newline_count_free(s.drop_first());
    }
}

/// A well-formed statement as the parser builds it: a `Line` wrapping a
/// `VarDefinition` whose children are a `VarName` and a `Value` with
/// newline-free texts.
pub open spec fn wf_statement(n: NodeModel) -> bool {
    &&& n matches NodeModel::Line(inner)
    &&& *inner matches NodeModel::VarDefinition(name, value)
    &&& *name matches NodeModel::VarName(s) && newline_free(s)
    &&& *value matches NodeModel::Value(v) && newline_free(v)
}

pub proof fn lemma_indentation_newline_free(n: nat)
    ensures
        newline_count(spec_indentation(n)) == 0,
    decreases n,
{
    if n == 0 {
        assert(newline_count(spec_indentation(0)) == 0);
    } else {
        lemma_indentation_newline_free((n - 1) as nat);
        reveal_strlit("    ");
        assert(newline_free("    "@));
        lemma_newline_count_free("    "@);
        lemma_newline_count_concat(spec_indentation((n - 1) as nat), "    "@);
    }
}

/// A well-formed statement renders to exactly one line: its text holds
/// exactly one newline character, the one its terminator ends with.
pub proof fn lemma_statement_renders_one_line(n: NodeModel)
    requires
        wf_statement(n),
    ensures
        newline_count(spec_node_text(n, 1)) == 1,
{
    let inner = n->Line_0;
    let name = (*inner)->VarDefinition_0;
    let value = (*inner)->VarDefinition_1;
    let s = (*name)->VarName_0;
    let v = (*value)->Value_0;
    reveal_strlit("let ");
    reveal_strlit(" = ");
    reveal_strlit(";\n");
    assert(newline_free("let "@));
    assert(newline_free(" = "@));
    lemma_indentation_newline_free(1);
    lemma_newline_count_free("let "@);
    lemma_newline_count_free(" = "@);
    lemma_newline_count_free(s);
    lemma_newline_count_free(v);
    assert(";\n"@ =~= seq![';', '\n']);
    assert(seq![';', '\n'].drop_first() =~= seq!['\n']);
    assert(seq!['\n'].drop_first() =~= Seq::<char>::empty());
    assert(newline_count(Seq::<char>::empty()) == 0);
    assert(newline_count(seq!['\n']) == 1);
    assert(newline_count(";\n"@) == 1);
    let a1 = spec_indentation(1) + "let "@;
    let a2 = a1 + s;
    let a3 = a2 + " = "@;
    let a4 = a3 + v;
    lemma_newline_count_concat(spec_indentation(1), "let "@);
    lemma_newline_count_concat(a1, s);
    lemma_newline_count_concat(a2, " = "@);
    lemma_newline_count_concat(a3, v);
    lemma_newline_count_concat(a4, ";\n"@);
    assert(spec_node_text(n, 1) == spec_node_text(*inner, 1));
    assert(spec_node_text(*name, 1) == s);
    assert(spec_node_text(*value, 1) == v);
    assert(spec_node_text(*inner, 1) == a4 + ";\n"@);
}

pub proof fn lemma_body_newline_count(nodes: Seq<NodeModel>)
    requires
        forall|k: int| 0 <= k < nodes.len() ==> wf_statement(#[trigger] nodes[k]),
    ensures
        newline_count(spec_body(nodes)) == nodes.len(),
    decreases nodes.len(),
{
    if nodes.len() > 0 {
        let rest = nodes.drop_first();
        assert(forall|k: int| 0 <= k < rest.len() ==> wf_statement(#[trigger] rest[k]));
        lemma_body_newline_count(rest);
        lemma_statement_renders_one_line(nodes[0]);
        lemma_newline_count_concat(spec_node_text(nodes[0], 1), spec_body(rest));
    }
}

/// Law: generation is order-preserving. For any program of well-formed
/// statements the output is the header, one rendered statement line per
/// program node, and the footer; the body of any prefix extends the body
/// of the shorter prefix by the rendering of its last node, and the body
/// holds exactly as many lines as the program holds nodes.
pub proof fn lemma_generation_order_preserving(nodes: Seq<NodeModel>)
    requires
        forall|k: int| 0 <= k < nodes.len() ==> wf_statement(#[trigger] nodes[k]),
    ensures
        spec_transpile(nodes) == "fn main() {\n"@ + spec_body(nodes) + "}\n"@,
        forall|k: int|
            0 <= k < nodes.len() ==> spec_body(nodes.take(k + 1)) == spec_body(nodes.take(k))
                + spec_node_text(#[trigger] nodes[k], 1),
        newline_count(spec_body(nodes)) == nodes.len(),
{
    assert forall|k: int| 0 <= k < nodes.len() implies spec_body(nodes.take(k + 1)) == spec_body(
        nodes.take(k),
    ) + spec_node_text(#[trigger] nodes[k], 1) by {
        lemma_body_snoc(nodes, k);
    }
    lemma_body_newline_count(nodes);
}

/// The height of a node tree; the termination measure for the mutually
/// recursive rendering functions.
pub open spec fn node_height(n: Node) -> nat
    decreases n,
{
    match n {
        Node::Line(inner) => node_height(*inner) + 1,
        Node::VarDefinition(name, value) => max_height(node_height(*name), node_height(*value))
            + 1,
        Node::VarName(_) => 0,
        Node::Value(_) => 0,
    }
}

pub open spec fn max_height(a: nat, b: nat) -> nat {
    if a >= b {
        a
    } else {
        b
    }
}

/// Renders a whole program: an opening `fn main() {` line, one indented
/// `let` binding per statement in program order, and a closing `}` line.
pub fn transpile(nodes: &Vec<Node>) -> (out: String)
    ensures
        out@ == spec_transpile(nodes_view(nodes@)),
{
    let ghost nv = nodes_view(nodes@);
    let mut out = String::from_str("fn main() {\n");
    proof {
        assert(nv.take(0) =~= Seq::<NodeModel>::empty());
    }
    for i in 0..nodes.len()
        invariant
            nv == nodes_view(nodes@),
            out@ == "fn main() {\n"@ + spec_body(nv.take(i as int)),
    {
        let rendered = node(&nodes[i], 1);
        out.append(rendered.as_str());
        proof {
            lemma_body_snoc(nv, i as int);
            assert(("fn main() {\n"@ + spec_body(nv.take(i as int))) + spec_node_text(
                nv[i as int],
                1,
            ) =~= "fn main() {\n"@ + (spec_body(nv.take(i as int)) + spec_node_text(
                nv[i as int],
                1,
            )));
        }
    }
    proof {
        assert(nv.take(nv.len() as int) =~= nv);
    }
    out.append("}\n");
    out
}

/// Renders one node at the given nesting level.
fn node(n: &Node, indent: usize) -> (out: String)
    ensures
        out@ == spec_node_text(node_view(*n), indent as nat),
    decreases node_height(*n), 0int,
{
    match n {
        Node::Line(inner) => line(&**inner, indent),
        Node::VarDefinition(name, value) => var_definition(&**name, &**value, indent),
        Node::VarName(s) => var_name(s),
        Node::Value(s) => value(s),
    }
}

/// Renders the statement a `Line` wraps.
fn line(n: &Node, indent: usize) -> (out: String)
    ensures
        out@ == spec_node_text(node_view(*n), indent as nat),
    decreases node_height(*n), 1int,
{
    node(n, indent)
}

/// Renders one binding: indentation, the binding keyword, the name, the
/// assignment symbol, the value, the statement terminator, a newline.
fn var_definition(n1: &Node, n2: &Node, indent: usize) -> (out: String)
    ensures
        out@ == spec_indentation(indent as nat) + "let "@ + spec_node_text(
            node_view(*n1),
            indent as nat,
        ) + " = "@ + spec_node_text(node_view(*n2), indent as nat) + ";\n"@,
    decreases max_height(node_height(*n1), node_height(*n2)), 1int,
{
    let mut out = indentation(indent);
    out.append("let ");
    let name = node(n1, indent);
    out.append(name.as_str());
    out.append(" = ");
    let val = node(n2, indent);
    out.append(val.as_str());
    out.append(";\n");
    out
}

/// Renders a `VarName`: its stored text verbatim.
fn var_name(s: &String) -> (out: String)
    ensures
        out@ == s@,
{
    s.clone()
}

/// Renders a `Value`: its stored text verbatim.
fn value(s: &String) -> (out: String)
    ensures
        out@ == s@,
{
    s.clone()
}

/// The indentation unit repeated once per nesting level.
fn indentation(indent: usize) -> (out: String)
    ensures
        out@ == spec_indentation(indent as nat),
{
    let mut out = String::new();
    proof {
        assert(out@ =~= spec_indentation(0));
    }
    for k in 0..indent
        invariant
            out@ == spec_indentation(k as nat),
    {
        out.append("    ");
        proof {
            assert(spec_indentation((k + 1) as nat) == spec_indentation(k as nat) + "    "@);
        }
    }
    out
}

} // verus!
