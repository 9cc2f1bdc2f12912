//! The code emitter: walks the abstract syntax tree and renders C++ source
//! text.
//!
//! The model is `emit_program`: a pure function of the variable set and the
//! statement sequence, so emission is deterministic — equal trees give
//! byte-identical output.  The executable [`generate_code`] is proved to
//! return exactly its value.
//!
//! Expressions render as `<left><operator><right>` with no grouping
//! inserted, reproducing the tree's right-nesting textually; with mixed
//! operators the target language's own precedence then governs evaluation,
//! which can differ from the nesting — that rendering is preserved here
//! deliberately, as the defined behaviour.

use vstd::prelude::*;
use crate::ast::{Ast, Expression, ExprV, Node, NodeV, nodes_view, strs_view};

verus! {

// ---------------------------------------------------------------------------
// The emitter model
// ---------------------------------------------------------------------------

/// The decimal digit character for `d`.
pub open spec fn digit_char(d: int) -> char {
    if d == 0 { '0' }
    else if d == 1 { '1' }
    else if d == 2 { '2' }
    else if d == 3 { '3' }
    else if d == 4 { '4' }
    else if d == 5 { '5' }
    else if d == 6 { '6' }
    else if d == 7 { '7' }
    else if d == 8 { '8' }
    else { '9' }
}

/// The decimal numeral for `n`, most significant digit first.
pub open spec fn dec_digits(n: int) -> Seq<char>
    decreases n,
{
    if n < 10 {
        seq![digit_char(n)]
    } else {
        dec_digits(n / 10) + seq![digit_char(n % 10)]
    }
}

/// An expression renders as its leaves and operators in order, with no
/// grouping inserted.
pub open spec fn emit_expr(e: ExprV) -> Seq<char>
    decreases e,
{
    match e {
        ExprV::Operation { left, right, raw_operator } => emit_expr(*left) + raw_operator
            + emit_expr(*right),
        ExprV::Value(v) => v,
    }
}

/// One statement's rendering.
pub open spec fn emit_node(n: NodeV) -> Seq<char>
    decreases n, 2int,
{
    match n {
        NodeV::If { condition, body } => "if("@ + emit_expr(condition) + ")"@
            + emit_block(body),
        NodeV::IfElse { condition, body, else_body } => "if("@ + emit_expr(condition) + ")"@
            + emit_block(body) + "else"@ + emit_block(else_body),
        NodeV::Loop { loop_count, body } => "for(int i=0;i<"@ + dec_digits(loop_count)
            + ";i++)"@ + emit_block(body),
        NodeV::While { condition, body } => "while("@ + emit_expr(condition) + ")"@
            + emit_block(body),
        NodeV::VariableAssignment { identifier, value } => identifier + "="@
            + emit_expr(value) + ";"@,
        NodeV::Print(s) => "std::cout<<"@ + s + "<<std::endl;"@,
    }
}

/// A statement sequence renders in order.
pub open spec fn emit_nodes(ns: Seq<NodeV>) -> Seq<char>
    decreases ns, 0int,
{
    if ns.len() == 0 {
        Seq::empty()
    } else {
        emit_node(ns[0]) + emit_nodes(ns.drop_first())
    }
}

/// A nested statement sequence renders inside braces.
pub open spec fn emit_block(ns: Seq<NodeV>) -> Seq<char>
    decreases ns, 1int,
{
    "{"@ + emit_nodes(ns) + "}"@
}

/// The declared variables, joined by commas.
pub open spec fn var_list(vars: Seq<Seq<char>>) -> Seq<char>
    decreases vars.len(),
{
    if vars.len() == 0 {
        Seq::empty()
    } else if vars.len() == 1 {
        vars[0]
    } else {
        vars[0] + ","@ + var_list(vars.drop_first())
    }
}

/// The declaration statement: absent when no variable was seen.
pub open spec fn emit_decls(vars: Seq<Seq<char>>) -> Seq<char> {
    if vars.len() == 0 {
        Seq::empty()
    } else {
        "int "@ + var_list(vars) + ";"@
    }
}

/// The whole program: preamble, declarations, and the statements inside the
/// entry point.  A pure function of the tree, so emission is deterministic.
pub open spec fn emit_program(vars: Seq<Seq<char>>, ns: Seq<NodeV>) -> Seq<char> {
    "#include<iostream>\n"@ + emit_decls(vars) + "int main(){"@ + emit_nodes(ns) + "}"@
}

// ---------------------------------------------------------------------------
// Laws of the model
// ---------------------------------------------------------------------------

/// Appending one statement appends its rendering.
pub proof fn lemma_emit_nodes_push(ns: Seq<NodeV>, x: NodeV)
    ensures
        emit_nodes(ns.push(x)) == emit_nodes(ns) + emit_node(x),
    decreases ns.len(),
{
    if ns.len() == 0 {
        assert(ns =~= Seq::<NodeV>::empty());
        assert(ns.push(x)[0] == x);
        assert(ns.push(x).drop_first() =~= Seq::<NodeV>::empty());
        assert(emit_nodes(Seq::<NodeV>::empty()) == Seq::<char>::empty());
        assert(emit_node(x) + Seq::<char>::empty() =~= emit_node(x));
        assert(Seq::<char>::empty() + emit_node(x) =~= emit_node(x));
    } else {
        assert(ns.push(x)[0] == ns[0]);
        assert(ns.push(x).drop_first() =~= ns.drop_first().push(x));
        lemma_emit_nodes_push(ns.drop_first(), x);
        assert(emit_node(ns[0]) + (emit_nodes(ns.drop_first()) + emit_node(x))
            =~= (emit_node(ns[0]) + emit_nodes(ns.drop_first())) + emit_node(x));
    }
}

/// Appending one declared name extends the comma-joined list.
pub proof fn lemma_var_list_push(vars: Seq<Seq<char>>, x: Seq<char>)
    ensures
        vars.len() == 0 ==> var_list(vars.push(x)) == x,
        vars.len() >= 1 ==> var_list(vars.push(x)) == var_list(vars) + ","@ + x,
    decreases vars.len(),
{
    if vars.len() == 0 {
        assert(vars.push(x)[0] == x);
    } else if vars.len() == 1 {
        assert(vars.push(x)[0] == vars[0]);
        assert(vars.push(x).drop_first() =~= seq![x]);
        assert(var_list(seq![x]) == x);
    } else {
        assert(vars.push(x)[0] == vars[0]);
        assert(vars.push(x).drop_first() =~= vars.drop_first().push(x));
        lemma_var_list_push(vars.drop_first(), x);
        assert(vars[0] + ","@ + (var_list(vars.drop_first()) + ","@ + x)
            =~= (vars[0] + ","@ + var_list(vars.drop_first())) + ","@ + x);
    }
}

/// Emission is a pure function of the tree: two trees that read the same
/// render as byte-identical text.
pub proof fn lemma_emitter_deterministic(a: Ast, b: Ast)
    requires
        strs_view(a.seen_variables@) == strs_view(b.seen_variables@),
        nodes_view(a.sequence@) == nodes_view(b.sequence@),
    ensures
        emit_program(strs_view(a.seen_variables@), nodes_view(a.sequence@))
            == emit_program(strs_view(b.seen_variables@), nodes_view(b.sequence@)),
{
}

// ---------------------------------------------------------------------------
// The executable emitter
// ---------------------------------------------------------------------------

/// The single decimal digit character of `d` as a string.
fn digit_string(d: usize) -> (r: String)
    requires
        d < 10,
    ensures
        r@ == seq![digit_char(d as int)],
{
    let s = if d == 0 { "0" }
    else if d == 1 { "1" }
    else if d == 2 { "2" }
    else if d == 3 { "3" }
    else if d == 4 { "4" }
    else if d == 5 { "5" }
    else if d == 6 { "6" }
    else if d == 7 { "7" }
    else if d == 8 { "8" }
    else { "9" };
    proof {
        reveal_strlit("0");
        reveal_strlit("1");
        reveal_strlit("2");
        reveal_strlit("3");
        reveal_strlit("4");
        reveal_strlit("5");
        reveal_strlit("6");
        reveal_strlit("7");
        reveal_strlit("8");
        reveal_strlit("9");
        assert(s@ =~= seq![digit_char(d as int)]);
    }
    String::from_str(s)
}

/// The decimal numeral of `n` as a string.
fn usize_string(n: usize) -> (r: String)
    ensures
        r@ == dec_digits(n as int),
    decreases n,
{
    if n < 10 {
        digit_string(n)
    } else {
        let mut out = usize_string(n / 10);
        let d = digit_string(n % 10);
        out.append(d.as_str());
        out
    }
}

/// Renders an expression: leaves and operators in source order, nothing
/// inserted.
pub fn parse_expression(expression: &Expression) -> (r: String)
    ensures
        r@ == emit_expr(expression@),
    decreases expression,
{
    match expression {
        Expression::Operation { left, right, raw_operator } => {
            let mut out = parse_expression(&**left);
            out.append(raw_operator.as_str());
            let rs = parse_expression(&**right);
            out.append(rs.as_str());
            out
        },
        Expression::Value(value) => value.clone(),
    }
}

/// Renders the braced block around a statement sequence.
pub fn add_body(body: &Vec<Node>) -> (r: String)
    ensures
        r@ == emit_block(nodes_view(body@)),
    decreases body, 0int,
{
    let mut code = String::from_str("{");
    let n = body.len();
    let mut i: usize = 0;
    proof {
        assert(body@.take(0) =~= Seq::<Node>::empty());
        assert("{"@ + Seq::<char>::empty() =~= "{"@);
    }
    while i < n
        invariant
            n == body@.len(),
            i <= n,
            code@ == "{"@ + emit_nodes(nodes_view(body@.take(i as int))),
        decreases n - i,
    {
        let s = parse_node(&body[i]);
        code.append(s.as_str());
        proof {
            let ghost elem = body@[i as int];
            assert(body@.take(i + 1) =~= body@.take(i as int).push(elem));
            crate::ast::lemma_nodes_view_push(body@.take(i as int), elem);
            assert(nodes_view(body@.take(i as int)) + seq![elem@]
                =~= nodes_view(body@.take(i as int)).push(elem@));
            lemma_emit_nodes_push(nodes_view(body@.take(i as int)), elem@);
            assert("{"@ + (emit_nodes(nodes_view(body@.take(i as int))) + emit_node(elem@))
                =~= ("{"@ + emit_nodes(nodes_view(body@.take(i as int)))) + emit_node(elem@));
        }
        i = i + 1;
    }
    proof {
        assert(body@.take(n as int) =~= body@);
    }
    code.append("}");
    code
}

/// Renders an `if` head and its braced body.
pub fn add_if(condition: &Expression, body: &Vec<Node>) -> (r: String)
    ensures
        r@ == "if("@ + emit_expr(condition@) + ")"@ + emit_block(nodes_view(body@)),
    decreases body, 1int,
{
    let mut code = String::from_str("if(");
    let c = parse_expression(condition);
    code.append(c.as_str());
    code.append(")");
    let b = add_body(body);
    code.append(b.as_str());
    code
}

/// Renders one statement.
pub fn parse_node(node: &Node) -> (r: String)
    ensures
        r@ == emit_node(node@),
    decreases node, 2int,
{
    match node {
        Node::If { condition, body } => add_if(condition, body),
        Node::IfElse { condition, body, else_body } => {
            let mut code = add_if(condition, body);
            code.append("else");
            let eb = add_body(else_body);
            code.append(eb.as_str());
            code
        },
        Node::Loop { loop_count, body } => {
            let mut code = String::from_str("for(int i=0;i<");
            let cnt = usize_string(*loop_count);
            code.append(cnt.as_str());
            code.append(";i++)");
            let b = add_body(body);
            code.append(b.as_str());
            code
        },
        Node::Print(value) => {
            let mut code = String::from_str("std::cout<<");
            code.append(value.as_str());
            code.append("<<std::endl;");
            code
        },
        Node::VariableAssignment { value, identifier } => {
            let mut code = String::from_str("");
            code.append(identifier.as_str());
            code.append("=");
            let v = parse_expression(value);
            code.append(v.as_str());
            code.append(";");
            proof {
                reveal_strlit("");
                assert(""@ + identifier@ =~= identifier@);
            }
            code
        },
        Node::While { condition, body } => {
            let mut code = String::from_str("while(");
            let c = parse_expression(condition);
            code.append(c.as_str());
            code.append(")");
            let b = add_body(body);
            code.append(b.as_str());
            code
        },
    }
}

/// Renders the whole program from a parsed tree: the fixed preamble, one
/// declaration for every seen variable, and the statements inside the entry
/// point.  Exactly `emit_program` of the tree, so two runs over the same
/// tree give byte-identical text.
pub fn generate_code(ast: Ast) -> (r: String)
    ensures
        r@ == emit_program(strs_view(ast.seen_variables@), nodes_view(ast.sequence@)),
{
    let ghost pre = "#include<iostream>\n"@;
    let mut code = String::from_str("#include<iostream>\n");
    let nv = ast.seen_variables.len();
    if nv > 0 {
        code.append("int ");
        let mut i: usize = 0;
        while i < nv
            invariant
                nv == ast.seen_variables@.len(),
                0 < nv,
                i <= nv,
                i == 0 ==> code@ == pre + "int "@,
                i > 0 ==> code@ == pre + "int "@ + var_list(strs_view(
                    ast.seen_variables@.take(i as int),
                )),
                pre == "#include<iostream>\n"@,
            decreases nv - i,
        {
            if i > 0 {
                code.append(",");
            }
            code.append(ast.seen_variables[i].as_str());
            proof {
                let ghost vs = strs_view(ast.seen_variables@.take(i as int));
                let ghost x = ast.seen_variables@[i as int]@;
                assert(strs_view(ast.seen_variables@.take(i + 1))
                    =~= strs_view(ast.seen_variables@.take(i as int)).push(x));
                lemma_var_list_push(vs, x);
                if i > 0 {
                    assert(pre + "int "@ + (var_list(vs) + ","@ + x)
                        =~= ((pre + "int "@ + var_list(vs)) + ","@) + x);
                }
            }
            i = i + 1;
        }
        code.append(";");
        proof {
            assert(ast.seen_variables@.take(nv as int) =~= ast.seen_variables@);
            assert(pre + ("int "@ + var_list(strs_view(ast.seen_variables@)) + ";"@)
                =~= (pre + "int "@ + var_list(strs_view(ast.seen_variables@))) + ";"@);
        }
    } else {
        proof {
            assert(strs_view(ast.seen_variables@).len() == 0);
            assert(pre + Seq::<char>::empty() =~= pre);
        }
    }
    code.append("int main(){");
    let ghost mid = pre + emit_decls(strs_view(ast.seen_variables@)) + "int main(){"@;
    let n = ast.sequence.len();
    let mut i: usize = 0;
    proof {
        assert(ast.sequence@.take(0) =~= Seq::<Node>::empty());
        assert(mid + Seq::<char>::empty() =~= mid);
    }
    while i < n
        invariant
            n == ast.sequence@.len(),
            i <= n,
            code@ == mid + emit_nodes(nodes_view(ast.sequence@.take(i as int))),
            mid == pre + emit_decls(strs_view(ast.seen_variables@)) + "int main(){"@,
            pre == "#include<iostream>\n"@,
        decreases n - i,
    {
        let s = parse_node(&ast.sequence[i]);
        code.append(s.as_str());
        proof {
            let ghost elem = ast.sequence@[i as int];
            assert(ast.sequence@.take(i + 1) =~= ast.sequence@.take(i as int).push(elem));
            crate::ast::lemma_nodes_view_push(ast.sequence@.take(i as int), elem);
            assert(nodes_view(ast.sequence@.take(i as int)) + seq![elem@]
                =~= nodes_view(ast.sequence@.take(i as int)).push(elem@));
            lemma_emit_nodes_push(nodes_view(ast.sequence@.take(i as int)), elem@);
            assert(mid + (emit_nodes(nodes_view(ast.sequence@.take(i as int))) + emit_node(elem@))
                =~= (mid + emit_nodes(nodes_view(ast.sequence@.take(i as int)))) + emit_node(elem@));
        }
        i = i + 1;
    }
    proof {
        assert(ast.sequence@.take(n as int) =~= ast.sequence@);
    }
    code.append("}");
    code
}

} // verus!
