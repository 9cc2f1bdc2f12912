//! The parser: consumes the token sequence with a forward-only cursor and
//! builds the abstract syntax tree, tracking every variable the program
//! assigns to.
//!
//! The mathematical model is the family `spec_parse_expr` /
//! `spec_parse_stmt` / `spec_parse_body` / `spec_parse_program`: a
//! recursive-descent parser over token images.  The executable methods on
//! [`Ast`] are proved to follow it exactly.

use vstd::prelude::*;
use crate::lexer::{LexerErr, Token, TokenType, TokenV};

verus! {

// ---------------------------------------------------------------------------
// The tree
// ---------------------------------------------------------------------------

/// A parse error: the position of the offending token.
#[derive(PartialEq, Eq, Debug, Clone, Copy, Structural)]
pub struct AstErr {
    pub collumn: usize,
    pub line: usize,
}

/// An expression: a value leaf (a raw identifier or numeral), or a binary
/// operation.  Chains associate to the right: `a + b + c` is
/// `Operation(a, +, Operation(b, +, c))`.
#[derive(Debug)]
pub enum Expression {
    Operation { left: Box<Expression>, right: Box<Expression>, raw_operator: String },
    Value(String),
}

/// The mathematical image of an [`Expression`].
pub ghost enum ExprV {
    Operation { left: Box<ExprV>, right: Box<ExprV>, raw_operator: Seq<char> },
    Value(Seq<char>),
}

/// The image of an expression.
pub open spec fn expr_view(e: Expression) -> ExprV
    decreases e,
{
    match e {
        Expression::Operation { left, right, raw_operator } => ExprV::Operation {
            left: Box::new(expr_view(*left)),
            right: Box::new(expr_view(*right)),
            raw_operator: raw_operator@,
        },
        Expression::Value(v) => ExprV::Value(v@),
    }
}

impl View for Expression {
    type V = ExprV;

    open spec fn view(&self) -> ExprV {
        expr_view(*self)
    }
}

/// One statement.
#[derive(Debug)]
pub enum Node {
    If { condition: Expression, body: Vec<Node> },
    IfElse { condition: Expression, body: Vec<Node>, else_body: Vec<Node> },
    Loop { loop_count: usize, body: Vec<Node> },
    While { condition: Expression, body: Vec<Node> },
    VariableAssignment { identifier: String, value: Expression },
    Print(String),
}

/// The mathematical image of a [`Node`].
pub ghost enum NodeV {
    If { condition: ExprV, body: Seq<NodeV> },
    IfElse { condition: ExprV, body: Seq<NodeV>, else_body: Seq<NodeV> },
    Loop { loop_count: int, body: Seq<NodeV> },
    While { condition: ExprV, body: Seq<NodeV> },
    VariableAssignment { identifier: Seq<char>, value: ExprV },
    Print(Seq<char>),
}

/// The image of a statement.
pub open spec fn node_view(n: Node) -> NodeV
    decreases n,
{
    match n {
        Node::If { condition, body } => NodeV::If {
            condition: expr_view(condition),
            body: nodes_view(body@),
        },
        Node::IfElse { condition, body, else_body } => NodeV::IfElse {
            condition: expr_view(condition),
            body: nodes_view(body@),
            else_body: nodes_view(else_body@),
        },
        Node::Loop { loop_count, body } => NodeV::Loop {
            loop_count: loop_count as int,
            body: nodes_view(body@),
        },
        Node::While { condition, body } => NodeV::While {
            condition: expr_view(condition),
            body: nodes_view(body@),
        },
        Node::VariableAssignment { identifier, value } => NodeV::VariableAssignment {
            identifier: identifier@,
            value: expr_view(value),
        },
        Node::Print(s) => NodeV::Print(s@),
    }
}

/// The images of a statement sequence, in order.
pub open spec fn nodes_view(ns: Seq<Node>) -> Seq<NodeV>
    decreases ns,
{
    if ns.len() == 0 {
        Seq::empty()
    } else {
        seq![node_view(ns[0])] + nodes_view(ns.drop_first())
    }
}

impl View for Node {
    type V = NodeV;

    open spec fn view(&self) -> NodeV {
        node_view(*self)
    }
}

/// `nodes_view` maps the sequence element by element.
pub proof fn lemma_nodes_view_props(ns: Seq<Node>)
    ensures
        nodes_view(ns).len() == ns.len(),
        forall|i: int| 0 <= i < ns.len() ==> nodes_view(ns)[i] == #[trigger] ns[i]@,
    decreases ns.len(),
{
    if ns.len() > 0 {
        lemma_nodes_view_props(ns.drop_first());
        assert forall|i: int| 0 <= i < ns.len() implies nodes_view(ns)[i] == #[trigger] ns[i]@ by {
            if i > 0 {
                assert(ns.drop_first()[i - 1] == ns[i]);
                assert(nodes_view(ns)[i] == nodes_view(ns.drop_first())[i - 1]);
            }
        }
    }
}

/// Appending one statement appends its image.
pub proof fn lemma_nodes_view_push(ns: Seq<Node>, n: Node)
    ensures
        nodes_view(ns.push(n)) == nodes_view(ns) + seq![n@],
{
    lemma_nodes_view_props(ns);
    lemma_nodes_view_props(ns.push(n));
    assert forall|i: int| 0 <= i < ns.len() + 1
        implies nodes_view(ns.push(n))[i] == (nodes_view(ns) + seq![n@])[i] by {
        assert(nodes_view(ns.push(n))[i] == ns.push(n)[i]@);
        if i < ns.len() {
            assert(ns.push(n)[i] == ns[i]);
        } else {
            assert(ns.push(n)[i] == n);
        }
    }
    assert(nodes_view(ns.push(n)) =~= nodes_view(ns) + seq![n@]);
}

// ---------------------------------------------------------------------------
// Token images, keywords, numerals
// ---------------------------------------------------------------------------

/// The images of a token vector.
pub open spec fn toks_view(ts: Seq<Token>) -> Seq<TokenV> {
    ts.map_values(|t: Token| t@)
}

/// A well-formed token sequence: what collecting tokenizer output until the
/// terminal token yields — at least that terminal token, standing last and
/// nowhere else.
pub open spec fn toks_wf(t: Seq<TokenV>) -> bool {
    &&& t.len() >= 1
    &&& t[t.len() - 1].ty == TokenType::EOF
    &&& t[t.len() - 1].raw.len() == 0
    &&& forall|i: int| 0 <= i < t.len() - 1 ==> (#[trigger] t[i].ty) != TokenType::EOF
}

/// The fixed keyword set; everything else is an ordinary identifier.
pub open spec fn is_keyword_str(s: Seq<char>) -> bool {
    s == "while"@ || s == "loop"@ || s == "if"@ || s == "else"@ || s == "print"@
}

/// The numeric value of a digit character.
pub open spec fn char_digit(c: char) -> int {
    c as u32 - 48
}

/// Whether every character of `s` is a decimal digit.
pub open spec fn all_digits(s: Seq<char>) -> bool {
    forall|i: int| 0 <= i < s.len() ==> is_digit_char_at(s, i)
}

/// Helper predicate so that `all_digits` has a clean trigger.
pub open spec fn is_digit_char_at(s: Seq<char>, i: int) -> bool {
    crate::lexer::is_digit_char(s[i])
}

/// The value of a digit string, most significant digit first.
pub open spec fn digits_val(s: Seq<char>) -> int
    decreases s.len(),
{
    if s.len() == 0 {
        0
    } else {
        10 * digits_val(s.drop_last()) + char_digit(s.last())
    }
}

/// Whether a numeral denotes a value a `usize` can carry.
pub open spec fn fits_usize(s: Seq<char>) -> bool {
    all_digits(s) && digits_val(s) <= usize::MAX as int
}

/// The value of a digit string is never negative.
pub proof fn lemma_digits_val_nonneg(s: Seq<char>)
    requires
        all_digits(s),
    ensures
        digits_val(s) >= 0,
    decreases s.len(),
{
    if s.len() > 0 {
        assert forall|i: int| 0 <= i < s.drop_last().len()
            implies is_digit_char_at(s.drop_last(), i) by {
            assert(s.drop_last()[i] == s[i]);
            assert(is_digit_char_at(s, i));
        }
        lemma_digits_val_nonneg(s.drop_last());
        assert(is_digit_char_at(s, s.len() - 1));
    }
}

/// Reading further digits never shrinks the value.
pub proof fn lemma_digits_prefix_le(s: Seq<char>, i: int)
    requires
        all_digits(s),
        0 <= i <= s.len(),
    ensures
        digits_val(s.take(i)) <= digits_val(s),
    decreases s.len() - i,
{
    if i == s.len() {
        assert(s.take(i) =~= s);
    } else {
        assert forall|j: int| 0 <= j < s.take(i).len()
            implies is_digit_char_at(s.take(i), j) by {
            assert(s.take(i)[j] == s[j]);
            assert(is_digit_char_at(s, j));
        }
        lemma_digits_val_nonneg(s.take(i));
        assert(s.take(i + 1).drop_last() =~= s.take(i));
        assert(s.take(i + 1).last() == s[i]);
        assert(is_digit_char_at(s, i));
        assert(digits_val(s.take(i + 1)) == 10 * digits_val(s.take(i)) + char_digit(s[i]));
        lemma_digits_prefix_le(s, i + 1);
    }
}

// ---------------------------------------------------------------------------
// The parser model
// ---------------------------------------------------------------------------

/// The parse error pointing at a token.
pub open spec fn spec_err_at(tv: TokenV) -> AstErr {
    AstErr { collumn: tv.collumn as usize, line: tv.line as usize }
}

/// The parse error for running off the token sequence; with a well-formed
/// token sequence (`toks_wf`) it is never produced, since the terminal token
/// stops every production first.
pub open spec fn spec_err_oob() -> AstErr {
    AstErr { collumn: 0, line: 0 }
}

/// Expression parsing: one value token; then either a terminator (`;` or
/// `{`, left unconsumed, the cursor resting on it) ends the expression, or
/// the following token is taken as an operator and the rest parses as the
/// right-hand side, nesting rightward.
pub open spec fn spec_parse_expr(t: Seq<TokenV>, cur: int) -> Result<(ExprV, int), AstErr>
    decreases t.len() - cur, 0int,
{
    if !(0 <= cur < t.len()) {
        Err(spec_err_oob())
    } else if !(t[cur].ty == TokenType::Identifier || t[cur].ty == TokenType::Number) {
        Err(spec_err_at(t[cur]))
    } else if !(cur + 1 < t.len()) {
        Err(spec_err_oob())
    } else if t[cur + 1].raw == ";"@ || t[cur + 1].raw == "{"@ {
        Ok((ExprV::Value(t[cur].raw), cur + 1))
    } else if t[cur + 1].ty == TokenType::EOF {
        Err(spec_err_at(t[cur + 1]))
    } else if cur + 2 < t.len() {
        match spec_parse_expr(t, cur + 2) {
            Err(e) => Err(e),
            Ok((rhs, p)) => Ok((
                ExprV::Operation {
                    left: Box::new(ExprV::Value(t[cur].raw)),
                    right: Box::new(rhs),
                    raw_operator: t[cur + 1].raw,
                },
                p,
            )),
        }
    } else {
        Err(spec_err_oob())
    }
}

/// Statement parsing: dispatch on the first token.  A keyword starts its
/// construct; any other identifier starts an assignment; anything else is
/// malformed.  The guards `cur < _` only justify termination: parsing always
/// moves forward (`lemma_parse_stmt_bounds`), so they always hold of a
/// sub-parse's result.
pub open spec fn spec_parse_stmt(t: Seq<TokenV>, cur: int) -> Result<(NodeV, int), AstErr>
    decreases t.len() - cur, 2int,
{
    if !(0 <= cur < t.len()) {
        Err(spec_err_oob())
    } else if t[cur].ty != TokenType::Identifier {
        Err(spec_err_at(t[cur]))
    } else if is_keyword_str(t[cur].raw) {
        if t[cur].raw == "if"@ {
            match spec_parse_expr(t, cur + 1) {
                Err(e) => Err(e),
                Ok((cond, p)) => {
                    if !(0 <= p < t.len() && t[p].raw == "{"@) {
                        Err(if 0 <= p < t.len() { spec_err_at(t[p]) } else { spec_err_oob() })
                    } else if !(cur < p) {
                        Err(spec_err_oob())
                    } else {
                        match spec_parse_body(t, p + 1) {
                            Err(e) => Err(e),
                            Ok((body, q)) => {
                                if 0 <= q < t.len() && t[q].raw == "else"@ {
                                    if !(q + 1 < t.len() && t[q + 1].raw == "{"@) {
                                        Err(if q + 1 < t.len() {
                                            spec_err_at(t[q + 1])
                                        } else {
                                            spec_err_oob()
                                        })
                                    } else if !(cur < q) {
                                        Err(spec_err_oob())
                                    } else {
                                        match spec_parse_body(t, q + 2) {
                                            Err(e) => Err(e),
                                            Ok((else_body, z)) => Ok((
                                                NodeV::IfElse { condition: cond, body, else_body },
                                                z,
                                            )),
                                        }
                                    }
                                } else {
                                    Ok((NodeV::If { condition: cond, body }, q))
                                }
                            },
                        }
                    }
                },
            }
        } else if t[cur].raw == "while"@ {
            match spec_parse_expr(t, cur + 1) {
                Err(e) => Err(e),
                Ok((cond, p)) => {
                    if !(0 <= p < t.len() && t[p].raw == "{"@) {
                        Err(if 0 <= p < t.len() { spec_err_at(t[p]) } else { spec_err_oob() })
                    } else if !(cur < p) {
                        Err(spec_err_oob())
                    } else {
                        match spec_parse_body(t, p + 1) {
                            Err(e) => Err(e),
                            Ok((body, q)) => Ok((NodeV::While { condition: cond, body }, q)),
                        }
                    }
                },
            }
        } else if t[cur].raw == "loop"@ {
            if !(cur + 1 < t.len()) {
                Err(spec_err_oob())
            } else if t[cur + 1].ty != TokenType::Number {
                Err(spec_err_at(t[cur + 1]))
            } else if !fits_usize(t[cur + 1].raw) {
                Err(spec_err_at(t[cur + 1]))
            } else if !(cur + 2 < t.len()) {
                Err(spec_err_oob())
            } else if !(t[cur + 2].raw == "{"@) {
                Err(spec_err_at(t[cur + 2]))
            } else {
                match spec_parse_body(t, cur + 3) {
                    Err(e) => Err(e),
                    Ok((body, q)) => Ok((
                        NodeV::Loop { loop_count: digits_val(t[cur + 1].raw), body },
                        q,
                    )),
                }
            }
        } else if t[cur].raw == "print"@ {
            if !(cur + 1 < t.len()) {
                Err(spec_err_oob())
            } else if t[cur + 1].ty == TokenType::EOF {
                Err(spec_err_at(t[cur + 1]))
            } else if !(cur + 2 < t.len()) {
                Err(spec_err_oob())
            } else if !(t[cur + 2].raw == ";"@) {
                Err(spec_err_at(t[cur + 2]))
            } else {
                Ok((NodeV::Print(t[cur + 1].raw), cur + 3))
            }
        } else {
            // `else`, or any further keyword, cannot start a statement
            Err(spec_err_at(t[cur]))
        }
    } else {
        // an assignment: the identifier, the (unchecked) `=` token, the
        // right-hand expression, and the terminating separator
        if !(cur + 1 < t.len()) {
            Err(spec_err_oob())
        } else if t[cur + 1].ty == TokenType::EOF {
            Err(spec_err_at(t[cur + 1]))
        } else if !(cur + 2 < t.len()) {
            Err(spec_err_oob())
        } else {
            match spec_parse_expr(t, cur + 2) {
                Err(e) => Err(e),
                Ok((value, p)) => {
                    if !(0 <= p < t.len() && t[p].raw == ";"@) {
                        Err(if 0 <= p < t.len() { spec_err_at(t[p]) } else { spec_err_oob() })
                    } else {
                        Ok((
                            NodeV::VariableAssignment { identifier: t[cur].raw, value },
                            p + 1,
                        ))
                    }
                },
            }
        }
    }
}

/// Body parsing: statements until the closing brace, which is consumed; the
/// terminal token first is an unterminated block.
pub open spec fn spec_parse_body(t: Seq<TokenV>, cur: int) -> Result<(Seq<NodeV>, int), AstErr>
    decreases t.len() - cur, 3int,
{
    if !(0 <= cur < t.len()) {
        Err(spec_err_oob())
    } else if t[cur].ty == TokenType::EOF {
        Err(spec_err_at(t[cur]))
    } else if t[cur].raw == "}"@ {
        Ok((Seq::empty(), cur + 1))
    } else {
        match spec_parse_stmt(t, cur) {
            Err(e) => Err(e),
            Ok((n, c2)) => {
                if cur < c2 <= t.len() {
                    match spec_parse_body(t, c2) {
                        Err(e) => Err(e),
                        Ok((rest, q)) => Ok((seq![n] + rest, q)),
                    }
                } else {
                    Err(spec_err_oob())
                }
            },
        }
    }
}

/// Program parsing: statements until the terminal token, which is left in
/// place.
pub open spec fn spec_parse_program(t: Seq<TokenV>, cur: int) -> Result<(Seq<NodeV>, int), AstErr>
    decreases t.len() - cur, 4int,
{
    if !(0 <= cur < t.len()) {
        Err(spec_err_oob())
    } else if t[cur].ty == TokenType::EOF {
        Ok((Seq::empty(), cur))
    } else {
        match spec_parse_stmt(t, cur) {
            Err(e) => Err(e),
            Ok((n, c2)) => {
                if cur < c2 <= t.len() {
                    match spec_parse_program(t, c2) {
                        Err(e) => Err(e),
                        Ok((rest, q)) => Ok((seq![n] + rest, q)),
                    }
                } else {
                    Err(spec_err_oob())
                }
            },
        }
    }
}

// ---------------------------------------------------------------------------
// The parser moves forward
// ---------------------------------------------------------------------------

/// A successful expression parse moves the cursor forward and rests it on a
/// token other than the terminal one.
pub proof fn lemma_parse_expr_bounds(t: Seq<TokenV>, cur: int)
    requires
        toks_wf(t),
    ensures
        match spec_parse_expr(t, cur) {
            Ok((e, p)) => cur < p < t.len() - 1,
            Err(_) => true,
        },
    decreases t.len() - cur, 0int,
{
    if 0 <= cur < t.len() && (t[cur].ty == TokenType::Identifier || t[cur].ty == TokenType::Number)
        && cur + 1 < t.len() {
        if t[cur + 1].raw == ";"@ || t[cur + 1].raw == "{"@ {
            // the terminator's raw text is not empty, so it is not the
            // terminal token, which stands last
            reveal_strlit(";");
            reveal_strlit("{");
            assert(t[cur + 1].raw.len() == 1);
            assert(cur + 1 < t.len() - 1);
        } else if t[cur + 1].ty != TokenType::EOF && cur + 2 < t.len() {
            lemma_parse_expr_bounds(t, cur + 2);
        }
    }
}

/// A successful statement parse moves the cursor strictly forward and keeps
/// it on a token.
pub proof fn lemma_parse_stmt_bounds(t: Seq<TokenV>, cur: int)
    requires
        toks_wf(t),
    ensures
        match spec_parse_stmt(t, cur) {
            Ok((n, c2)) => cur < c2 < t.len(),
            Err(_) => true,
        },
    decreases t.len() - cur, 2int,
{
    if 0 <= cur < t.len() && t[cur].ty == TokenType::Identifier {
        if is_keyword_str(t[cur].raw) {
            if t[cur].raw == "if"@ {
                lemma_parse_expr_bounds(t, cur + 1);
                if spec_parse_expr(t, cur + 1) is Ok {
                    let (cond, p) = spec_parse_expr(t, cur + 1)->Ok_0;
                    if 0 <= p < t.len() && t[p].raw == "{"@ && cur < p {
                        lemma_parse_body_bounds(t, p + 1);
                        if spec_parse_body(t, p + 1) is Ok {
                            let (body, q) = spec_parse_body(t, p + 1)->Ok_0;
                            if 0 <= q < t.len() && t[q].raw == "else"@ {
                                if q + 1 < t.len() && t[q + 1].raw == "{"@ && cur < q {
                                    lemma_parse_body_bounds(t, q + 2);
                                }
                            }
                        }
                    }
                }
            } else if t[cur].raw == "while"@ {
                lemma_parse_expr_bounds(t, cur + 1);
                if spec_parse_expr(t, cur + 1) is Ok {
                    let (cond, p) = spec_parse_expr(t, cur + 1)->Ok_0;
                    if 0 <= p < t.len() && t[p].raw == "{"@ && cur < p {
                        lemma_parse_body_bounds(t, p + 1);
                    }
                }
            } else if t[cur].raw == "loop"@ {
                if cur + 2 < t.len() && t[cur + 1].ty == TokenType::Number
                    && fits_usize(t[cur + 1].raw) && t[cur + 2].raw == "{"@ {
                    lemma_parse_body_bounds(t, cur + 3);
                }
            } else if t[cur].raw == "print"@ {
                if cur + 2 < t.len() && t[cur + 1].ty != TokenType::EOF
                    && t[cur + 2].raw == ";"@ {
                    // the separator's raw text is not empty, so it is not the
                    // terminal token, and a token follows it
                    reveal_strlit(";");
                    assert(t[cur + 2].raw.len() == 1);
                    assert(cur + 2 < t.len() - 1);
                }
            }
        } else {
            if cur + 2 < t.len() && t[cur + 1].ty != TokenType::EOF {
                lemma_parse_expr_bounds(t, cur + 2);
                if spec_parse_expr(t, cur + 2) is Ok {
                    let (value, p) = spec_parse_expr(t, cur + 2)->Ok_0;
                    if 0 <= p < t.len() && t[p].raw == ";"@ {
                        reveal_strlit(";");
                        assert(t[p].raw.len() == 1);
                        assert(p < t.len() - 1);
                    }
                }
            }
        }
    }
}

// ---------------------------------------------------------------------------
// Collecting the token sequence
// ---------------------------------------------------------------------------

/// Appending one token appends its image.
proof fn lemma_toks_view_push(ts: Seq<Token>, x: Token)
    ensures
        toks_view(ts.push(x)) == toks_view(ts).push(x@),
{
    assert(toks_view(ts.push(x)) =~= toks_view(ts).push(x@));
}

/// Drives the tokenizer over its whole input and collects the tokens, the
/// terminal one included, stopping at the first error: exactly what the
/// model `spec_tokenize` yields.  A collected sequence has the shape the
/// parser asks for (`toks_wf`), so it can be handed to [`Ast::new`] and
/// [`Ast::generate_ast`] directly.
pub fn collect_tokens(lexer: &mut crate::lexer::Lexer) -> (r: Result<Vec<Token>, LexerErr>)
    requires
        old(lexer).wf(),
    ensures
        final(lexer).wf(),
        final(lexer).src == old(lexer).src,
        match (r, crate::lexer::spec_tokenize(old(lexer).src@, old(lexer).st())) {
            (Ok(v), Ok(res)) => toks_view(v@) == res.0 && toks_wf(toks_view(v@)),
            (Err(e), Err(ev)) => e == ev,
            _ => false,
        },
{
    let mut tokens: Vec<Token> = Vec::new();
    proof {
        match crate::lexer::spec_tokenize(old(lexer).src@, old(lexer).st()) {
            Ok(res) => {
                assert(Seq::<TokenV>::empty() + res.0 =~= res.0);
            },
            Err(_) => {},
        }
    }
    loop
        invariant
            lexer.wf(),
            lexer.src == old(lexer).src,
            forall|i: int| 0 <= i < tokens@.len()
                ==> (#[trigger] toks_view(tokens@)[i]).ty != TokenType::EOF,
            match crate::lexer::spec_tokenize(old(lexer).src@, old(lexer).st()) {
                Ok(res) => match crate::lexer::spec_tokenize(old(lexer).src@, lexer.st()) {
                    Ok(rest) => res.0 == toks_view(tokens@) + rest.0,
                    Err(_) => false,
                },
                Err(e) => match crate::lexer::spec_tokenize(old(lexer).src@, lexer.st()) {
                    Ok(_) => false,
                    Err(e2) => e == e2,
                },
            },
        decreases old(lexer).src@.len() - lexer.pos,
    {
        let ghost s = old(lexer).src@;
        let ghost st_before = lexer.st();
        proof {
            crate::lexer::lemma_step_reconstructs(s, st_before);
        }
        match lexer.next_token() {
            Err(e) => {
                return Err(e);
            },
            Ok(token) => {
                proof {
                    lemma_toks_view_push(tokens@, token);
                }
                if token.ty == TokenType::EOF {
                    proof {
                        match crate::lexer::spec_tokenize(s, st_before) {
                            Ok(res) => {
                                assert(toks_view(tokens@) + seq![token@]
                                    =~= toks_view(tokens@).push(token@));
                                assert(toks_view(tokens@.push(token)).last() == token@);
                            },
                            Err(_) => {},
                        }
                    }
                    tokens.push(token);
                    return Ok(tokens);
                }
                proof {
                    match crate::lexer::spec_tokenize(s, st_before) {
                        Ok(res) => {
                            match crate::lexer::spec_tokenize(
                                s,
                                crate::lexer::spec_next_token(s, st_before).st,
                            ) {
                                Ok(rest) => {
                                    assert(toks_view(tokens@) + (seq![token@] + rest.0)
                                        =~= (toks_view(tokens@) + seq![token@]) + rest.0);
                                    assert(toks_view(tokens@) + seq![token@]
                                        =~= toks_view(tokens@).push(token@));
                                },
                                Err(_) => {},
                            }
                        },
                        Err(_) => {},
                    }
                }
                tokens.push(token);
            },
        }
    }
}

// ---------------------------------------------------------------------------
// Laws of the parser
// ---------------------------------------------------------------------------

/// The iteration count of a `loop` statement equals the value of the
/// numeral immediately following `loop`; a token there that is not a
/// numeral fails the parse at that token, before anything further is
/// consumed.
pub proof fn lemma_loop_count(t: Seq<TokenV>, cur: int)
    requires
        0 <= cur < t.len(),
        t[cur].ty == TokenType::Identifier,
        t[cur].raw == "loop"@,
    ensures
        match spec_parse_stmt(t, cur) {
            Ok(res) => res.0 matches NodeV::Loop { loop_count, body }
                && loop_count == digits_val(t[cur + 1].raw)
                && cur + 1 < t.len() && t[cur + 1].ty == TokenType::Number,
            Err(_) => true,
        },
        cur + 1 < t.len() && t[cur + 1].ty != TokenType::Number
            ==> spec_parse_stmt(t, cur) == Err::<(NodeV, int), AstErr>(spec_err_at(t[cur + 1])),
{
    reveal_strlit("loop");
    reveal_strlit("while");
    reveal_strlit("if");
    assert(is_keyword_str(t[cur].raw));
    assert(t[cur].raw.len() == 4);
    assert(t[cur].raw != "if"@);
    assert(t[cur].raw != "while"@);
}

/// Right-nesting: a chain of two operations parses with the first operand
/// leftmost and every further `operator operand` pair nested as the right
/// child — never as the left.
pub proof fn lemma_expression_right_nesting(t: Seq<TokenV>, cur: int)
    requires
        0 <= cur,
        cur + 5 < t.len(),
        t[cur].ty == TokenType::Identifier || t[cur].ty == TokenType::Number,
        t[cur + 2].ty == TokenType::Identifier || t[cur + 2].ty == TokenType::Number,
        t[cur + 4].ty == TokenType::Identifier || t[cur + 4].ty == TokenType::Number,
        t[cur + 1].ty == TokenType::Operator,
        t[cur + 3].ty == TokenType::Operator,
        t[cur + 1].raw != ";"@ && t[cur + 1].raw != "{"@,
        t[cur + 3].raw != ";"@ && t[cur + 3].raw != "{"@,
        t[cur + 5].raw == ";"@ || t[cur + 5].raw == "{"@,
    ensures
        spec_parse_expr(t, cur) == Ok::<(ExprV, int), AstErr>((
            ExprV::Operation {
                left: Box::new(ExprV::Value(t[cur].raw)),
                right: Box::new(ExprV::Operation {
                    left: Box::new(ExprV::Value(t[cur + 2].raw)),
                    right: Box::new(ExprV::Value(t[cur + 4].raw)),
                    raw_operator: t[cur + 3].raw,
                }),
                raw_operator: t[cur + 1].raw,
            },
            cur + 5,
        )),
{
    assert(spec_parse_expr(t, cur + 4) == Ok::<(ExprV, int), AstErr>((
        ExprV::Value(t[cur + 4].raw),
        cur + 5,
    )));
    assert(spec_parse_expr(t, cur + 2) == Ok::<(ExprV, int), AstErr>((
        ExprV::Operation {
            left: Box::new(ExprV::Value(t[cur + 2].raw)),
            right: Box::new(ExprV::Value(t[cur + 4].raw)),
            raw_operator: t[cur + 3].raw,
        },
        cur + 5,
    )));
}

// ---------------------------------------------------------------------------
// Executable helpers
// ---------------------------------------------------------------------------

/// Character-by-character string comparison, proved to decide equality of
/// the views.
pub fn str_eq(a: &str, b: &str) -> (r: bool)
    ensures
        r == (a@ == b@),
{
    let la = a.unicode_len();
    let lb = b.unicode_len();
    if la != lb {
        return false;
    }
    let mut i: usize = 0;
    while i < la
        invariant
            la == a@.len(),
            la == b@.len(),
            i <= la,
            forall|j: int| 0 <= j < i ==> a@[j] == b@[j],
        decreases la - i,
    {
        let ca = a.get_char(i);
        let cb = b.get_char(i);
        if ca != cb {
            return false;
        }
        i = i + 1;
    }
    proof {
        assert(a@ =~= b@);
    }
    true
}

/// Whether `raw` is one of the five keywords.
pub fn is_keyword(raw: &String) -> (r: bool)
    ensures
        r == is_keyword_str(raw@),
{
    str_eq(raw.as_str(), "while") || str_eq(raw.as_str(), "loop") || str_eq(raw.as_str(), "if")
        || str_eq(raw.as_str(), "else") || str_eq(raw.as_str(), "print")
}

/// Reads a numeral: `Some` of its value exactly when every character is a
/// digit and the value fits a `usize`, `None` otherwise.
pub fn parse_count(raw: &String) -> (r: Option<usize>)
    ensures
        match r {
            Some(v) => fits_usize(raw@) && v as int == digits_val(raw@),
            None => !fits_usize(raw@),
        },
{
    let ghost s = raw@;
    let n = raw.as_str().unicode_len();
    let mut i: usize = 0;
    let mut val: usize = 0;
    while i < n
        invariant
            s == raw@,
            n == s.len(),
            i <= n,
            all_digits(s.take(i as int)),
            val as int == digits_val(s.take(i as int)),
        decreases n - i,
    {
        let c = raw.as_str().get_char(i);
        let u = c as u32;
        if !(48 <= u && u <= 57) {
            proof {
                assert(!is_digit_char_at(s, i as int));
            }
            return None;
        }
        let d = (u - 48) as usize;
        proof {
            assert(s.take(i + 1).drop_last() =~= s.take(i as int));
            assert(s.take(i + 1).last() == s[i as int]);
            assert forall|j: int| 0 <= j < s.take(i + 1).len()
                implies #[trigger] is_digit_char_at(s.take(i + 1), j) by {
                assert(s.take(i + 1)[j] == s[j]);
                if j < i {
                    assert(is_digit_char_at(s.take(i as int), j));
                    assert(s.take(i as int)[j] == s[j]);
                }
            }
        }
        if val > (usize::MAX - d) / 10 {
            proof {
                // this prefix already exceeds the largest `usize`, and
                // further digits can only grow the value
                assert(10 * (val as int) + d > usize::MAX as int);
                if all_digits(s) {
                    lemma_digits_prefix_le(s, i + 1);
                }
            }
            return None;
        }
        val = val * 10 + d;
        i = i + 1;
    }
    proof {
        assert(s.take(n as int) =~= s);
    }
    Some(val)
}

// ---------------------------------------------------------------------------
// The variable set
// ---------------------------------------------------------------------------

/// The identifiers a statement assigns to, in parse order, duplicates
/// included.
pub open spec fn stmt_vars(n: NodeV) -> Seq<Seq<char>>
    decreases n,
{
    match n {
        NodeV::If { condition, body } => stmts_vars(body),
        NodeV::IfElse { condition, body, else_body } => stmts_vars(body) + stmts_vars(else_body),
        NodeV::Loop { loop_count, body } => stmts_vars(body),
        NodeV::While { condition, body } => stmts_vars(body),
        NodeV::VariableAssignment { identifier, value } => seq![identifier],
        NodeV::Print(_) => Seq::empty(),
    }
}

/// The identifiers a statement sequence assigns to, in parse order.
pub open spec fn stmts_vars(ns: Seq<NodeV>) -> Seq<Seq<char>>
    decreases ns,
{
    if ns.len() == 0 {
        Seq::empty()
    } else {
        stmt_vars(ns[0]) + stmts_vars(ns.drop_first())
    }
}

/// Folding names into an accumulator from the left, keeping each name once,
/// at its first occurrence.
pub open spec fn dedup_append(acc: Seq<Seq<char>>, xs: Seq<Seq<char>>) -> Seq<Seq<char>>
    decreases xs.len(),
{
    if xs.len() == 0 {
        acc
    } else {
        dedup_append(
            if acc.contains(xs[0]) { acc } else { acc.push(xs[0]) },
            xs.drop_first(),
        )
    }
}

/// The variable set of a program: each assigned name once, in order of first
/// assignment.
pub open spec fn seen_vars(ns: Seq<NodeV>) -> Seq<Seq<char>> {
    dedup_append(Seq::empty(), stmts_vars(ns))
}

/// No name occurs twice.
pub open spec fn distinct_seqs(s: Seq<Seq<char>>) -> bool {
    forall|i: int, j: int| 0 <= i < j < s.len() ==> s[i] != s[j]
}

/// Collecting the identifiers of a statement sequence distributes over
/// concatenation.
pub proof fn lemma_stmts_vars_concat(a: Seq<NodeV>, b: Seq<NodeV>)
    ensures
        stmts_vars(a + b) == stmts_vars(a) + stmts_vars(b),
    decreases a.len(),
{
    if a.len() == 0 {
        assert(a + b =~= b);
        assert(Seq::<Seq<char>>::empty() + stmts_vars(b) =~= stmts_vars(b));
    } else {
        lemma_stmts_vars_concat(a.drop_first(), b);
        assert((a + b).drop_first() =~= a.drop_first() + b);
        assert((a + b)[0] == a[0]);
        assert((stmt_vars(a[0]) + stmts_vars(a.drop_first())) + stmts_vars(b)
            =~= stmt_vars(a[0]) + (stmts_vars(a.drop_first()) + stmts_vars(b)));
    }
}

/// Folding a concatenation folds its parts in turn.
pub proof fn lemma_dedup_append_concat(acc: Seq<Seq<char>>, a: Seq<Seq<char>>, b: Seq<Seq<char>>)
    ensures
        dedup_append(acc, a + b) == dedup_append(dedup_append(acc, a), b),
    decreases a.len(),
{
    if a.len() == 0 {
        assert(a + b =~= b);
    } else {
        assert((a + b)[0] == a[0]);
        assert((a + b).drop_first() =~= a.drop_first() + b);
        let acc2 = if acc.contains(a[0]) { acc } else { acc.push(a[0]) };
        lemma_dedup_append_concat(acc2, a.drop_first(), b);
    }
}

/// A name stands in the fold exactly when it stood in the accumulator or in
/// the names folded in.
pub proof fn lemma_dedup_append_contains(acc: Seq<Seq<char>>, xs: Seq<Seq<char>>, x: Seq<char>)
    ensures
        dedup_append(acc, xs).contains(x) <==> acc.contains(x) || xs.contains(x),
    decreases xs.len(),
{
    if xs.len() > 0 {
        let acc2 = if acc.contains(xs[0]) { acc } else { acc.push(xs[0]) };
        lemma_dedup_append_contains(acc2, xs.drop_first(), x);
        if acc.contains(x) {
            let i = choose|i: int| 0 <= i < acc.len() && acc[i] == x;
            assert(acc2[i] == x);
            assert(acc2.contains(x));
        }
        if xs[0] == x {
            if !acc.contains(xs[0]) {
                assert(acc2[acc.len() as int] == x);
            }
            assert(acc2.contains(x));
        }
        if xs.contains(x) && xs[0] != x {
            let i = choose|i: int| 0 <= i < xs.len() && xs[i] == x;
            assert(xs.drop_first()[i - 1] == x);
            assert(xs.drop_first().contains(x));
        }
        if xs.drop_first().contains(x) {
            let i = choose|i: int| 0 <= i < xs.drop_first().len() && xs.drop_first()[i] == x;
            assert(xs[i + 1] == x);
            assert(xs.contains(x));
        }
        if acc2.contains(x) && !acc.contains(x) {
            assert(xs[0] == x);
        }
    }
}

/// Folding never records a name twice.
pub proof fn lemma_dedup_append_distinct(acc: Seq<Seq<char>>, xs: Seq<Seq<char>>)
    requires
        distinct_seqs(acc),
    ensures
        distinct_seqs(dedup_append(acc, xs)),
    decreases xs.len(),
{
    if xs.len() > 0 {
        let acc2 = if acc.contains(xs[0]) { acc } else { acc.push(xs[0]) };
        if !acc.contains(xs[0]) {
            assert forall|i: int, j: int| 0 <= i < j < acc2.len() implies acc2[i] != acc2[j] by {
                if j == acc.len() as int {
                    assert(acc2[j] == xs[0]);
                    if acc2[i] == xs[0] {
                        assert(acc[i] == xs[0]);
                        assert(acc.contains(xs[0]));
                    }
                }
            }
        }
        lemma_dedup_append_distinct(acc2, xs.drop_first());
    }
}

/// The recorded variable set of a program holds exactly the names its
/// assignments mention, each exactly once, regardless of reassignment.
pub proof fn lemma_variable_set(ns: Seq<NodeV>)
    ensures
        forall|x: Seq<char>|
            #[trigger] seen_vars(ns).contains(x) <==> stmts_vars(ns).contains(x),
        distinct_seqs(seen_vars(ns)),
{
    assert forall|x: Seq<char>|
        #[trigger] seen_vars(ns).contains(x) <==> stmts_vars(ns).contains(x) by {
        lemma_dedup_append_contains(Seq::empty(), stmts_vars(ns), x);
    }
    lemma_dedup_append_distinct(Seq::empty(), stmts_vars(ns));
}

/// Appending one name appends its view.
proof fn lemma_strs_view_push(s: Seq<String>, x: String)
    ensures
        strs_view(s.push(x)) == strs_view(s).push(x@),
{
    assert(strs_view(s.push(x)) =~= strs_view(s).push(x@));
}

/// Whether some name in `v` reads as `x`.
fn vec_contains_str(v: &Vec<String>, x: &String) -> (r: bool)
    ensures
        r == strs_view(v@).contains(x@),
{
    let n = v.len();
    let mut i: usize = 0;
    while i < n
        invariant
            n == v@.len(),
            i <= n,
            forall|j: int| 0 <= j < i ==> strs_view(v@)[j] != x@,
        decreases n - i,
    {
        if str_eq(v[i].as_str(), x.as_str()) {
            proof {
                assert(strs_view(v@)[i as int] == x@);
            }
            return true;
        }
        i = i + 1;
    }
    proof {
        if strs_view(v@).contains(x@) {
            let j = choose|j: int| 0 <= j < strs_view(v@).len() && strs_view(v@)[j] == x@;
            assert(strs_view(v@)[j] != x@);
        }
    }
    false
}

/// Records the variables this statement assigns to: an assignment's name is
/// appended unless already present; the bodies of the other statements are
/// walked in order.
fn collect_node_vars(n: &Node, vars: &mut Vec<String>)
    ensures
        strs_view(final(vars)@) == dedup_append(strs_view(old(vars)@), stmt_vars(n@)),
    decreases n,
{
    match n {
        Node::If { condition, body } => {
            collect_nodes_vars(body, vars);
        },
        Node::IfElse { condition, body, else_body } => {
            collect_nodes_vars(body, vars);
            collect_nodes_vars(else_body, vars);
            proof {
                lemma_dedup_append_concat(
                    strs_view(old(vars)@),
                    stmts_vars(nodes_view(body@)),
                    stmts_vars(nodes_view(else_body@)),
                );
            }
        },
        Node::Loop { loop_count, body } => {
            collect_nodes_vars(body, vars);
        },
        Node::While { condition, body } => {
            collect_nodes_vars(body, vars);
        },
        Node::VariableAssignment { identifier, value } => {
            let present = vec_contains_str(vars, identifier);
            if !present {
                let cloned = identifier.clone();
                proof {
                    lemma_strs_view_push(vars@, cloned);
                }
                vars.push(cloned);
            }
            proof {
                reveal_with_fuel(dedup_append, 2);
                assert(seq![identifier@].drop_first() =~= Seq::<Seq<char>>::empty());
                assert(seq![identifier@][0] == identifier@);
            }
        },
        Node::Print(_) => {
        },
    }
}

/// Records the variables a statement sequence assigns to, in order.
fn collect_nodes_vars(ns: &Vec<Node>, vars: &mut Vec<String>)
    ensures
        strs_view(final(vars)@) == dedup_append(
            strs_view(old(vars)@),
            stmts_vars(nodes_view(ns@)),
        ),
    decreases ns,
{
    let n = ns.len();
    let mut i: usize = 0;
    proof {
        assert(ns@.take(0) =~= Seq::<Node>::empty());
    }
    while i < n
        invariant
            n == ns@.len(),
            i <= n,
            strs_view(vars@) == dedup_append(
                strs_view(old(vars)@),
                stmts_vars(nodes_view(ns@.take(i as int))),
            ),
        decreases n - i,
    {
        collect_node_vars(&ns[i], vars);
        proof {
            let ghost elem = ns@[i as int];
            assert(ns@.take(i + 1) =~= ns@.take(i as int).push(elem));
            lemma_nodes_view_push(ns@.take(i as int), elem);
            assert(seq![elem@].drop_first() =~= Seq::<NodeV>::empty());
            assert(stmts_vars(seq![elem@]) == stmt_vars(elem@) + stmts_vars(
                Seq::<NodeV>::empty(),
            ));
            assert(stmt_vars(elem@) + Seq::<Seq<char>>::empty() =~= stmt_vars(elem@));
            lemma_stmts_vars_concat(nodes_view(ns@.take(i as int)), seq![elem@]);
            lemma_dedup_append_concat(
                strs_view(old(vars)@),
                stmts_vars(nodes_view(ns@.take(i as int))),
                stmt_vars(elem@),
            );
        }
        i = i + 1;
    }
    proof {
        assert(ns@.take(n as int) =~= ns@);
    }
}

/// Prepending already-parsed statements to the outcome of the rest of a
/// body or program parse.
pub open spec fn body_compose(
    prefix: Seq<NodeV>,
    r: Result<(Seq<NodeV>, int), AstErr>,
) -> Result<(Seq<NodeV>, int), AstErr> {
    match r {
        Ok(res) => Ok((prefix + res.0, res.1)),
        Err(e) => Err(e),
    }
}

// ---------------------------------------------------------------------------
// The parser
// ---------------------------------------------------------------------------

/// The parse-result container: the token sequence under a forward-only
/// cursor, the statements parsed so far, and the distinct variables the
/// program assigns to, in order of first assignment.
pub struct Ast {
    pub tokens: Vec<Token>,
    pub cur: usize,
    pub seen_variables: Vec<String>,
    pub sequence: Vec<Node>,
}

/// The views of the variable names.
pub open spec fn strs_view(ss: Seq<String>) -> Seq<Seq<char>> {
    ss.map_values(|s: String| s@)
}

impl Ast {
    /// The token images this parser reads.
    pub open spec fn toks(&self) -> Seq<TokenV> {
        toks_view(self.tokens@)
    }

    /// Well-formedness: the tokens have the shape the tokenizer leaves them
    /// in, and the cursor rests on a token.
    pub open spec fn wf(&self) -> bool {
        &&& toks_wf(self.toks())
        &&& self.cur < self.tokens@.len()
    }

    /// A fresh parser over `tokens`, with nothing parsed yet.
    pub fn new(tokens: Vec<Token>) -> (a: Ast)
        ensures
            a.tokens == tokens,
            a.cur == 0,
            a.seen_variables@.len() == 0,
            a.sequence@.len() == 0,
            toks_wf(toks_view(tokens@)) ==> a.wf(),
    {
        Ast { tokens, cur: 0, seen_variables: Vec::new(), sequence: Vec::new() }
    }

    /// The parse error pointing at token `i`.
    fn err_at(&self, i: usize) -> (e: AstErr)
        requires
            i < self.tokens@.len(),
        ensures
            e == spec_err_at(self.toks()[i as int]),
    {
        AstErr { collumn: self.tokens[i].collumn, line: self.tokens[i].line }
    }

    /// Parses one expression, exactly as `spec_parse_expr` says, leaving the
    /// cursor on the terminator.
    pub fn parse_expression(&mut self) -> (r: Result<Expression, AstErr>)
        requires
            old(self).wf(),
        ensures
            final(self).wf(),
            final(self).tokens == old(self).tokens,
            final(self).sequence == old(self).sequence,
            final(self).seen_variables == old(self).seen_variables,
            match (r, spec_parse_expr(old(self).toks(), old(self).cur as int)) {
                (Ok(e), Ok(res)) => e@ == res.0 && final(self).cur == res.1,
                (Err(e), Err(ev)) => e == ev,
                _ => false,
            },
        decreases old(self).tokens@.len() - old(self).cur,
    {
        let ghost t = self.toks();
        let cur = self.cur;
        let n = self.tokens.len();
        let ty = self.tokens[cur].ty;
        if !(ty == TokenType::Identifier || ty == TokenType::Number) {
            return Err(self.err_at(cur));
        }
        proof {
            // the value token is not the terminal one, so a token follows it
            assert(t[cur as int].ty != TokenType::EOF);
            assert(cur + 1 < n);
        }
        let term_semi = str_eq(self.tokens[cur + 1].raw.as_str(), ";");
        let term_brace = str_eq(self.tokens[cur + 1].raw.as_str(), "{");
        if term_semi || term_brace {
            let value = self.tokens[cur].raw.clone();
            self.cur = cur + 1;
            return Ok(Expression::Value(value));
        }
        if self.tokens[cur + 1].ty == TokenType::EOF {
            return Err(self.err_at(cur + 1));
        }
        proof {
            // nor is the operator token, so the right-hand side exists
            assert(cur + 2 < n);
        }
        let left = self.tokens[cur].raw.clone();
        let op = self.tokens[cur + 1].raw.clone();
        proof {
            assert(t[cur as int].raw == left@);
            assert(expr_view(Expression::Value(left)) == ExprV::Value(t[cur as int].raw));
        }
        self.cur = cur + 2;
        match self.parse_expression() {
            Err(e) => Err(e),
            Ok(rhs) => {
                let result = Expression::Operation {
                    left: Box::new(Expression::Value(left)),
                    right: Box::new(rhs),
                    raw_operator: op,
                };
                Ok(result)
            },
        }
    }

    /// Parses one statement, exactly as `spec_parse_stmt` says: keyword
    /// dispatch for `if`, `while`, `loop` and `print`, an assignment for any
    /// other identifier.
    pub fn parse_line(&mut self) -> (r: Result<Node, AstErr>)
        requires
            old(self).wf(),
        ensures
            final(self).wf(),
            final(self).tokens == old(self).tokens,
            final(self).sequence == old(self).sequence,
            final(self).seen_variables == old(self).seen_variables,
            match (r, spec_parse_stmt(old(self).toks(), old(self).cur as int)) {
                (Ok(node), Ok(res)) => node@ == res.0 && final(self).cur == res.1,
                (Err(e), Err(ev)) => e == ev,
                _ => false,
            },
        decreases old(self).tokens@.len() - old(self).cur, 2int,
    {
        let ghost t = self.toks();
        let ghost cur0 = self.cur as int;
        let cur = self.cur;
        let n = self.tokens.len();
        let ty = self.tokens[cur].ty;
        if ty != TokenType::Identifier {
            return Err(self.err_at(cur));
        }
        proof {
            // the identifier is not the terminal token, so a token follows
            assert(t[cur0].ty != TokenType::EOF);
            assert(cur + 1 < n);
        }
        let raw = self.tokens[cur].raw.clone();
        if is_keyword(&raw) {
            if str_eq(raw.as_str(), "if") {
                self.cur = cur + 1;
                match self.parse_expression() {
                    Err(e) => Err(e),
                    Ok(cond) => {
                        proof {
                            lemma_parse_expr_bounds(t, cur0 + 1);
                        }
                        let p = self.cur;
                        if !str_eq(self.tokens[p].raw.as_str(), "{") {
                            return Err(self.err_at(p));
                        }
                        self.cur = p + 1;
                        match self.parse_body() {
                            Err(e) => Err(e),
                            Ok(body) => {
                                proof {
                                    lemma_parse_body_bounds(t, p + 1);
                                }
                                let q = self.cur;
                                if str_eq(self.tokens[q].raw.as_str(), "else") {
                                    proof {
                                        // `else` is not the terminal token
                                        reveal_strlit("else");
                                        assert(t[q as int].raw.len() == 4);
                                        assert(q < n - 1);
                                    }
                                    if !str_eq(self.tokens[q + 1].raw.as_str(), "{") {
                                        return Err(self.err_at(q + 1));
                                    }
                                    proof {
                                        // nor is the opening brace
                                        reveal_strlit("{");
                                        assert(t[q + 1].raw.len() == 1);
                                        assert(q + 1 < n - 1);
                                    }
                                    self.cur = q + 2;
                                    match self.parse_body() {
                                        Err(e) => Err(e),
                                        Ok(else_body) => Ok(Node::IfElse {
                                            condition: cond,
                                            body,
                                            else_body,
                                        }),
                                    }
                                } else {
                                    Ok(Node::If { condition: cond, body })
                                }
                            },
                        }
                    },
                }
            } else if str_eq(raw.as_str(), "while") {
                self.cur = cur + 1;
                match self.parse_expression() {
                    Err(e) => Err(e),
                    Ok(cond) => {
                        proof {
                            lemma_parse_expr_bounds(t, cur0 + 1);
                        }
                        let p = self.cur;
                        if !str_eq(self.tokens[p].raw.as_str(), "{") {
                            return Err(self.err_at(p));
                        }
                        self.cur = p + 1;
                        match self.parse_body() {
                            Err(e) => Err(e),
                            Ok(body) => Ok(Node::While { condition: cond, body }),
                        }
                    },
                }
            } else if str_eq(raw.as_str(), "loop") {
                let nt = cur + 1;
                if self.tokens[nt].ty != TokenType::Number {
                    return Err(self.err_at(nt));
                }
                let count_opt = parse_count(&self.tokens[nt].raw);
                if count_opt.is_none() {
                    return Err(self.err_at(nt));
                }
                let count = count_opt.unwrap();
                proof {
                    // the numeral is not the terminal token
                    assert(t[nt as int].ty != TokenType::EOF);
                    assert(cur + 2 < n);
                }
                if !str_eq(self.tokens[cur + 2].raw.as_str(), "{") {
                    return Err(self.err_at(cur + 2));
                }
                proof {
                    // nor is the opening brace
                    reveal_strlit("{");
                    assert(t[cur0 + 2].raw.len() == 1);
                    assert(cur + 2 < n - 1);
                }
                self.cur = cur + 3;
                match self.parse_body() {
                    Err(e) => Err(e),
                    Ok(body) => Ok(Node::Loop { loop_count: count, body }),
                }
            } else if str_eq(raw.as_str(), "print") {
                if self.tokens[cur + 1].ty == TokenType::EOF {
                    return Err(self.err_at(cur + 1));
                }
                proof {
                    assert(cur + 2 < n);
                }
                if !str_eq(self.tokens[cur + 2].raw.as_str(), ";") {
                    return Err(self.err_at(cur + 2));
                }
                let text = self.tokens[cur + 1].raw.clone();
                proof {
                    // the separator is not the terminal token
                    reveal_strlit(";");
                    assert(t[cur0 + 2].raw.len() == 1);
                    assert(cur + 2 < n - 1);
                }
                self.cur = cur + 3;
                Ok(Node::Print(text))
            } else {
                // `else`, or any further keyword, cannot start a statement
                Err(self.err_at(cur))
            }
        } else {
            // an assignment: skip the `=` token, parse the right-hand side,
            // and consume the terminating separator
            if self.tokens[cur + 1].ty == TokenType::EOF {
                return Err(self.err_at(cur + 1));
            }
            proof {
                assert(cur + 2 < n);
            }
            self.cur = cur + 2;
            match self.parse_expression() {
                Err(e) => Err(e),
                Ok(value) => {
                    proof {
                        lemma_parse_expr_bounds(t, cur0 + 2);
                    }
                    let p = self.cur;
                    if !str_eq(self.tokens[p].raw.as_str(), ";") {
                        return Err(self.err_at(p));
                    }
                    self.cur = p + 1;
                    Ok(Node::VariableAssignment { identifier: raw, value })
                },
            }
        }
    }

    /// Parses statements up to and including the closing brace, exactly as
    /// `spec_parse_body` says; the opening brace was consumed by the caller.
    pub fn parse_body(&mut self) -> (r: Result<Vec<Node>, AstErr>)
        requires
            old(self).wf(),
        ensures
            final(self).wf(),
            final(self).tokens == old(self).tokens,
            final(self).sequence == old(self).sequence,
            final(self).seen_variables == old(self).seen_variables,
            match (r, spec_parse_body(old(self).toks(), old(self).cur as int)) {
                (Ok(v), Ok(res)) => nodes_view(v@) == res.0 && final(self).cur == res.1,
                (Err(e), Err(ev)) => e == ev,
                _ => false,
            },
        decreases old(self).tokens@.len() - old(self).cur, 3int,
    {
        let mut body: Vec<Node> = Vec::new();
        proof {
            match spec_parse_body(self.toks(), self.cur as int) {
                Ok(res) => {
                    assert(Seq::<NodeV>::empty() + res.0 =~= res.0);
                },
                Err(_) => {},
            }
        }
        loop
            invariant
                self.wf(),
                self.tokens == old(self).tokens,
                self.sequence == old(self).sequence,
                self.seen_variables == old(self).seen_variables,
                old(self).cur <= self.cur,
                spec_parse_body(old(self).toks(), old(self).cur as int) == body_compose(
                    nodes_view(body@),
                    spec_parse_body(old(self).toks(), self.cur as int),
                ),
            decreases old(self).tokens@.len() - self.cur,
        {
            let ghost t = old(self).toks();
            let curx = self.cur;
            let ty = self.tokens[curx].ty;
            if ty == TokenType::EOF {
                return Err(self.err_at(curx));
            }
            if str_eq(self.tokens[curx].raw.as_str(), "}") {
                let nx = self.tokens.len();
                proof {
                    // the closing brace is not the terminal token
                    assert(t[curx as int].ty != TokenType::EOF);
                    assert(curx < nx - 1);
                    assert(nodes_view(body@) + Seq::<NodeV>::empty() =~= nodes_view(body@));
                }
                self.cur = curx + 1;
                return Ok(body);
            }
            match self.parse_line() {
                Err(e) => {
                    return Err(e);
                },
                Ok(node) => {
                    proof {
                        lemma_parse_stmt_bounds(t, curx as int);
                        lemma_nodes_view_push(body@, node);
                        match spec_parse_stmt(t, curx as int) {
                            Ok(res) => {
                                match spec_parse_body(t, res.1) {
                                    Ok(res2) => {
                                        assert((nodes_view(body@) + seq![res.0]) + res2.0
                                            =~= nodes_view(body@) + (seq![res.0] + res2.0));
                                    },
                                    Err(_) => {},
                                }
                            },
                            Err(_) => {},
                        }
                    }
                    body.push(node);
                },
            }
        }
    }

    /// Builds the whole tree from a fresh parser: statements until the
    /// terminal token, then the variable set, exactly as
    /// `spec_parse_program` and `seen_vars` say.  On the first malformed
    /// construct the model's error comes back and nothing is recorded.
    pub fn generate_ast(&mut self) -> (r: Option<AstErr>)
        requires
            old(self).wf(),
            old(self).cur == 0,
            old(self).sequence@.len() == 0,
            old(self).seen_variables@.len() == 0,
        ensures
            final(self).wf(),
            final(self).tokens == old(self).tokens,
            match (r, spec_parse_program(old(self).toks(), 0)) {
                (None, Ok(res)) => nodes_view(final(self).sequence@) == res.0
                    && strs_view(final(self).seen_variables@) == seen_vars(res.0),
                (Some(e), Err(ev)) => e == ev && final(self).sequence@.len() == 0
                    && final(self).seen_variables@.len() == 0,
                _ => false,
            },
    {
        let mut nodes: Vec<Node> = Vec::new();
        proof {
            match spec_parse_program(self.toks(), 0) {
                Ok(res) => {
                    assert(Seq::<NodeV>::empty() + res.0 =~= res.0);
                },
                Err(_) => {},
            }
        }
        loop
            invariant
                self.wf(),
                old(self).cur == 0,
                self.tokens == old(self).tokens,
                self.sequence == old(self).sequence,
                self.seen_variables == old(self).seen_variables,
                old(self).sequence@.len() == 0,
                old(self).seen_variables@.len() == 0,
                spec_parse_program(old(self).toks(), old(self).cur as int) == body_compose(
                    nodes_view(nodes@),
                    spec_parse_program(old(self).toks(), self.cur as int),
                ),
            ensures
                self.wf(),
                self.tokens == old(self).tokens,
                self.sequence == old(self).sequence,
                self.seen_variables == old(self).seen_variables,
                spec_parse_program(old(self).toks(), old(self).cur as int)
                    == Ok::<(Seq<NodeV>, int), AstErr>((nodes_view(nodes@), self.cur as int)),
            decreases old(self).tokens@.len() - self.cur,
        {
            let ghost t = old(self).toks();
            let curx = self.cur;
            let ty = self.tokens[curx].ty;
            if ty == TokenType::EOF {
                proof {
                    assert(nodes_view(nodes@) + Seq::<NodeV>::empty() =~= nodes_view(nodes@));
                }
                break;
            }
            match self.parse_line() {
                Err(e) => {
                    return Some(e);
                },
                Ok(node) => {
                    proof {
                        lemma_parse_stmt_bounds(t, curx as int);
                        lemma_nodes_view_push(nodes@, node);
                        match spec_parse_stmt(t, curx as int) {
                            Ok(res) => {
                                match spec_parse_program(t, res.1) {
                                    Ok(res2) => {
                                        assert((nodes_view(nodes@) + seq![res.0]) + res2.0
                                            =~= nodes_view(nodes@) + (seq![res.0] + res2.0));
                                    },
                                    Err(_) => {},
                                }
                            },
                            Err(_) => {},
                        }
                    }
                    nodes.push(node);
                },
            }
        }
        self.sequence = nodes;
        let mut vars: Vec<String> = Vec::new();
        collect_nodes_vars(&self.sequence, &mut vars);
        proof {
            assert(strs_view(Seq::<String>::empty()) =~= Seq::<Seq<char>>::empty());
        }
        self.seen_variables = vars;
        None
    }
}

/// A successful body parse moves the cursor strictly forward past the
/// closing brace and keeps it on a token.
pub proof fn lemma_parse_body_bounds(t: Seq<TokenV>, cur: int)
    requires
        toks_wf(t),
    ensures
        match spec_parse_body(t, cur) {
            Ok((ns, q)) => cur < q < t.len(),
            Err(_) => true,
        },
    decreases t.len() - cur, 3int,
{
    if 0 <= cur < t.len() && t[cur].ty != TokenType::EOF {
        if t[cur].raw == "}"@ {
            assert(cur < t.len() - 1);
            assert(cur + 1 < t.len());
        } else {
            lemma_parse_stmt_bounds(t, cur);
            if spec_parse_stmt(t, cur) is Ok {
                let (n, c2) = spec_parse_stmt(t, cur)->Ok_0;
                if cur < c2 <= t.len() {
                    lemma_parse_body_bounds(t, c2);
                }
            }
        }
    }
}

} // verus!
