use minilang::ast::Ast;
use minilang::gen::generate_code;
use minilang::lexer::{Lexer, Token, TokenType};

fn tokenize(src: &str) -> Vec<Token> {
    let mut lexer = Lexer::new(src);
    minilang::ast::collect_tokens(&mut lexer).expect("tokenizes")
}

fn translate(src: &str) -> String {
    let mut ast = Ast::new(tokenize(src));
    let err = ast.generate_ast();
    assert!(err.is_none(), "parse failed");
    generate_code(ast)
}

#[test]
fn single_assignment_program() {
    assert_eq!(translate("a = 1;"), "#include<iostream>\nint a;int main(){a=1;}");
}

#[test]
fn if_else_preserves_both_branches_in_order() {
    assert_eq!(
        translate("a = 1; b = 2; if a == b { a = 1; } else { a = 2; }"),
        "#include<iostream>\nint a,b;int main(){a=1;b=2;if(a==b){a=1;}else{a=2;}}"
    );
}

#[test]
fn counting_loop_of_three_iterations() {
    assert_eq!(
        translate("loop 3 { print x; }"),
        "#include<iostream>\nint main(){for(int i=0;i<3;i++){std::cout<<x<<std::endl;}}"
    );
}

#[test]
fn while_loop() {
    assert_eq!(
        translate("while a { a = a - 1 ; }"),
        "#include<iostream>\nint a;int main(){while(a){a=a-1;}}"
    );
}

#[test]
fn each_variable_declared_exactly_once() {
    let out = translate("x = 1; y = x; x = 2;");
    assert_eq!(out, "#include<iostream>\nint x,y;int main(){x=1;y=x;x=2;}");
    assert_eq!(out.matches("int x,y;").count(), 1);
}

#[test]
fn expression_renders_without_added_grouping() {
    assert_eq!(
        translate("x = a + b + c ;"),
        "#include<iostream>\nint x;int main(){x=a+b+c;}"
    );
}

#[test]
fn multi_digit_loop_count_renders_in_decimal() {
    assert_eq!(
        translate("loop 120 { print x; }"),
        "#include<iostream>\nint main(){for(int i=0;i<120;i++){std::cout<<x<<std::endl;}}"
    );
}

#[test]
fn unclosed_brace_fails_and_emits_nothing() {
    let mut lexer = Lexer::new("while a { a = 1;");
    let mut failed = false;
    loop {
        match lexer.next_token() {
            Ok(token) => {
                if token.ty == TokenType::EOF {
                    break;
                }
            },
            Err(err) => {
                assert!(matches!(
                    err.kind,
                    minilang::lexer::LexerErrKind::UnevenParentheses
                ));
                failed = true;
                break;
            },
        }
    }
    assert!(failed, "an unclosed brace must fail tokenization");
}

#[test]
fn emission_is_deterministic() {
    let src = "a = 1; loop 2 { print a; } if a { a = 2; }";
    let first = translate(src);
    let second = translate(src);
    assert_eq!(first, second);
}

#[test]
fn empty_program_emits_bare_entry_point() {
    assert_eq!(translate(""), "#include<iostream>\nint main(){}");
}
