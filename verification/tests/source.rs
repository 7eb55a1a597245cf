use proc_macro2::{TokenStream, TokenTree};
use seq_expand::driver;
use seq_expand::error::ErrorKind;
use seq_expand::token::{Delimiter, Position, Spacing, Token};
use std::str::FromStr;

fn position(span: proc_macro2::Span) -> Position {
    let start = span.start();
    Position::new(start.line, start.column)
}

fn forest(stream: TokenStream) -> Vec<Token> {
    let trees: Vec<TokenTree> = stream.into_iter().collect();
    let mut out = Vec::new();
    for (i, tree) in trees.iter().enumerate() {
        let pos = position(tree.span());
        let next = trees.get(i + 1).map(|t| position(t.span()));
        out.push(match tree {
            TokenTree::Ident(ident) => Token::Ident { text: ident.to_string(), pos },
            TokenTree::Punct(punct) => Token::Punct {
                ch: punct.as_char(),
                spacing: Spacing::of(punct.spacing() == proc_macro2::Spacing::Joint, pos, next),
                pos,
            },
            TokenTree::Literal(literal) => Token::Literal { text: literal.to_string(), pos },
            TokenTree::Group(group) => Token::Group {
                delimiter: match group.delimiter() {
                    proc_macro2::Delimiter::Parenthesis => Delimiter::Parenthesis,
                    proc_macro2::Delimiter::Brace => Delimiter::Brace,
                    proc_macro2::Delimiter::Bracket => Delimiter::Bracket,
                    proc_macro2::Delimiter::None => unreachable!(),
                },
                inner: forest(group.stream()),
                pos,
            },
        });
    }
    out
}

fn lex(text: &str) -> Vec<Token> {
    forest(TokenStream::from_str(text).unwrap())
}

fn write(tokens: &[Token], out: &mut String) {
    for token in tokens {
        match token {
            Token::Ident { text, .. } | Token::Literal { text, .. } => out.push_str(text),
            Token::Punct { ch, .. } => out.push(*ch),
            Token::Group { delimiter, inner, .. } => {
                let (open, close) = match delimiter {
                    Delimiter::Parenthesis => ('(', ')'),
                    Delimiter::Brace => ('{', '}'),
                    Delimiter::Bracket => ('[', ']'),
                };
                out.push(open);
                out.push(' ');
                write(inner, out);
                out.push(close);
            }
        }
        out.push(' ');
    }
}

fn written(tokens: &[Token]) -> String {
    let mut out = String::new();
    write(tokens, &mut out);
    out
}

fn expanded(invocation: &str) -> String {
    written(&driver::seq(&lex(invocation)).unwrap())
}

fn same(text: &str) -> String {
    written(&lex(text))
}

#[test]
fn the_lexer_marks_a_tilde_between_two_names_as_joint() {
    let tokens = lex("f~N f ~N f~ N f ~ N");
    let spacings: Vec<Spacing> = tokens
        .iter()
        .filter_map(|t| match t {
            Token::Punct { spacing, .. } => Some(*spacing),
            _ => None,
        })
        .collect();
    assert_eq!(
        spacings,
        vec![Spacing::Joint, Spacing::Joint, Spacing::Isolated, Spacing::Isolated]
    );
}

#[test]
fn a_body_is_repeated_with_the_index_in_the_place_of_the_variable() {
    assert_eq!(
        expanded("N in 0..4 { expand_to_nothing!(N); }"),
        same(
            "expand_to_nothing!(0); expand_to_nothing!(1); \
             expand_to_nothing!(2); expand_to_nothing!(3);"
        )
    );
}

#[test]
fn the_variable_is_found_at_every_depth() {
    assert_eq!(
        expanded(r#"N in 0..4 { compile_error!(concat!("error number ", stringify!(N))); }"#),
        same(
            r#"compile_error!(concat!("error number ", stringify!(0)));
               compile_error!(concat!("error number ", stringify!(1)));
               compile_error!(concat!("error number ", stringify!(2)));
               compile_error!(concat!("error number ", stringify!(3)));"#
        )
    );
}

#[test]
fn functions_are_named_by_the_index() {
    assert_eq!(
        expanded("N in 1..4 { fn f~N () -> u64 { N * 2 } }"),
        same(
            "fn f1 () -> u64 { 1 * 2 }
             fn f2 () -> u64 { 2 * 2 }
             fn f3 () -> u64 { 3 * 2 }"
        )
    );
}

#[test]
fn the_variants_of_an_enum_are_repeated_inside_it() {
    let mut variants = String::new();
    for n in 0..16 {
        variants.push_str(&format!("Irq{}, ", n));
    }
    assert_eq!(
        expanded(
            "N in 0..16 {
                #[derive(Copy, Clone, PartialEq, Debug)]
                enum Interrupt {
                    #(
                        Irq~N,
                    )*
                }
            }"
        ),
        same(&format!(
            "#[derive(Copy, Clone, PartialEq, Debug)] enum Interrupt {{ {} }}",
            variants
        ))
    );
}

#[test]
fn four_variants_in_braces_and_nothing_twice_outside() {
    assert_eq!(
        expanded("N in 0..4 { enum E { #( Irq~N, )* } }"),
        same("enum E { Irq0, Irq1, Irq2, Irq3, }")
    );
}

#[test]
fn an_empty_range_in_the_source_gives_nothing() {
    assert_eq!(expanded("N in 4..4 { enum E { #( Irq~N, )* } fn f~N() {} }"), "");
    assert_eq!(expanded("N in 4..4 { }"), "");
}

#[test]
fn another_variable_name_is_taken() {
    assert_eq!(
        expanded("Index in 8..10 { let x~Index = Index + N; }"),
        same("let x8 = 8 + N; let x9 = 9 + N;")
    );
}

#[test]
fn a_written_invocation_with_a_fault_is_refused_where_the_fault_is() {
    let error = driver::seq(&lex("N in 0.4 { }")).unwrap_err();
    assert_eq!(error.kind, ErrorKind::InvalidBound);
    assert_eq!(error.pos, Position { line: 1, column: 5, iteration: None });

    let error = driver::seq(&lex("N in 0...4 { }")).unwrap_err();
    assert_eq!(error.kind, ErrorKind::InvalidBound);
    assert_eq!(error.pos, Position { line: 1, column: 8, iteration: None });

    let error = driver::seq(&lex("N in 0..4\n  [ ]")).unwrap_err();
    assert_eq!(error.kind, ErrorKind::ExpectedBraces);
    assert_eq!(error.pos, Position { line: 2, column: 2, iteration: None });

    let error = driver::seq(&lex("N of 0..4 { }")).unwrap_err();
    assert_eq!(error.kind, ErrorKind::ExpectedIn);
    assert_eq!(error.pos, Position { line: 1, column: 2, iteration: None });

    let error = driver::seq(&lex("N in 0 . . 4 { }")).unwrap_err();
    assert_eq!(error.kind, ErrorKind::ExpectedDotDot);
    assert_eq!(error.pos, Position { line: 1, column: 7, iteration: None });

    let error = driver::seq(&lex("N in 0..4 { } ;")).unwrap_err();
    assert_eq!(error.kind, ErrorKind::UnexpectedToken);
    assert_eq!(error.pos, Position { line: 1, column: 14, iteration: None });
}
