use seq_expand::error::ErrorKind;
use seq_expand::expand::MAX_DEPTH;
use seq_expand::scope::{detect, splice, RepeatScope};
use seq_expand::token::{Delimiter, Position, Spacing, Token};

fn at(column: usize) -> Position {
    Position { line: 1, column, iteration: None }
}

fn ident(text: &str, column: usize) -> Token {
    Token::Ident { text: text.to_string(), pos: at(column) }
}

fn punct(ch: char, column: usize) -> Token {
    Token::Punct { ch, spacing: Spacing::Isolated, pos: at(column) }
}

fn group(delimiter: Delimiter, inner: Vec<Token>, column: usize) -> Token {
    Token::Group { delimiter, inner, pos: at(column) }
}

/// The three tokens `#( <name> )*`, from `column` on.
fn mark(name: &str, column: usize) -> Vec<Token> {
    vec![
        punct('#', column),
        group(Delimiter::Parenthesis, vec![ident(name, column + 2)], column + 1),
        punct('*', column + 3),
    ]
}

fn found(body: &Vec<Token>) -> RepeatScope {
    detect(body).unwrap().unwrap()
}

#[test]
fn a_body_without_a_mark_has_no_scope() {
    let body = vec![
        punct('#', 0),
        group(Delimiter::Bracket, vec![ident("a", 2)], 1),
        punct('*', 3),
        punct('#', 4),
        group(Delimiter::Parenthesis, vec![ident("b", 6)], 5),
        punct('+', 7),
        group(Delimiter::Parenthesis, vec![ident("b", 9)], 8),
        punct('*', 10),
    ];
    assert_eq!(detect(&body).unwrap(), None);
    assert_eq!(detect(&Vec::new()).unwrap(), None);
}

#[test]
fn a_mark_among_the_tokens_of_the_body_is_found() {
    let mut body = vec![ident("a", 0)];
    body.extend(mark("r", 1));
    body.push(ident("z", 5));
    assert_eq!(
        found(&body),
        RepeatScope {
            template: vec![ident("a", 0), ident("z", 5)],
            path: vec![1],
            region: vec![ident("r", 3)],
        }
    );
}

#[test]
fn a_mark_may_be_the_whole_body() {
    assert_eq!(
        found(&mark("r", 0)),
        RepeatScope { template: Vec::new(), path: vec![0], region: vec![ident("r", 2)] }
    );
}

#[test]
fn a_mark_inside_groups_is_found() {
    let mut inner = vec![ident("b", 4)];
    inner.extend(mark("r", 5));
    let body = vec![
        ident("a", 0),
        group(Delimiter::Brace, vec![group(Delimiter::Bracket, inner, 3)], 2),
    ];
    assert_eq!(
        found(&body),
        RepeatScope {
            template: vec![
                ident("a", 0),
                group(
                    Delimiter::Brace,
                    vec![group(Delimiter::Bracket, vec![ident("b", 4)], 3)],
                    2
                ),
            ],
            path: vec![1, 0, 1],
            region: vec![ident("r", 7)],
        }
    );
}

#[test]
fn of_two_marks_side_by_side_the_first_is_chosen() {
    let mut body = mark("first", 0);
    body.extend(mark("second", 10));
    let scope = found(&body);
    assert_eq!(scope.path, vec![0]);
    assert_eq!(scope.region, vec![ident("first", 2)]);
    assert_eq!(scope.template, mark("second", 10));
}

#[test]
fn the_mark_at_the_least_depth_is_chosen() {
    let mut body = vec![group(Delimiter::Brace, mark("deep", 1), 0)];
    body.extend(mark("shallow", 10));
    let scope = found(&body);
    assert_eq!(scope.path, vec![1]);
    assert_eq!(scope.region, vec![ident("shallow", 12)]);
    assert_eq!(scope.template, vec![group(Delimiter::Brace, mark("deep", 1), 0)]);
}

#[test]
fn the_least_depth_counts_before_the_reading_order() {
    let body = vec![
        group(Delimiter::Brace, vec![group(Delimiter::Brace, mark("deeper", 2), 1)], 0),
        group(Delimiter::Bracket, mark("deep", 11), 10),
    ];
    let scope = found(&body);
    assert_eq!(scope.path, vec![1, 0]);
    assert_eq!(scope.region, vec![ident("deep", 13)]);
}

#[test]
fn of_two_marks_at_one_depth_the_first_is_chosen() {
    let body = vec![
        group(Delimiter::Brace, mark("left", 1), 0),
        group(Delimiter::Bracket, mark("right", 11), 10),
    ];
    let scope = found(&body);
    assert_eq!(scope.path, vec![0, 0]);
    assert_eq!(scope.region, vec![ident("left", 3)]);
}

#[test]
fn a_mark_inside_the_region_stays_in_the_region() {
    let body = vec![
        punct('#', 0),
        group(Delimiter::Parenthesis, mark("inner", 2), 1),
        punct('*', 9),
    ];
    let scope = found(&body);
    assert_eq!(scope.path, vec![0]);
    assert_eq!(scope.region, mark("inner", 2));
}

#[test]
fn the_detector_refuses_a_deeper_body() {
    let mut body = vec![ident("x", 0)];
    for level in 0..(MAX_DEPTH + 1) {
        body = vec![group(Delimiter::Bracket, body, level + 1)];
    }
    let error = detect(&body).unwrap_err();
    assert_eq!(error.kind, ErrorKind::NestingTooDeep);
    assert_eq!(error.pos, at(1));
}

#[test]
fn a_filler_is_put_in_between_two_tokens() {
    let template = vec![ident("a", 0), ident("z", 5)];
    let filler = vec![ident("m", 9), ident("n", 9)];
    assert_eq!(
        splice(&template, &vec![1], filler.clone()),
        Some(vec![ident("a", 0), ident("m", 9), ident("n", 9), ident("z", 5)])
    );
    assert_eq!(
        splice(&template, &vec![0], filler.clone()),
        Some(vec![ident("m", 9), ident("n", 9), ident("a", 0), ident("z", 5)])
    );
    assert_eq!(
        splice(&template, &vec![2], filler),
        Some(vec![ident("a", 0), ident("z", 5), ident("m", 9), ident("n", 9)])
    );
}

#[test]
fn a_filler_is_put_in_inside_a_group() {
    let template = vec![ident("a", 0), group(Delimiter::Brace, vec![ident("b", 3)], 2)];
    assert_eq!(
        splice(&template, &vec![1, 1], vec![ident("m", 9)]),
        Some(vec![
            ident("a", 0),
            group(Delimiter::Brace, vec![ident("b", 3), ident("m", 9)], 2),
        ])
    );
}

#[test]
fn an_empty_filler_leaves_the_template() {
    let template = vec![ident("a", 0), group(Delimiter::Brace, vec![ident("b", 3)], 2)];
    assert_eq!(splice(&template, &vec![1, 0], Vec::new()), Some(template.clone()));
}

#[test]
fn a_path_that_names_no_place_is_refused() {
    let template = vec![ident("a", 0), group(Delimiter::Brace, vec![ident("b", 3)], 2)];
    let filler = vec![ident("m", 9)];
    assert_eq!(splice(&template, &Vec::new(), filler.clone()), None);
    assert_eq!(splice(&template, &vec![3], filler.clone()), None);
    assert_eq!(splice(&template, &vec![0, 0], filler.clone()), None);
    assert_eq!(splice(&template, &vec![2, 0], filler.clone()), None);
    assert_eq!(splice(&template, &vec![1, 2], filler), None);
}

#[test]
fn what_was_cut_out_can_be_put_back() {
    let mut inner = vec![ident("b", 4)];
    inner.extend(mark("r", 5));
    inner.push(ident("c", 9));
    let body = vec![ident("a", 0), group(Delimiter::Brace, inner.clone(), 2)];
    let scope = found(&body);
    let back = splice(&scope.template, &scope.path, mark("r", 5)).unwrap();
    assert_eq!(back, body);
}

#[test]
fn a_template_that_nests_too_deep_is_refused() {
    let mut template = vec![ident("x", 0)];
    for level in 0..(MAX_DEPTH + 1) {
        template = vec![group(Delimiter::Bracket, template, level + 1)];
    }
    assert_eq!(splice(&template, &vec![0], vec![ident("m", 9)]), None);
    assert_eq!(splice(&template, &vec![1], Vec::new()), None);
}

#[test]
fn a_template_of_the_greatest_depth_is_taken() {
    let mut template = vec![ident("x", 0)];
    for level in 0..MAX_DEPTH {
        template = vec![group(Delimiter::Bracket, template, level + 1)];
    }
    let out = splice(&template, &vec![1], vec![ident("m", 9)]).unwrap();
    assert_eq!(out.len(), 2);
    assert_eq!(out[1], ident("m", 9));
}
