use prefix_expr::builder::{ast, ParseError};
use prefix_expr::lexer::tokenize;
use prefix_expr::token::{Operator, Token};
use prefix_expr::tree::TreeNode;

fn add() -> Token {
    Token::Operator(Operator::Add)
}

fn number(value: i32) -> TreeNode {
    TreeNode::Leaf(Token::Integer(value))
}

fn plus() -> TreeNode {
    TreeNode::Leaf(add())
}

fn group(children: Vec<TreeNode>) -> TreeNode {
    TreeNode::Group(children)
}

#[test]
fn empty_input_gives_an_empty_forest() {
    assert_eq!(ast(vec![]), Ok((vec![], vec![])));
}

#[test]
fn builds_one_group_of_three_leaves() {
    let tokens = vec![
        Token::LeftParen,
        add(),
        Token::Integer(100),
        Token::Integer(200),
        Token::RightParen,
    ];
    assert_eq!(
        ast(tokens),
        Ok((vec![group(vec![plus(), number(100), number(200)])], vec![]))
    );
}

#[test]
fn builds_a_nested_group() {
    assert_eq!(
        ast(tokenize("(+ 100 (+ 300 400))")),
        Ok((
            vec![group(vec![
                plus(),
                number(100),
                group(vec![plus(), number(300), number(400)]),
            ])],
            vec![]
        ))
    );
}

#[test]
fn integers_alone_become_leaves_in_order() {
    assert_eq!(
        ast(tokenize("1 2 3 44 55")),
        Ok((vec![number(1), number(2), number(3), number(44), number(55)], vec![]))
    );
    assert_eq!(ast(tokenize("7")), Ok((vec![number(7)], vec![])));
}

#[test]
fn operators_outside_a_group_are_leaves_too() {
    assert_eq!(
        ast(tokenize("+ 100 200")),
        Ok((vec![plus(), number(100), number(200)], vec![]))
    );
}

#[test]
fn a_leading_close_returns_everything_behind_it() {
    let tokens = vec![Token::RightParen, Token::Integer(1), Token::Integer(2)];
    let (forest, rest) = ast(tokens).unwrap();
    assert_eq!(forest, vec![]);
    assert_eq!(rest, vec![Token::Integer(1), Token::Integer(2)]);
    // Building from what was left over is an ordinary call.
    assert_eq!(ast(rest), Ok((vec![number(1), number(2)], vec![])));
}

#[test]
fn a_close_without_an_open_ends_the_level() {
    let tokens = vec![
        Token::Integer(1),
        add(),
        Token::RightParen,
        Token::Integer(5),
        Token::LeftParen,
        Token::Unrecognized,
    ];
    assert_eq!(
        ast(tokens),
        Ok((
            vec![number(1), plus()],
            vec![Token::Integer(5), Token::LeftParen, Token::Unrecognized]
        ))
    );
}

#[test]
fn a_close_on_its_own_leaves_nothing() {
    assert_eq!(ast(vec![Token::RightParen]), Ok((vec![], vec![])));
    assert_eq!(
        ast(vec![Token::RightParen, Token::RightParen]),
        Ok((vec![], vec![Token::RightParen]))
    );
}

#[test]
fn siblings_follow_a_closed_group() {
    assert_eq!(
        ast(tokenize("(1) 2")),
        Ok((vec![group(vec![number(1)]), number(2)], vec![]))
    );
    assert_eq!(
        ast(tokenize("(+ (+ 300 400) + 100)")),
        Ok((
            vec![group(vec![
                plus(),
                group(vec![plus(), number(300), number(400)]),
                plus(),
                number(100),
            ])],
            vec![]
        ))
    );
    assert_eq!(
        ast(tokenize("(+ (+ 200 300) (+ 400 500))")),
        Ok((
            vec![group(vec![
                plus(),
                group(vec![plus(), number(200), number(300)]),
                group(vec![plus(), number(400), number(500)]),
            ])],
            vec![]
        ))
    );
    assert_eq!(
        ast(tokenize("(+ (+ 200 300) (+ (900 1000) 500))")),
        Ok((
            vec![group(vec![
                plus(),
                group(vec![plus(), number(200), number(300)]),
                group(vec![plus(), group(vec![number(900), number(1000)]), number(500)]),
            ])],
            vec![]
        ))
    );
}

#[test]
fn what_follows_a_closed_group_and_its_siblings_is_dropped() {
    // The siblings of the group end at the second `)`: the `3` behind it is
    // neither in the forest nor in the remainder.
    assert_eq!(
        ast(tokenize("(1) 2 ) 3")),
        Ok((vec![group(vec![number(1)]), number(2)], vec![]))
    );
    assert_eq!(
        ast(tokenize("(1)) 2 3")),
        Ok((vec![group(vec![number(1)])], vec![]))
    );
}

#[test]
fn a_group_inside_a_group_ends_the_outer_group_early() {
    // The inner group's siblings run up to the outer `)`, and what they
    // leave over is dropped, so the outer call never sees the `3`.
    assert_eq!(
        ast(tokenize("((1) 2) 3")),
        Ok((vec![group(vec![group(vec![number(1)]), number(2)])], vec![]))
    );
    assert_eq!(
        ast(tokenize("((1)) (2)")),
        Ok((vec![group(vec![group(vec![number(1)])])], vec![]))
    );
}

#[test]
fn dropped_tokens_are_never_read() {
    let mut tokens = tokenize("((1) 2)");
    tokens.push(Token::Unrecognized);
    assert_eq!(
        ast(tokens),
        Ok((vec![group(vec![group(vec![number(1)]), number(2)])], vec![]))
    );
}

#[test]
fn an_unclosed_group_ends_with_the_input() {
    assert_eq!(
        ast(tokenize("(1 2")),
        Ok((vec![group(vec![number(1), number(2)])], vec![]))
    );
    assert_eq!(ast(tokenize("(")), Ok((vec![group(vec![])], vec![])));
    assert_eq!(
        ast(tokenize("((")),
        Ok((vec![group(vec![group(vec![])])], vec![]))
    );
}

#[test]
fn an_empty_group_has_no_children() {
    assert_eq!(ast(tokenize("()")), Ok((vec![group(vec![])], vec![])));
    assert_eq!(
        ast(tokenize("() ()")),
        Ok((vec![group(vec![]), group(vec![])], vec![]))
    );
}

#[test]
fn an_unrecognized_token_fails_the_build() {
    assert_eq!(ast(vec![Token::Unrecognized]), Err(ParseError::UnplacedToken));
    assert_eq!(
        ast(vec![Token::Integer(1), Token::Unrecognized]),
        Err(ParseError::UnplacedToken)
    );
    assert_eq!(
        ast(vec![Token::LeftParen, Token::Unrecognized, Token::RightParen]),
        Err(ParseError::UnplacedToken)
    );
    assert_eq!(ast(tokenize("(1) x")), Err(ParseError::UnplacedToken));
    assert_eq!(ast(tokenize("(+ 1 -5)")), Err(ParseError::UnplacedToken));
    assert_eq!(ast(tokenize("(- 1 5)")), Err(ParseError::UnplacedToken));
}

#[test]
fn an_unrecognized_token_behind_a_lone_close_is_not_read() {
    assert_eq!(
        ast(vec![Token::Integer(1), Token::RightParen, Token::Unrecognized]),
        Ok((vec![number(1)], vec![Token::Unrecognized]))
    );
}

#[test]
fn the_same_tokens_give_the_same_result() {
    let tokens = tokenize("(+ (+ 200 300) (+ (900 1000) 500)) 1 ) 2");
    let first = ast(tokens.clone());
    let second = ast(tokens.clone());
    assert_eq!(first, second);
    let failing = tokenize("(+ 1 x)");
    assert_eq!(ast(failing.clone()), ast(failing));
}

#[test]
fn a_long_flat_input_is_built() {
    let mut tokens = Vec::new();
    let mut expected = Vec::new();
    for value in 0..300_000 {
        tokens.push(Token::Integer(value));
        expected.push(number(value));
    }
    let (forest, rest) = ast(tokens).unwrap();
    assert_eq!(forest.len(), 300_000);
    assert!(forest == expected);
    assert_eq!(rest, vec![]);
}

#[test]
fn a_deeply_nested_input_is_built() {
    let depth = 2_000;
    let mut tokens = Vec::new();
    for _ in 0..depth {
        tokens.push(Token::LeftParen);
    }
    tokens.push(Token::Integer(1));
    for _ in 0..depth {
        tokens.push(Token::RightParen);
    }
    let (forest, rest) = ast(tokens).unwrap();
    assert_eq!(rest, vec![]);
    assert_eq!(forest.len(), 1);
    let mut node = &forest[0];
    let mut seen = 0;
    loop {
        match node {
            TreeNode::Group(children) => {
                assert_eq!(children.len(), 1);
                node = &children[0];
                seen += 1;
            }
            TreeNode::Leaf(token) => {
                assert_eq!(*token, Token::Integer(1));
                break;
            }
        }
    }
    assert_eq!(seen, depth);
}

/// The same result, computed by plain recursion over the front of the
/// tokens.
fn build_by_recursion(tokens: &[Token]) -> Option<(Vec<TreeNode>, Vec<Token>)> {
    let (first, tail) = match tokens.split_first() {
        Some(split) => split,
        None => return Some((vec![], vec![])),
    };
    match first {
        Token::RightParen => Some((vec![], tail.to_vec())),
        Token::Integer(_) | Token::Operator(_) => {
            let (forest, rest) = build_by_recursion(tail)?;
            let mut nodes = vec![TreeNode::Leaf(*first)];
            nodes.extend(forest);
            Some((nodes, rest))
        }
        Token::LeftParen => {
            let (children, after_group) = build_by_recursion(tail)?;
            let (siblings, _) = build_by_recursion(&after_group)?;
            let mut nodes = vec![TreeNode::Group(children)];
            nodes.extend(siblings);
            Some((nodes, vec![]))
        }
        Token::Unrecognized => None,
    }
}

struct Lcg(u64);

impl Lcg {
    fn next(&mut self, bound: usize) -> usize {
        self.0 = self
            .0
            .wrapping_mul(6364136223846793005)
            .wrapping_add(1442695040888963407);
        ((self.0 >> 33) as usize) % bound
    }
}

#[test]
fn agrees_with_plain_recursion_on_generated_tokens() {
    let mut lcg = Lcg(99);
    for round in 0..40_000 {
        let len = lcg.next(14);
        let mut tokens = Vec::new();
        for _ in 0..len {
            // Unrecognized tokens are rare, so that most inputs build.
            let token = match lcg.next(if round % 4 == 0 { 9 } else { 8 }) {
                0 | 1 | 2 => Token::LeftParen,
                3 | 4 | 5 => Token::RightParen,
                6 => Token::Integer(lcg.next(1000) as i32),
                7 => Token::Operator(Operator::Add),
                _ => Token::Unrecognized,
            };
            tokens.push(token);
        }
        let expected = build_by_recursion(&tokens).ok_or(ParseError::UnplacedToken);
        assert_eq!(ast(tokens.clone()), expected, "{:?}", tokens);
    }
}

#[test]
fn no_parenthesis_stands_in_a_built_tree() {
    fn check(nodes: &[TreeNode]) {
        for node in nodes {
            match node {
                TreeNode::Leaf(token) => {
                    assert!(matches!(token, Token::Integer(_) | Token::Operator(_)));
                }
                TreeNode::Group(children) => check(children),
            }
        }
    }
    let (forest, _) = ast(tokenize("(+ (1 2) ((3)) ) + ) (")).unwrap();
    check(&forest);
}

#[test]
fn the_error_is_one_plain_value() {
    let error = ast(vec![Token::Unrecognized]).unwrap_err();
    assert_eq!(error, ParseError::UnplacedToken);
    assert_eq!(error.message(), "parse error");
}
