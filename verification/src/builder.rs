//! The tree builder: from a token sequence to a forest and a remainder.

use vstd::prelude::*;
use crate::lexer::{integer_of, is_paren, lemma_pad_without_parens, lex, split_words};
use crate::token::Token;
use crate::tree::{
    forest_view, forest_well_formed, leaves, lemma_forest_view_push, lemma_group_view, Tree,
    TreeNode,
};

verus! {

/// What building from `tokens` gives: the forest read off the front of the
/// sequence and the tokens left over, or `None` where a token cannot be
/// placed.
///
/// - Nothing to read: an empty forest, nothing left over.
/// - A closing parenthesis ends the current level: an empty forest, and
///   everything behind the parenthesis is left over.
/// - An integer or an operator is a leaf in front of whatever the tail
///   gives.
/// - An opening parenthesis starts a group: the tail gives the group's
///   children, what that left over gives the group's siblings, and nothing
///   at all is left over, whatever the siblings left.
/// - Any other token cannot be placed.
///
/// The test on the length of the inner remainder only serves to show that
/// the definition is well founded; [`lemma_remainder_is_suffix`] shows that
/// it always holds.
pub open spec fn build(tokens: Seq<Token>) -> Option<(Seq<Tree>, Seq<Token>)>
    decreases tokens.len(),
{
    if tokens.len() == 0 {
        Some((Seq::empty(), Seq::empty()))
    } else {
        let tail = tokens.drop_first();
        match tokens[0] {
            Token::RightParen => Some((Seq::empty(), tail)),
            Token::Integer(_) | Token::Operator(_) => match build(tail) {
                Some((forest, rest)) => Some((seq![Tree::Leaf(tokens[0])] + forest, rest)),
                None => None,
            },
            Token::LeftParen => match build(tail) {
                Some((children, after_group)) => if after_group.len() < tokens.len() {
                    match build(after_group) {
                        Some((siblings, _)) => Some(
                            (seq![Tree::Group(children)] + siblings, Seq::empty()),
                        ),
                        None => None,
                    }
                } else {
                    None
                },
                None => None,
            },
            Token::Unrecognized => None,
        }
    }
}

/// What is left over is a suffix of the input, and a proper one unless the
/// input is empty.
pub proof fn lemma_remainder_is_suffix(tokens: Seq<Token>)
    ensures
        build(tokens) matches Some((_, rest)) ==> {
            &&& rest.len() <= tokens.len()
            &&& rest == tokens.skip(tokens.len() - rest.len())
            &&& tokens.len() > 0 ==> rest.len() < tokens.len()
        },
    decreases tokens.len(),
{
    if tokens.len() > 0 {
        let tail = tokens.drop_first();
        lemma_remainder_is_suffix(tail);
        match tokens[0] {
            Token::RightParen => {
                assert(tail == tokens.skip(tokens.len() - tail.len()));
            },
            Token::Integer(_) | Token::Operator(_) => {
                if let Some((_, rest)) = build(tail) {
                    assert(tail.skip(tail.len() - rest.len()) == tokens.skip(
                        tokens.len() - rest.len(),
                    ));
                }
            },
            Token::LeftParen => {
                assert(Seq::<Token>::empty() == tokens.skip(tokens.len() as int));
            },
            Token::Unrecognized => {},
        }
    } else {
        assert(Seq::<Token>::empty() == tokens.skip(0));
    }
}

/// Building is a function of the tokens alone: two sequences that hold the
/// same tokens in the same order give the same forest and the same
/// remainder, or both fail.
pub proof fn lemma_same_tokens_same_result(first: Seq<Token>, second: Seq<Token>)
    requires
        first.len() == second.len(),
        forall|i: int| 0 <= i < first.len() ==> first[i] == second[i],
    ensures
        build(first) == build(second),
{
    assert(first =~= second);
}

/// A sequence of integers and operators alone gives one leaf for each
/// token, in order, and leaves nothing over.
pub proof fn lemma_atoms_become_leaves(tokens: Seq<Token>)
    requires
        forall|i: int| 0 <= i < tokens.len() ==> (#[trigger] tokens[i]).is_atom(),
    ensures
        build(tokens) == Some((leaves(tokens), Seq::<Token>::empty())),
    decreases tokens.len(),
{
    if tokens.len() == 0 {
        assert(leaves(tokens) =~= Seq::<Tree>::empty());
    } else {
        let tail = tokens.drop_first();
        assert forall|i: int| 0 <= i < tail.len() implies (#[trigger] tail[i]).is_atom() by {
            assert(tail[i] == tokens[i + 1]);
        }
        lemma_atoms_become_leaves(tail);
        assert(tokens[0].is_atom());
        assert(seq![Tree::Leaf(tokens[0])] + leaves(tail) =~= leaves(tokens));
    }
}

/// A text of integers separated by white space, without parentheses or
/// operators, gives one leaf for each integer, in the order of the text,
/// and leaves nothing over.
pub proof fn lemma_integers_become_leaves(text: Seq<char>)
    requires
        forall|i: int| 0 <= i < text.len() ==> !is_paren(#[trigger] text[i]),
        forall|k: int|
            0 <= k < split_words(text).len() ==> integer_of(#[trigger] split_words(text)[k])
                is Some,
    ensures
        build(lex(text)) matches Some((forest, rest)) && {
            &&& rest.len() == 0
            &&& forest.len() == split_words(text).len()
            &&& forall|k: int|
                0 <= k < forest.len() ==> #[trigger] forest[k] == Tree::Leaf(
                    Token::Integer(integer_of(split_words(text)[k])->0),
                )
        },
{
    let words = split_words(text);
    let tokens = lex(text);
    lemma_pad_without_parens(text);
    assert forall|k: int| 0 <= k < tokens.len() implies (#[trigger] tokens[k]) == Token::Integer(
        integer_of(words[k])->0,
    ) by {
        let word = words[k];
        assert(integer_of(word) is Some);
        assert(crate::lexer::is_digit(word[0]));
    }
    assert forall|k: int| 0 <= k < tokens.len() implies (#[trigger] tokens[k]).is_atom() by {
        assert(tokens[k] == Token::Integer(integer_of(words[k])->0));
    }
    lemma_atoms_become_leaves(tokens);
}

/// A closing parenthesis with nothing but integers and operators in front
/// of it ends the level: those tokens become leaves, and everything behind
/// the parenthesis is left over, untouched.
pub proof fn lemma_close_ends_level(tokens: Seq<Token>, close: int)
    requires
        0 <= close < tokens.len(),
        forall|i: int| 0 <= i < close ==> (#[trigger] tokens[i]).is_atom(),
        tokens[close] == Token::RightParen,
    ensures
        build(tokens) == Some((leaves(tokens.take(close)), tokens.skip(close + 1))),
    decreases close,
{
    let tail = tokens.drop_first();
    if close == 0 {
        assert(leaves(tokens.take(0)) =~= Seq::<Tree>::empty());
        assert(tail =~= tokens.skip(1));
    } else {
        assert forall|i: int| 0 <= i < close - 1 implies (#[trigger] tail[i]).is_atom() by {
            assert(tail[i] == tokens[i + 1]);
        }
        lemma_close_ends_level(tail, close - 1);
        assert(tokens[0].is_atom());
        assert(tail.skip(close) =~= tokens.skip(close + 1));
        assert(seq![Tree::Leaf(tokens[0])] + leaves(tail.take(close - 1)) =~= leaves(
            tokens.take(close),
        ));
    }
}

/// Input that opens with a parenthesis gives a forest that starts with a
/// group and leaves nothing over: whatever the group's siblings did not
/// read is dropped.
pub proof fn lemma_group_leaves_nothing(tokens: Seq<Token>)
    requires
        tokens.len() > 0,
        tokens[0] == Token::LeftParen,
    ensures
        build(tokens) matches Some((forest, rest)) ==> {
            &&& rest.len() == 0
            &&& forest.len() > 0
            &&& forest[0] is Group
        },
{
}

/// A group of integers and operators that is closed: its siblings are what
/// the tokens behind the closing parenthesis give, and what those siblings
/// leave over is dropped, not returned.
pub proof fn lemma_closed_group_drops_remainder(tokens: Seq<Token>, close: int)
    requires
        0 < close < tokens.len(),
        tokens[0] == Token::LeftParen,
        forall|i: int| 0 < i < close ==> (#[trigger] tokens[i]).is_atom(),
        tokens[close] == Token::RightParen,
    ensures
        build(tokens) == match build(tokens.skip(close + 1)) {
            Some((siblings, _)) => Some(
                (
                    seq![Tree::Group(leaves(tokens.subrange(1, close)))] + siblings,
                    Seq::<Token>::empty(),
                ),
            ),
            None => None,
        },
{
    let tail = tokens.drop_first();
    assert forall|i: int| 0 <= i < close - 1 implies (#[trigger] tail[i]).is_atom() by {
        assert(tail[i] == tokens[i + 1]);
    }
    lemma_close_ends_level(tail, close - 1);
    assert(tail.take(close - 1) =~= tokens.subrange(1, close));
    assert(tail.skip(close) =~= tokens.skip(close + 1));
}

/// No parenthesis ends up in a tree: the forest that building gives is
/// well formed.
pub proof fn lemma_build_well_formed(tokens: Seq<Token>)
    ensures
        build(tokens) matches Some((forest, _)) ==> forest_well_formed(forest),
    decreases tokens.len(),
{
    if tokens.len() > 0 {
        let tail = tokens.drop_first();
        lemma_build_well_formed(tail);
        if let Some((inner, after)) = build(tail) {
            if tokens[0] == Token::LeftParen && after.len() < tokens.len() {
                lemma_build_well_formed(after);
                if let Some((siblings, _)) = build(after) {
                    let forest = seq![Tree::Group(inner)] + siblings;
                    assert forall|i: int| 0 <= i < forest.len() implies (
                    #[trigger] forest[i]).well_formed() by {
                        if i > 0 {
                            assert(forest[i] == siblings[i - 1]);
                        }
                    }
                }
            } else if tokens[0].is_atom() {
                let forest = seq![Tree::Leaf(tokens[0])] + inner;
                assert forall|i: int| 0 <= i < forest.len() implies (
                #[trigger] forest[i]).well_formed() by {
                    if i > 0 {
                        assert(forest[i] == inner[i - 1]);
                    }
                }
            }
        }
    }
}

/// The one structural error: a token that can be placed neither as a leaf
/// nor as a delimiter. It carries no position.
#[derive(Clone, Copy, Debug, PartialEq, Eq, Structural)]
pub enum ParseError {
    /// The builder met an unrecognized token.
    UnplacedToken,
}

impl ParseError {
    /// A short description of the error.
    pub fn message(&self) -> (text: &'static str)
        ensures
            text@ == "parse error"@,
    {
        "parse error"
    }
}

/// The result of the call in progress, once the rest of its input has
/// been built: the nodes already read stand in front, and a call that has
/// closed a group leaves nothing over.
spec fn finish(
    prefix: Seq<Tree>,
    discard: bool,
    built: Option<(Seq<Tree>, Seq<Token>)>,
) -> Option<(Seq<Tree>, Seq<Token>)> {
    match built {
        Some((forest, rest)) => Some(
            (
                prefix + forest,
                if discard {
                    Seq::empty()
                } else {
                    rest
                },
            ),
        ),
        None => None,
    }
}

/// The result of the outermost call, given what the innermost call in
/// progress returned. Each entry of `pending` is the prefix of a call that
/// waits for the children of a group it has opened; on their arrival it
/// goes on with the group's siblings.
spec fn unwind(pending: Seq<Seq<Tree>>, returned: Option<(Seq<Tree>, Seq<Token>)>) -> Option<
    (Seq<Tree>, Seq<Token>),
>
    decreases pending.len(),
{
    if pending.len() == 0 {
        returned
    } else {
        match returned {
            Some((children, rest)) => unwind(
                pending.drop_last(),
                finish(pending.last().push(Tree::Group(children)), true, build(rest)),
            ),
            None => None,
        }
    }
}

/// The models of the pending prefixes, outermost first.
spec fn pending_view(pending: Seq<Vec<TreeNode>>) -> Seq<Seq<Tree>> {
    Seq::new(pending.len(), |k: int| forest_view(pending[k]@))
}

/// A failure inside passes through every pending call.
proof fn lemma_unwind_none(pending: Seq<Seq<Tree>>)
    ensures
        unwind(pending, None) is None,
{
}

/// Reading a leaf moves it from the input to the prefix.
proof fn lemma_step_leaf(prefix: Seq<Tree>, discard: bool, tokens: Seq<Token>)
    requires
        tokens.len() > 0,
        tokens[0].is_atom(),
    ensures
        finish(prefix, discard, build(tokens)) == finish(
            prefix.push(Tree::Leaf(tokens[0])),
            discard,
            build(tokens.drop_first()),
        ),
{
    if let Some((forest, rest)) = build(tokens.drop_first()) {
        assert(prefix + (seq![Tree::Leaf(tokens[0])] + forest) =~= prefix.push(
            Tree::Leaf(tokens[0]),
        ) + forest);
    }
}

/// Opening a group suspends the call: its result is what it gives once the
/// children have arrived.
proof fn lemma_step_open(
    pending: Seq<Seq<Tree>>,
    prefix: Seq<Tree>,
    discard: bool,
    tokens: Seq<Token>,
)
    requires
        tokens.len() > 0,
        tokens[0] == Token::LeftParen,
    ensures
        unwind(pending, finish(prefix, discard, build(tokens))) == unwind(
            pending.push(prefix),
            finish(Seq::empty(), false, build(tokens.drop_first())),
        ),
{
    let tail = tokens.drop_first();
    let suspended = pending.push(prefix);
    assert(suspended.drop_last() =~= pending);
    assert(suspended.last() == prefix);
    lemma_remainder_is_suffix(tail);
    match build(tail) {
        Some((children, after_group)) => {
            assert(Seq::<Tree>::empty() + children =~= children);
            match build(after_group) {
                Some((siblings, _)) => {
                    assert(prefix + (seq![Tree::Group(children)] + siblings) =~= prefix.push(
                        Tree::Group(children),
                    ) + siblings);
                },
                None => {},
            }
        },
        None => {},
    }
}

/// Builds the forest that stands at the front of `tokens`.
///
/// Returns the forest together with the tokens left over, as [`build`]
/// defines them, and fails exactly where [`build`] gives nothing: where an
/// unrecognized token stands in a place that is read.
///
/// The nesting of the input is kept on a heap-allocated stack, so that deep
/// or long inputs do not exhaust the call stack.
pub fn ast(tokens: Vec<Token>) -> (result: Result<(Vec<TreeNode>, Vec<Token>), ParseError>)
    ensures
        match result {
            Ok((forest, rest)) => {
                &&& build(tokens@) == Some((forest_view(forest@), rest@))
                &&& forest_well_formed(forest_view(forest@))
            },
            Err(error) => build(tokens@) is None && error == ParseError::UnplacedToken,
        },
{
    let ghost input = tokens@;
    let n: usize = tokens.len();
    let mut pending: Vec<Vec<TreeNode>> = Vec::new();
    let mut current: Vec<TreeNode> = Vec::new();
    let mut discard = false;
    let mut i: usize = 0;
    proof {
        assert(input.skip(0) =~= input);
        assert(forest_view(current@) =~= Seq::<Tree>::empty());
        assert(pending_view(pending@) =~= Seq::<Seq<Tree>>::empty());
        if let Some((forest, rest)) = build(input) {
            assert(Seq::<Tree>::empty() + forest =~= forest);
        }
    }
    loop
        invariant
            tokens@ == input,
            n == input.len(),
            i <= n,
            unwind(
                pending_view(pending@),
                finish(forest_view(current@), discard, build(input.skip(i as int))),
            ) == build(input),
        decreases 2 * (n - i) + pending.len(),
    {
        let ghost rest = input.skip(i as int);
        let ghost prefix = forest_view(current@);
        let ghost outer = pending_view(pending@);
        if i < n {
            proof {
                assert(rest.len() > 0 && rest[0] == input[i as int]);
                assert(rest.drop_first() =~= input.skip(i + 1));
            }
            let token = tokens[i];
            match token {
                Token::Integer(_) | Token::Operator(_) => {
                    proof {
                        lemma_step_leaf(prefix, discard, rest);
                        lemma_forest_view_push(current@, TreeNode::Leaf(token));
                    }
                    current.push(TreeNode::Leaf(token));
                    i = i + 1;
                    continue ;
                },
                Token::LeftParen => {
                    proof {
                        lemma_step_open(outer, prefix, discard, rest);
                        assert(pending_view(pending@.push(current)) =~= outer.push(prefix));
                        assert(forest_view(Seq::<TreeNode>::empty()) =~= Seq::<Tree>::empty());
                    }
                    pending.push(current);
                    current = Vec::new();
                    discard = false;
                    i = i + 1;
                    continue ;
                },
                Token::Unrecognized => {
                    proof {
                        lemma_unwind_none(outer);
                    }
                    return Err(ParseError::UnplacedToken);
                },
                Token::RightParen => {},
            }
        }
        // The call in progress returns: its input is empty or starts with
        // a closing parenthesis.
        let resume: usize = if discard || i == n {
            n
        } else {
            i + 1
        };
        proof {
            assert(input.skip(n as int) =~= Seq::<Token>::empty());
            assert(prefix + Seq::<Tree>::empty() =~= prefix);
            assert(finish(prefix, discard, build(rest)) == Some(
                (prefix, input.skip(resume as int)),
            ));
        }
        match pending.pop() {
            None => {
                let mut consumed = tokens;
                let rest_tokens = consumed.split_off(resume);
                proof {
                    assert(outer =~= Seq::<Seq<Tree>>::empty());
                    assert(rest_tokens@ =~= input.skip(resume as int));
                    lemma_build_well_formed(input);
                }
                return Ok((current, rest_tokens));
            },
            Some(parent) => {
                let mut parent = parent;
                proof {
                    assert(outer.last() == forest_view(parent@));
                    assert(pending_view(pending@) =~= outer.drop_last());
                    lemma_group_view(current);
                    lemma_forest_view_push(parent@, TreeNode::Group(current));
                }
                parent.push(TreeNode::Group(current));
                current = parent;
                discard = true;
                i = resume;
            },
        }
    }
}

} // verus!
