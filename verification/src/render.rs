//! The text form of a forest: one line for each leaf and each group, a
//! group's children one tab deeper than the group.

use vstd::prelude::*;
use vstd::string::StringExecFns;
use crate::lexer::{all_digits, classify, decimal_value, is_digit};
use crate::token::{Operator, Token};
use crate::tree::{forest_view, lemma_group_view, Tree, TreeNode};

verus! {

/// The character of a decimal digit.
pub open spec fn digit_char(digit: int) -> char {
    ('0' as int + digit) as char
}

/// The decimal digits of a natural number, without leading zeros.
pub open spec fn natural_text(n: nat) -> Seq<char>
    decreases n,
{
    if n < 10 {
        seq![digit_char(n as int)]
    } else {
        natural_text(n / 10).push(digit_char((n % 10) as int))
    }
}

/// The decimal form of an integer, with a minus sign where it is negative.
pub open spec fn integer_text(value: int) -> Seq<char> {
    if value < 0 {
        seq!['-'] + natural_text((-value) as nat)
    } else {
        natural_text(value as nat)
    }
}

/// The digits of a number are decimal digits that stand for the number.
pub proof fn lemma_natural_text_is_decimal(n: nat)
    ensures
        natural_text(n).len() > 0,
        all_digits(natural_text(n)),
        decimal_value(natural_text(n)) == n,
    decreases n,
{
    let text = natural_text(n);
    if n < 10 {
        assert(text.drop_last() =~= Seq::<char>::empty());
        assert(decimal_value(text.drop_last()) == 0);
    } else {
        let front = natural_text(n / 10);
        lemma_natural_text_is_decimal(n / 10);
        assert(text.drop_last() =~= front);
        assert forall|i: int| 0 <= i < text.len() implies is_digit(#[trigger] text[i]) by {
            if i < front.len() {
                assert(text[i] == front[i]);
            }
        }
    }
}

/// What an integer token is rendered as is read back as the same token,
/// provided that the integer is not negative.
pub proof fn lemma_integer_text_reads_back(value: i32)
    requires
        0 <= value,
    ensures
        classify(integer_text(value as int)) == Token::Integer(value),
{
    lemma_natural_text_is_decimal(value as nat);
}

/// The text that shows a token: the name of its kind, and in brackets
/// behind it what it holds.
pub open spec fn token_text(token: Token) -> Seq<char> {
    match token {
        Token::LeftParen => "LeftParen"@,
        Token::RightParen => "RightParen"@,
        Token::Integer(value) => "Integer("@ + integer_text(value as int) + ")"@,
        Token::Operator(Operator::Add) => "Operator(Add)"@,
        Token::Unrecognized => "Unrecognized"@,
    }
}

/// The lines of one tree: a leaf is one line that shows its token, a group
/// is a header line and then the lines of its children, one tab deeper.
pub open spec fn tree_lines(tree: Tree, indent: Seq<char>) -> Seq<Seq<char>>
    decreases tree,
{
    match tree {
        Tree::Leaf(token) => seq![indent + token_text(token)],
        Tree::Group(children) => seq![indent + "Group:"@] + forest_lines(
            children,
            indent.push('\t'),
        ),
    }
}

/// The lines of a forest: the lines of its trees, one tree after the other.
pub open spec fn forest_lines(forest: Seq<Tree>, indent: Seq<char>) -> Seq<Seq<char>>
    decreases forest,
{
    if forest.len() == 0 {
        Seq::empty()
    } else {
        forest_lines(forest.drop_last(), indent) + tree_lines(forest.last(), indent)
    }
}

/// The texts of a list of lines.
pub open spec fn lines_view(lines: Seq<String>) -> Seq<Seq<char>> {
    Seq::new(lines.len(), |i: int| lines[i]@)
}

/// The text of one decimal digit.
fn digit_str(digit: u32) -> (text: &'static str)
    requires
        digit < 10,
    ensures
        text@ == seq![digit_char(digit as int)],
{
    proof {
        reveal_strlit("0");
        reveal_strlit("1");
        reveal_strlit("2");
        reveal_strlit("3");
        reveal_strlit("4");
        reveal_strlit("5");
        reveal_strlit("6");
        reveal_strlit("7");
        reveal_strlit("8");
        reveal_strlit("9");
    }
    let text = if digit == 0 {
        "0"
    } else if digit == 1 {
        "1"
    } else if digit == 2 {
        "2"
    } else if digit == 3 {
        "3"
    } else if digit == 4 {
        "4"
    } else if digit == 5 {
        "5"
    } else if digit == 6 {
        "6"
    } else if digit == 7 {
        "7"
    } else if digit == 8 {
        "8"
    } else {
        "9"
    };
    assert(text@ =~= seq![digit_char(digit as int)]);
    text
}

/// Writes the decimal digits of `n` at the end of `line`.
fn append_natural(line: &mut String, n: u32)
    ensures
        final(line)@ == old(line)@ + natural_text(n as nat),
    decreases n,
{
    if n >= 10 {
        append_natural(line, n / 10);
    }
    line.append(digit_str(n % 10));
    proof {
        if n >= 10 {
            assert(old(line)@ + natural_text((n / 10) as nat) + seq![
                digit_char((n % 10) as int),
            ] =~= old(line)@ + natural_text(n as nat));
        }
    }
}

/// Writes the text of `token` at the end of `line`.
fn append_token(line: &mut String, token: Token)
    ensures
        final(line)@ == old(line)@ + token_text(token),
{
    match token {
        Token::LeftParen => {
            line.append("LeftParen");
        },
        Token::RightParen => {
            line.append("RightParen");
        },
        Token::Integer(value) => {
            line.append("Integer(");
            let wide: i64 = value as i64;
            if wide < 0 {
                proof {
                    reveal_strlit("-");
                }
                line.append("-");
                append_natural(line, (-wide) as u32);
            } else {
                append_natural(line, wide as u32);
            }
            line.append(")");
            proof {
                assert(final(line)@ =~= old(line)@ + ("Integer("@ + integer_text(value as int)
                    + ")"@)) by {
                    if value < 0 {
                        assert("-"@ =~= seq!['-']);
                    }
                }
            }
        },
        Token::Operator(Operator::Add) => {
            line.append("Operator(Add)");
        },
        Token::Unrecognized => {
            line.append("Unrecognized");
        },
    }
}

/// Writes the lines of `forest` at the end of `lines`.
fn collect_lines(forest: &Vec<TreeNode>, indent: &str, lines: &mut Vec<String>)
    ensures
        lines_view(final(lines)@) == lines_view(old(lines)@) + forest_lines(
            forest_view(forest@),
            indent@,
        ),
    decreases forest,
{
    let ghost models = forest_view(forest@);
    let mut i: usize = 0;
    proof {
        assert(models.take(0) =~= Seq::<Tree>::empty());
        assert(lines_view(lines@) + Seq::<Seq<char>>::empty() =~= lines_view(lines@));
    }
    while i < forest.len()
        invariant
            i <= forest.len(),
            models == forest_view(forest@),
            lines_view(lines@) == lines_view(old(lines)@) + forest_lines(
                models.take(i as int),
                indent@,
            ),
        decreases forest.len() - i,
    {
        let ghost before = lines_view(lines@);
        let ghost done = forest_lines(models.take(i as int), indent@);
        let ghost tree = forest@[i as int]@;
        proof {
            assert(models.take(i + 1).drop_last() =~= models.take(i as int));
            assert(models.take(i + 1).last() == tree);
            assert(forest_lines(models.take(i + 1), indent@) == done + tree_lines(tree, indent@));
        }
        match &forest[i] {
            TreeNode::Leaf(token) => {
                let mut line = String::from_str(indent);
                append_token(&mut line, *token);
                proof {
                    assert(tree == Tree::Leaf(*token));
                    assert(lines_view(lines@.push(line)) =~= before.push(line@));
                    assert(before.push(line@) =~= lines_view(old(lines)@) + (done + tree_lines(
                        tree,
                        indent@,
                    )));
                }
                lines.push(line);
            },
            TreeNode::Group(children) => {
                let mut header = String::from_str(indent);
                header.append("Group:");
                let mut deeper = String::from_str(indent);
                proof {
                    reveal_strlit("\t");
                    lemma_group_view(*children);
                    assert(lines_view(lines@.push(header)) =~= before.push(header@));
                }
                deeper.append("\t");
                lines.push(header);
                collect_lines(children, deeper.as_str(), lines);
                proof {
                    assert(deeper@ =~= indent@.push('\t'));
                    assert(tree == Tree::Group(forest_view(children@)));
                    assert(lines_view(lines@) =~= lines_view(old(lines)@) + (done + tree_lines(
                        tree,
                        indent@,
                    )));
                }
            },
        }
        i = i + 1;
    }
    assert(models.take(i as int) =~= models);
}

/// Renders `forest` as lines of text, each line starting with `prefix`.
///
/// A leaf is one line that shows its token. A group is the header line
/// `Group:` followed by the lines of its children, which start one tab
/// further in.
pub fn pretty(forest: &Vec<TreeNode>, prefix: &str) -> (lines: Vec<String>)
    ensures
        lines_view(lines@) == forest_lines(forest_view(forest@), prefix@),
{
    let mut lines: Vec<String> = Vec::new();
    collect_lines(forest, prefix, &mut lines);
    proof {
        assert(lines_view(Seq::<String>::empty()) =~= Seq::<Seq<char>>::empty());
        assert(Seq::<Seq<char>>::empty() + forest_lines(forest_view(forest@), prefix@)
            =~= forest_lines(forest_view(forest@), prefix@));
    }
    lines
}

} // verus!
