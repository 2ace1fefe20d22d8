//! The lexer: from text to tokens.

use vstd::prelude::*;
use crate::token::{Operator, Token};

verus! {

/// The characters that separate words: those with the Unicode property
/// `White_Space`.
pub open spec fn white_space(c: char) -> bool {
    ||| '\u{9}' <= c <= '\u{D}'
    ||| c == ' '
    ||| c == '\u{85}'
    ||| c == '\u{A0}'
    ||| c == '\u{1680}'
    ||| '\u{2000}' <= c <= '\u{200A}'
    ||| c == '\u{2028}'
    ||| c == '\u{2029}'
    ||| c == '\u{202F}'
    ||| c == '\u{205F}'
    ||| c == '\u{3000}'
}

/// True of the two parentheses.
pub open spec fn is_paren(c: char) -> bool {
    c == '(' || c == ')'
}

/// The text with a space on either side of every parenthesis, so that each
/// parenthesis is a word of its own.
pub open spec fn pad_parens(text: Seq<char>) -> Seq<char>
    decreases text.len(),
{
    if text.len() == 0 {
        Seq::empty()
    } else if is_paren(text[0]) {
        seq![' ', text[0], ' '] + pad_parens(text.drop_first())
    } else {
        seq![text[0]] + pad_parens(text.drop_first())
    }
}

/// The length of the longest prefix of `text` that holds no white space.
pub open spec fn word_len(text: Seq<char>) -> nat
    decreases text.len(),
{
    if text.len() == 0 || white_space(text[0]) {
        0
    } else {
        1 + word_len(text.drop_first())
    }
}

/// A word ends within the text.
pub proof fn lemma_word_len_bound(text: Seq<char>)
    ensures
        word_len(text) <= text.len(),
    decreases text.len(),
{
    if text.len() > 0 {
        lemma_word_len_bound(text.drop_first());
    }
}

/// The words of `text`: its maximal runs of characters other than white
/// space, in order.
pub open spec fn split_words(text: Seq<char>) -> Seq<Seq<char>>
    decreases text.len(),
{
    if text.len() == 0 {
        Seq::empty()
    } else if white_space(text[0]) {
        split_words(text.drop_first())
    } else {
        proof {
            lemma_word_len_bound(text);
        }
        let len = word_len(text) as int;
        seq![text.take(len)] + split_words(text.skip(len))
    }
}

/// True of the ten decimal digits `0` to `9`.
pub open spec fn is_digit(c: char) -> bool {
    '0' <= c <= '9'
}

/// The number that a decimal digit stands for.
pub open spec fn digit_value(c: char) -> int {
    c as int - '0' as int
}

/// Every character of `word` is a decimal digit.
pub open spec fn all_digits(word: Seq<char>) -> bool {
    forall|i: int| 0 <= i < word.len() ==> is_digit(#[trigger] word[i])
}

/// The number that a string of decimal digits stands for.
pub open spec fn decimal_value(digits: Seq<char>) -> int
    decreases digits.len(),
{
    if digits.len() == 0 {
        0
    } else {
        10 * decimal_value(digits.drop_last()) + digit_value(digits.last())
    }
}

/// The integer that `word` is a literal of: `word` is one or more decimal
/// digits, without a sign, and their value fits in 32 signed bits.
pub open spec fn integer_of(word: Seq<char>) -> Option<i32> {
    if word.len() > 0 && all_digits(word) && decimal_value(word) <= i32::MAX {
        Some(decimal_value(word) as i32)
    } else {
        None
    }
}

/// True of the four arithmetic symbols, the first characters of the words
/// that are read as operators.
pub open spec fn is_operator_symbol(c: char) -> bool {
    c == '+' || c == '-' || c == '*' || c == '/'
}

/// The token of a word that is read as an operator: the word `+` is
/// addition, and no other operator is known.
pub open spec fn operator_token(word: Seq<char>) -> Token {
    if word.len() == 1 && word[0] == '+' {
        Token::Operator(Operator::Add)
    } else {
        Token::Unrecognized
    }
}

/// The token of a word, decided by its first character: a parenthesis, an
/// operator where it is an arithmetic symbol, an integer where it is a
/// digit. A word that is none of these is unrecognized; so is one with a
/// sign in front, since `-` and `+` are operator symbols.
pub open spec fn classify(word: Seq<char>) -> Token {
    if word.len() == 0 {
        Token::Unrecognized
    } else if word[0] == '(' {
        Token::LeftParen
    } else if word[0] == ')' {
        Token::RightParen
    } else if is_operator_symbol(word[0]) {
        operator_token(word)
    } else if is_digit(word[0]) {
        match integer_of(word) {
            Some(value) => Token::Integer(value),
            None => Token::Unrecognized,
        }
    } else {
        Token::Unrecognized
    }
}

/// The tokens of `text`: one for each word of the padded text, in order.
pub open spec fn lex(text: Seq<char>) -> Seq<Token> {
    split_words(pad_parens(text)).map_values(|word: Seq<char>| classify(word))
}

/// The digits read so far never stand for more than the whole string does.
proof fn lemma_decimal_prefix(digits: Seq<char>, len: int)
    requires
        all_digits(digits),
        0 <= len <= digits.len(),
    ensures
        0 <= decimal_value(digits.take(len)) <= decimal_value(digits),
    decreases digits.len(),
{
    if digits.len() > 0 {
        let shorter = digits.drop_last();
        assert forall|i: int| 0 <= i < shorter.len() implies is_digit(#[trigger] shorter[i]) by {
            assert(shorter[i] == digits[i]);
        }
        assert(is_digit(digits.last()));
        if len == digits.len() {
            assert(digits.take(len) =~= digits);
            lemma_decimal_prefix(shorter, len - 1);
        } else {
            assert(shorter.take(len) =~= digits.take(len));
            lemma_decimal_prefix(shorter, len);
        }
    } else {
        assert(digits.take(len) =~= digits);
    }
}

/// The only word that is an operator is `+`: every other word that starts
/// with an arithmetic symbol, a signed number among them, is unrecognized.
pub proof fn lemma_operator_is_plus(word: Seq<char>)
    ensures
        classify(word) is Operator <==> word == seq!['+'],
        classify(word) is Operator ==> classify(word) == Token::Operator(Operator::Add),
        word.len() > 0 && is_operator_symbol(word[0]) && word != seq!['+'] ==> classify(word)
            == Token::Unrecognized,
{
    if word.len() == 1 && word[0] == '+' {
        assert(word =~= seq!['+']);
    }
}

/// An integer token holds the value of its word, which is made of decimal
/// digits alone; so it is never negative.
pub proof fn lemma_integer_is_decimal(word: Seq<char>)
    ensures
        classify(word) matches Token::Integer(value) ==> {
            &&& all_digits(word)
            &&& value == decimal_value(word)
            &&& 0 <= value
        },
{
    if classify(word) is Integer {
        lemma_decimal_prefix(word, word.len() as int);
    }
}

/// A text without parentheses is its own padding.
pub proof fn lemma_pad_without_parens(text: Seq<char>)
    requires
        forall|i: int| 0 <= i < text.len() ==> !is_paren(#[trigger] text[i]),
    ensures
        pad_parens(text) == text,
    decreases text.len(),
{
    if text.len() > 0 {
        let tail = text.drop_first();
        assert forall|i: int| 0 <= i < tail.len() implies !is_paren(#[trigger] tail[i]) by {
            assert(tail[i] == text[i + 1]);
        }
        lemma_pad_without_parens(tail);
        assert(!is_paren(text[0]));
        assert(seq![text[0]] + tail =~= text);
    } else {
        assert(pad_parens(text) =~= text);
    }
}

/// The length of the longest prefix of `text` that holds neither white
/// space nor a parenthesis.
pub open spec fn run_len(text: Seq<char>) -> nat
    decreases text.len(),
{
    if text.len() == 0 || white_space(text[0]) || is_paren(text[0]) {
        0
    } else {
        1 + run_len(text.drop_first())
    }
}

/// A run is as long as the first position that holds white space or a
/// parenthesis, or as the text where there is none.
pub proof fn lemma_run_len_is(text: Seq<char>, len: int)
    requires
        0 <= len <= text.len(),
        forall|i: int| 0 <= i < len ==> !white_space(#[trigger] text[i]) && !is_paren(text[i]),
        len < text.len() ==> white_space(text[len]) || is_paren(text[len]),
    ensures
        run_len(text) == len,
    decreases len,
{
    if len > 0 {
        let tail = text.drop_first();
        assert forall|i: int| 0 <= i < len - 1 implies !white_space(#[trigger] tail[i])
            && !is_paren(tail[i]) by {
            assert(tail[i] == text[i + 1]);
        }
        lemma_run_len_is(tail, len - 1);
        assert(!white_space(text[0]) && !is_paren(text[0]));
    }
}

/// Padding leaves a run as it is, and the run is the first word of the
/// padded text.
proof fn lemma_run_is_word(text: Seq<char>)
    requires
        text.len() > 0,
        !white_space(text[0]),
        !is_paren(text[0]),
    ensures
        1 <= run_len(text) <= text.len(),
        word_len(pad_parens(text)) == run_len(text),
        pad_parens(text).take(run_len(text) as int) == text.take(run_len(text) as int),
        pad_parens(text).skip(run_len(text) as int) == pad_parens(
            text.skip(run_len(text) as int),
        ),
    decreases text.len(),
{
    let tail = text.drop_first();
    let padded = pad_parens(text);
    let padded_tail = pad_parens(tail);
    let len = run_len(text) as int;
    assert(padded == seq![text[0]] + padded_tail);
    assert(padded.drop_first() =~= padded_tail);
    assert(word_len(padded) == 1 + word_len(padded_tail));
    if tail.len() == 0 || white_space(tail[0]) || is_paren(tail[0]) {
        assert(run_len(tail) == 0);
        assert(word_len(padded_tail) == 0) by {
            if tail.len() > 0 && is_paren(tail[0]) {
                assert(padded_tail == seq![' ', tail[0], ' '] + pad_parens(tail.drop_first()));
                assert(padded_tail[0] == ' ');
            } else if tail.len() > 0 {
                assert(padded_tail == seq![tail[0]] + pad_parens(tail.drop_first()));
                assert(padded_tail[0] == tail[0]);
            }
        }
        assert(padded.take(1) =~= text.take(1));
        assert(text.skip(1) =~= tail);
        assert(padded.skip(1) =~= padded_tail);
    } else {
        lemma_run_is_word(tail);
        lemma_word_len_bound(padded_tail);
        assert(len == 1 + run_len(tail));
        assert(padded.take(len) =~= seq![text[0]] + padded_tail.take(len - 1));
        assert(text.take(len) =~= seq![text[0]] + tail.take(len - 1));
        assert(padded.skip(len) =~= padded_tail.skip(len - 1));
        assert(text.skip(len) =~= tail.skip(len - 1));
    }
}

/// Lexing reads the text from the front: white space is passed over, a
/// parenthesis is a token of its own, and any other character starts a word
/// that runs up to the next white space or parenthesis.
pub proof fn lemma_lex_front(text: Seq<char>)
    requires
        text.len() > 0,
    ensures
        lex(text) == if white_space(text[0]) {
            lex(text.drop_first())
        } else if is_paren(text[0]) {
            seq![classify(seq![text[0]])] + lex(text.drop_first())
        } else {
            seq![classify(text.take(run_len(text) as int))] + lex(
                text.skip(run_len(text) as int),
            )
        },
{
    let tail = text.drop_first();
    let padded = pad_parens(text);
    let token_of = |word: Seq<char>| classify(word);
    if white_space(text[0]) {
        assert(padded.drop_first() =~= pad_parens(tail));
    } else if is_paren(text[0]) {
        let behind = padded.drop_first();
        assert(behind =~= seq![text[0], ' '] + pad_parens(tail));
        assert(behind.drop_first() =~= seq![' '] + pad_parens(tail));
        assert(word_len(behind.drop_first()) == 0);
        assert(word_len(behind) == 1);
        assert(behind.take(1) =~= seq![text[0]]);
        assert(behind.skip(1) =~= seq![' '] + pad_parens(tail));
        assert(behind.skip(1).drop_first() =~= pad_parens(tail));
        assert(split_words(behind.skip(1)) == split_words(pad_parens(tail)));
        assert(split_words(behind) == seq![behind.take(1)] + split_words(behind.skip(1)));
        assert(padded[0] == ' ');
        assert(split_words(padded) == split_words(behind));
        assert((seq![seq![text[0]]] + split_words(pad_parens(tail))).map_values(token_of)
            =~= seq![classify(seq![text[0]])] + lex(tail));
    } else {
        lemma_run_is_word(text);
        let len = run_len(text) as int;
        let word = text.take(len);
        let rest = text.skip(len);
        assert(split_words(padded) == seq![word] + split_words(pad_parens(rest)));
        assert((seq![word] + split_words(pad_parens(rest))).map_values(token_of) =~= seq![
            classify(word),
        ] + lex(rest));
    }
}

/// Tells whether `c` separates words.
pub fn is_whitespace(c: char) -> (separates: bool)
    ensures
        separates == white_space(c),
{
    ('\u{9}' <= c && c <= '\u{D}') || c == ' ' || c == '\u{85}' || c == '\u{A0}' || c
        == '\u{1680}' || ('\u{2000}' <= c && c <= '\u{200A}') || c == '\u{2028}' || c
        == '\u{2029}' || c == '\u{202F}' || c == '\u{205F}' || c == '\u{3000}'
}

/// The characters of `text`, in order.
fn collect_chars(text: &str) -> (chars: Vec<char>)
    ensures
        chars@ == text@,
{
    broadcast use vstd::string::axiom_spec_iter;

    let mut chars: Vec<char> = Vec::new();
    for c in it: text.chars()
        invariant
            it.seq() == text@,
            chars@ == text@.take(it.index()),
    {
        assert(text@.take(it.index()).push(c) =~= text@.take(it.index() + 1));
        chars.push(c);
    }
    assert(text@.take(text@.len() as int) =~= text@);
    chars
}

/// Reads a word as an unsigned decimal literal of 32 signed bits.
fn parse_integer(word: &[char]) -> (value: Option<i32>)
    ensures
        value == integer_of(word@),
{
    if word.len() == 0 {
        return None;
    }
    let mut value: i32 = 0;
    let mut i: usize = 0;
    while i < word.len()
        invariant
            i <= word.len(),
            all_digits(word@.take(i as int)),
            value == decimal_value(word@.take(i as int)),
        decreases word.len() - i,
    {
        let c = word[i];
        if !('0' <= c && c <= '9') {
            assert(!is_digit(word@[i as int]));
            return None;
        }
        let digit: i32 = (c as u32 - '0' as u32) as i32;
        let ghost longer = word@.take(i + 1);
        proof {
            assert(longer.drop_last() =~= word@.take(i as int));
            assert(longer.last() == c);
            assert(digit == digit_value(c));
            assert forall|k: int| 0 <= k < longer.len() implies is_digit(#[trigger] longer[k]) by {
                if k < i {
                    assert(longer[k] == word@.take(i as int)[k]);
                }
            }
            if all_digits(word@) {
                lemma_decimal_prefix(word@, i as int);
                lemma_decimal_prefix(word@, i + 1);
            }
        }
        let next = match value.checked_mul(10) {
            Some(tens) => tens.checked_add(digit),
            None => None,
        };
        match next {
            Some(sum) => {
                value = sum;
            },
            None => {
                return None;
            },
        }
        i = i + 1;
    }
    assert(word@.take(i as int) =~= word@);
    Some(value)
}

/// Reads a word as an operator.
fn operator_word(word: &[char]) -> (token: Token)
    ensures
        token == operator_token(word@),
{
    if word.len() == 1 && word[0] == '+' {
        Token::Operator(Operator::Add)
    } else {
        Token::Unrecognized
    }
}

/// Reads a word as a token.
fn classify_word(word: &[char]) -> (token: Token)
    ensures
        token == classify(word@),
{
    if word.len() == 0 {
        return Token::Unrecognized;
    }
    let first = word[0];
    if first == '(' {
        Token::LeftParen
    } else if first == ')' {
        Token::RightParen
    } else if first == '+' || first == '-' || first == '*' || first == '/' {
        operator_word(word)
    } else if '0' <= first && first <= '9' {
        match parse_integer(word) {
            Some(value) => Token::Integer(value),
            None => Token::Unrecognized,
        }
    } else {
        Token::Unrecognized
    }
}

/// The end of the word that starts at `start`.
fn word_end(chars: &Vec<char>, start: usize) -> (end: usize)
    requires
        start < chars.len(),
        !white_space(chars@[start as int]),
        !is_paren(chars@[start as int]),
    ensures
        start < end <= chars.len(),
        end - start == run_len(chars@.skip(start as int)),
{
    let mut end: usize = start + 1;
    while end < chars.len() && !is_whitespace(chars[end]) && chars[end] != '(' && chars[end]
        != ')'
        invariant
            start < end <= chars.len(),
            forall|k: int|
                start <= k < end ==> !white_space(#[trigger] chars@[k]) && !is_paren(chars@[k]),
        decreases chars.len() - end,
    {
        end = end + 1;
    }
    proof {
        let text = chars@.skip(start as int);
        assert forall|i: int| 0 <= i < end - start implies !white_space(#[trigger] text[i])
            && !is_paren(text[i]) by {
            assert(text[i] == chars@[start + i]);
        }
        lemma_run_len_is(text, end - start);
    }
    end
}

/// Splits `st` into tokens.
///
/// Every parenthesis is a token of its own. What stands between white
/// space and parentheses is a word, and each word gives one token, decided
/// by its first character as [`classify`] says. Nothing is rejected: a word
/// that is neither an operator nor an integer becomes
/// [`Token::Unrecognized`].
pub fn tokenize(st: &str) -> (tokens: Vec<Token>)
    ensures
        tokens@ == lex(st@),
{
    let chars = collect_chars(st);
    let mut tokens: Vec<Token> = Vec::new();
    let mut i: usize = 0;
    assert(chars@.skip(0) =~= chars@);
    while i < chars.len()
        invariant
            chars@ == st@,
            i <= chars.len(),
            tokens@ + lex(chars@.skip(i as int)) == lex(chars@),
        decreases chars.len() - i,
    {
        let ghost rest = chars@.skip(i as int);
        proof {
            lemma_lex_front(rest);
            assert(rest.drop_first() =~= chars@.skip(i + 1));
        }
        let c = chars[i];
        if is_whitespace(c) {
            i = i + 1;
        } else {
            let end: usize = if c == '(' || c == ')' {
                i + 1
            } else {
                word_end(&chars, i)
            };
            let word = vstd::slice::slice_subrange(chars.as_slice(), i, end);
            proof {
                assert(word@ =~= rest.take(end - i));
                assert(rest.take(1) =~= seq![rest[0]]);
                assert(rest.skip(end - i) =~= chars@.skip(end as int));
                assert(tokens@.push(classify(word@)) + lex(chars@.skip(end as int)) =~= tokens@
                    + (seq![classify(word@)] + lex(chars@.skip(end as int))));
            }
            tokens.push(classify_word(word));
            i = end;
        }
    }
    assert(lex(chars@.skip(i as int)) =~= Seq::<Token>::empty()) by {
        assert(chars@.skip(i as int) =~= Seq::<char>::empty());
        assert(pad_parens(Seq::<char>::empty()) =~= Seq::<char>::empty());
    }
    assert(tokens@ + Seq::<Token>::empty() =~= tokens@);
    tokens
}

/// Reads `st` as an operator: `+` is addition, and every other word,
/// the other arithmetic symbols among them, is unrecognized.
pub fn tokenize_operator(st: &str) -> (token: Token)
    ensures
        token == operator_token(st@),
{
    let chars = collect_chars(st);
    operator_word(chars.as_slice())
}

} // verus!
