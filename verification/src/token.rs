//! Query tokens: what one word typed by the user asks the resolver to do.
//!
//! A token is classified once, by its leading characters, after any trailing
//! `/` is taken off: a leading `/` resets the path to a root, a leading `..`
//! climbs towards the root, a leading `%` searches the whole tree below, and
//! anything else names a directory one level down.

use vstd::prelude::*;

use crate::chars::decode;

verus! {

/// One query token, classified.
#[derive(Debug, PartialEq, Eq)]
pub enum Token {
    /// Replace the working path with this literal path.
    Root(String),
    /// Pop this many names off the working path; one where no count is given.
    AncestorPop(Option<u64>),
    /// Climb to the first name of the working path that this query matches.
    AncestorSearch(String),
    /// Descend to the nearest directory below whose name this query matches.
    Recursive(String),
    /// Descend one level, to a directory whose name this query matches.
    Plain(String),
}

/// What a token says, with its strings taken as character sequences.
pub enum TokenView {
    Root(Seq<char>),
    AncestorPop(Option<u64>),
    AncestorSearch(Seq<char>),
    Recursive(Seq<char>),
    Plain(Seq<char>),
}

impl View for Token {
    type V = TokenView;

    open spec fn view(&self) -> TokenView {
        match self {
            Token::Root(s) => TokenView::Root(s@),
            Token::AncestorPop(n) => TokenView::AncestorPop(*n),
            Token::AncestorSearch(s) => TokenView::AncestorSearch(s@),
            Token::Recursive(s) => TokenView::Recursive(s@),
            Token::Plain(s) => TokenView::Plain(s@),
        }
    }
}

/// The views of a sequence of tokens, in order.
pub open spec fn token_views(tokens: Seq<Token>) -> Seq<TokenView> {
    Seq::new(tokens.len(), |i: int| tokens[i]@)
}

/// `raw` without its trailing `/` characters.
pub open spec fn trimmed(raw: Seq<char>) -> Seq<char>
    decreases raw.len(),
{
    if raw.len() > 0 && raw.last() == '/' {
        trimmed(raw.drop_last())
    } else {
        raw
    }
}

/// Whether `c` is one of the ten decimal digits.
pub open spec fn is_digit(c: char) -> bool {
    '0' <= c <= '9'
}

/// Whether `s` consists of decimal digits only.
pub open spec fn all_digits(s: Seq<char>) -> bool {
    forall|i: int| 0 <= i < s.len() ==> is_digit(#[trigger] s[i])
}

/// The value of a decimal digit; zero for any other character.
pub open spec fn digit_value(c: char) -> nat {
    if is_digit(c) {
        (c as int - '0' as int) as nat
    } else {
        0
    }
}

/// The number that the decimal digits of `s` write; zero for no digits.
pub open spec fn decimal(s: Seq<char>) -> nat
    decreases s.len(),
{
    if s.len() == 0 {
        0
    } else {
        10 * decimal(s.drop_last()) + digit_value(s.last())
    }
}

/// The count that `s` writes: an optional `+`, then one or more decimal
/// digits whose number fits in 64 bits. Anything else writes no count.
pub open spec fn count_of(s: Seq<char>) -> Option<u64> {
    let digits = if s.len() > 0 && s[0] == '+' {
        s.skip(1)
    } else {
        s
    };
    if digits.len() > 0 && all_digits(digits) && decimal(digits) <= u64::MAX {
        Some(decimal(digits) as u64)
    } else {
        None
    }
}

/// The token that `raw` writes. A leading `/` is looked for before the
/// trailing `/` characters are taken off, everything else after.
pub open spec fn token_of(raw: Seq<char>) -> TokenView {
    let word = trimmed(raw);
    if raw.len() > 0 && raw[0] == '/' {
        TokenView::Root(word)
    } else if word.len() >= 2 && word[0] == '.' && word[1] == '.' {
        let rest = word.skip(2);
        if rest.len() == 0 {
            TokenView::AncestorPop(None)
        } else {
            match count_of(rest) {
                Some(n) => TokenView::AncestorPop(Some(n)),
                None => TokenView::AncestorSearch(rest),
            }
        }
    } else if word.len() >= 1 && word[0] == '%' {
        TokenView::Recursive(word.skip(1))
    } else {
        TokenView::Plain(word)
    }
}

/// A number only grows as digits are appended to it.
proof fn lemma_decimal_grows(s: Seq<char>, n: int)
    requires
        0 <= n <= s.len(),
    ensures
        decimal(s.take(n)) <= decimal(s),
    decreases s.len() - n,
{
    if n < s.len() {
        lemma_decimal_grows(s, n + 1);
        assert(s.take(n + 1).drop_last() == s.take(n));
        assert(decimal(s.take(n + 1)) == 10 * decimal(s.take(n)) + digit_value(
            s.take(n + 1).last(),
        ));
    } else {
        assert(s.take(n) == s);
    }
}

/// Reads the count that the characters from `from` up to `to` write.
fn parse_count(chars: &[char], from: usize, to: usize) -> (r: Option<u64>)
    requires
        from <= to <= chars.len(),
    ensures
        r == count_of(chars@.subrange(from as int, to as int)),
{
    let ghost s = chars@.subrange(from as int, to as int);
    let mut at = from;
    if at < to && chars[at] == '+' {
        at = at + 1;
    }
    let ghost digits = chars@.subrange(at as int, to as int);
    assert(digits == if s.len() > 0 && s[0] == '+' {
        s.skip(1)
    } else {
        s
    });
    if at == to {
        return None;
    }
    let start = at;
    let mut value: u64 = 0;
    while at < to
        invariant
            start <= at <= to <= chars.len(),
            s == chars@.subrange(from as int, to as int),
            digits == chars@.subrange(start as int, to as int),
            digits == if s.len() > 0 && s[0] == '+' {
                s.skip(1)
            } else {
                s
            },
            all_digits(digits.take(at - start)),
            value == decimal(digits.take(at - start)),
        decreases to - at,
    {
        let c = chars[at];
        assert(c == digits[at - start]);
        if !('0' <= c && c <= '9') {
            assert(!is_digit(digits[at - start]));
            return None;
        }
        let digit = (c as u32 - '0' as u32) as u64;
        let ghost seen = digits.take(at - start + 1);
        assert(seen.drop_last() == digits.take(at - start));
        assert(seen.last() == c);
        assert(decimal(seen) == 10 * value + digit);
        proof {
            lemma_decimal_grows(digits, at - start + 1);
        }
        let scaled = match value.checked_mul(10) {
            Some(v) => v,
            None => {
                return None;
            },
        };
        value = match scaled.checked_add(digit) {
            Some(v) => v,
            None => {
                return None;
            },
        };
        at = at + 1;
    }
    assert(digits.take(at - start) == digits);
    Some(value)
}

/// Classifies one raw token.
pub fn parse_token(raw: &str) -> (token: Token)
    ensures
        token@ == token_of(raw@),
{
    let chars = decode(raw);
    let mut end = chars.len();
    assert(raw@.take(end as int) == raw@);
    while end > 0 && chars[end - 1] == '/'
        invariant
            end <= chars.len(),
            chars@ == raw@,
            trimmed(raw@) == trimmed(raw@.take(end as int)),
        decreases end,
    {
        assert(raw@.take(end as int).drop_last() == raw@.take(end - 1));
        end = end - 1;
    }
    let ghost word = raw@.take(end as int);
    assert(trimmed(raw@) == word);
    if chars.len() > 0 && chars[0] == '/' {
        Token::Root(raw.substring_char(0, end).to_owned())
    } else if end >= 2 && chars[0] == '.' && chars[1] == '.' {
        if end == 2 {
            Token::AncestorPop(None)
        } else {
            assert(chars@.subrange(2, end as int) == word.skip(2));
            match parse_count(chars.as_slice(), 2, end) {
                Some(n) => Token::AncestorPop(Some(n)),
                None => Token::AncestorSearch(raw.substring_char(2, end).to_owned()),
            }
        }
    } else if end >= 1 && chars[0] == '%' {
        assert(raw@.subrange(1, end as int) == word.skip(1));
        Token::Recursive(raw.substring_char(1, end).to_owned())
    } else {
        assert(raw@.subrange(0, end as int) == word);
        Token::Plain(raw.substring_char(0, end).to_owned())
    }
}

/// Classifies each raw token, in order.
pub fn parse_tokens(raw: &[String]) -> (tokens: Vec<Token>)
    ensures
        tokens@.len() == raw@.len(),
        forall|i: int| 0 <= i < raw@.len() ==> (#[trigger] tokens@[i])@ == token_of(raw@[i]@),
{
    let mut tokens: Vec<Token> = Vec::new();
    for i in 0..raw.len()
        invariant
            tokens@.len() == i,
            forall|k: int| 0 <= k < i ==> (#[trigger] tokens@[k])@ == token_of(raw@[k]@),
    {
        tokens.push(parse_token(raw[i].as_str()));
    }
    tokens
}

} // verus!
