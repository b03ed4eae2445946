//! Validation of the raw input; a valid input becomes a [`Lexer`].
use vstd::prelude::*;

use crate::errors::Error;
use crate::lexer::Lexer;
use crate::parser::is_digit;

verus! {

broadcast use vstd::string::group_string_axioms;

/// The characters of `s`, in order.
fn chars_of(s: &str) -> (v: Vec<char>)
    ensures
        v@ == s@,
{
    let mut v: Vec<char> = Vec::new();
    for c in it: s.chars()
        invariant
            v@ == it.seq().take(it.index() as int),
            it.seq() == s@,
    {
        v.push(c);
    }
    v
}

/// Namespace of the input validation.
#[derive(Debug, Clone)]
pub struct Validation;

/// Whether `c` has the Unicode White_Space property: U+0009 to U+000D,
/// U+0020, U+0085, U+00A0, U+1680, U+2000 to U+200A, U+2028, U+2029, U+202F,
/// U+205F and U+3000.
pub open spec fn white_space(c: char) -> bool {
    ||| '\u{9}' <= c <= '\u{d}'
    ||| c == '\u{20}'
    ||| c == '\u{85}'
    ||| c == '\u{a0}'
    ||| c == '\u{1680}'
    ||| '\u{2000}' <= c <= '\u{200a}'
    ||| c == '\u{2028}'
    ||| c == '\u{2029}'
    ||| c == '\u{202f}'
    ||| c == '\u{205f}'
    ||| c == '\u{3000}'
}

/// What std's `char::is_numeric` returns for `c`: whether `c` is in one of
/// the Unicode general categories for numbers (Nd, Nl, No).
pub uninterp spec fn numeric(c: char) -> bool;

/// Whether `c` is numeric: among ASCII characters exactly the digits `0` to
/// `9`, and beyond ASCII, [`numeric`].
pub open spec fn numeric_char(c: char) -> bool {
    if c <= '\x7f' {
        is_digit(c)
    } else {
        numeric(c)
    }
}

/// Calls std's `char::is_whitespace`, which is true exactly of the
/// characters with the Unicode White_Space property.
#[verifier::external_body]
fn is_whitespace(c: char) -> (b: bool)
    ensures
        b == white_space(c),
{
    c.is_whitespace()
}

/// Calls std's `char::is_numeric`. The result is [`numeric`] of `c`; among
/// ASCII characters only the digits `0` to `9` are in a number category,
/// which the contract states. Nothing more is stated of other characters.
#[verifier::external_body]
fn is_numeric(c: char) -> (b: bool)
    ensures
        b == numeric(c),
        c <= '\x7f' ==> (b <==> ('0' <= c && c <= '9')),
{
    c.is_numeric()
}

/// `s` holds an opening parenthesis directly followed by a closing one.
pub open spec fn has_empty_parens(s: Seq<char>) -> bool {
    exists|i: int| 0 <= i && i + 1 < s.len() && #[trigger] empty_parens_at(s, i)
}

/// `s[i]` is `(` and `s[i + 1]` is `)`.
pub open spec fn empty_parens_at(s: Seq<char>, i: int) -> bool {
    s[i] == '(' && s[i + 1] == ')'
}

/// The characters of `s` that are not white space, in order.
pub open spec fn without_whitespace(s: Seq<char>) -> Seq<char> {
    s.filter(|c: char| !white_space(c))
}

/// One of the symbols `+ - * / .`.
pub open spec fn is_valid_symbol(c: char) -> bool {
    c == '+' || c == '-' || c == '*' || c == '/' || c == '.'
}

/// A character that may appear in an expression, `is_numeric` being whether
/// it is numeric.
pub open spec fn allowed_char(c: char, is_numeric: bool) -> bool {
    is_numeric || is_valid_symbol(c) || c == '(' || c == ')'
}

/// Two adjacent characters that no expression may hold: two operators other
/// than a minus after an operator, an operator next to a decimal point, or a
/// repeated `+`, `*`, `/` or `.`.
pub open spec fn forbidden_pair(a: char, b: char) -> bool {
    ||| a == '+' && (b == '*' || b == '/' || b == '.')
    ||| a == '*' && (b == '+' || b == '/' || b == '.')
    ||| a == '/' && (b == '*' || b == '+' || b == '.')
    ||| a == '-' && (b == '*' || b == '/' || b == '+' || b == '.')
    ||| a == '.' && (b == '-' || b == '+' || b == '/' || b == '*')
    ||| a == b && (b == '+' || b == '*' || b == '/' || b == '.')
}

/// The number of opening parentheses in `s` minus the number of closing ones.
pub open spec fn paren_depth(s: Seq<char>) -> int
    decreases s.len(),
{
    if s.len() == 0 {
        0
    } else {
        paren_depth(s.drop_last()) + if s.last() == '(' {
            1int
        } else if s.last() == ')' {
            -1int
        } else {
            0int
        }
    }
}

/// Some prefix of `s` closes more parentheses than it opens.
pub open spec fn closes_unopened(s: Seq<char>) -> bool {
    exists|k: int| 0 < k <= s.len() && #[trigger] paren_depth(s.take(k)) < 0
}

/// Whether the parentheses of `s` are balanced, and if not, which error.
pub open spec fn parentheses_spec(s: Seq<char>) -> Result<(), Error> {
    if closes_unopened(s) {
        Err(Error::UnmatchedCloseParen)
    } else if paren_depth(s) != 0 {
        Err(Error::UnmatchedOpenParen)
    } else {
        Ok(())
    }
}

/// The checks on the characters of an input once white space is removed,
/// `flags[i]` being whether `cs[i]` is numeric.
pub open spec fn chars_spec(cs: Seq<char>, flags: Seq<bool>) -> Result<(), Error> {
    if cs.len() == 0 {
        Err(Error::EmptyInput)
    } else if exists|i: int| 0 <= i < cs.len() && !allowed_char(#[trigger] cs[i], flags[i]) {
        Err(Error::InvalidCharacter)
    } else if is_valid_symbol(cs[0]) || is_valid_symbol(cs.last()) {
        Err(Error::NotValidData)
    } else if parentheses_spec(cs) is Err {
        parentheses_spec(cs)
    } else if exists|i: int| 0 <= i && i + 1 < cs.len() && #[trigger] forbidden_pair(cs[i], cs[i + 1]) {
        Err(Error::NotValidData)
    } else {
        Ok(())
    }
}

/// The outcome of validating the raw input `s`: the characters that the
/// lexer gets, or the error.
pub open spec fn pre_validate_spec(s: Seq<char>) -> Result<Seq<char>, Error> {
    if has_empty_parens(s) {
        Err(Error::EmptyParens)
    } else {
        let cs = without_whitespace(s);
        match chars_spec(cs, cs.map_values(|c: char| numeric_char(c))) {
            Ok(_) => Ok(cs),
            Err(e) => Err(e),
        }
    }
}

/// Whether `a` followed by `b` is a pair that no expression may hold.
fn is_forbidden_pair(a: char, b: char) -> (res: bool)
    ensures
        res == forbidden_pair(a, b),
{
    match (a, b) {
        ('+', '*') | ('+', '/') | ('*', '+') | ('*', '/') | ('/', '*') | ('/', '+') | ('-', '*')
        | ('-', '/') | ('-', '+') => true,
        ('-', '.') | ('.', '-') | ('.', '+') | ('+', '.') | ('/', '.') | ('.', '/') | ('.', '*')
        | ('*', '.') => true,
        (a, b) => a == b && (b == '+' || b == '*' || b == '/' || b == '.'),
    }
}

/// Whether `c` is one of the symbols `+ - * / .`.
fn valid_symbol(c: char) -> (res: bool)
    ensures
        res == is_valid_symbol(c),
{
    c == '+' || c == '-' || c == '*' || c == '/' || c == '.'
}

impl Validation {
    /// Validates a string through several stages and returns a [`Lexer`] on
    /// success, holding the characters of the input that are not white space.
    ///
    /// # Errors
    ///
    /// Returns [`Error::EmptyParens`] if the input contains `()`.
    /// Returns [`Error::EmptyInput`] if the input holds only white space.
    /// Returns [`Error::InvalidCharacter`] if the input contains a character
    /// that is not numeric, an operator, a decimal point or a parenthesis.
    /// Returns [`Error::NotValidData`] if the input starts or ends with an
    /// operator or a decimal point, or holds a forbidden pair of symbols.
    /// Returns [`Error::UnmatchedOpenParen`] if an opening parenthesis has no
    /// matching closing parenthesis.
    /// Returns [`Error::UnmatchedCloseParen`] if a closing parenthesis has no
    /// matching opening parenthesis.
    pub fn pre_validate(arguments: &str) -> (res: Result<Lexer, Error>)
        ensures
            match res {
                Ok(l) => pre_validate_spec(arguments@) == Ok::<Seq<char>, Error>(l.validate_input@)
                    && l.position == 0,
                Err(e) => pre_validate_spec(arguments@) == Err::<Seq<char>, Error>(e),
            },
    {
        let raw = chars_of(arguments);
        let len = raw.len();
        let mut i: usize = 0;
        while i + 1 < len
            invariant
                raw@ == arguments@,
                len == raw@.len(),
                i == 0 || i < len,
                forall|j: int| 0 <= j < i && j + 1 < len ==> !#[trigger] empty_parens_at(raw@, j),
            decreases len - i,
        {
            if raw[i] == '(' && raw[i + 1] == ')' {
                assert(empty_parens_at(raw@, i as int));
                return Err(Error::EmptyParens);
            }
            i += 1;
        }
        assert(!has_empty_parens(raw@));
        let mut input_to_char: Vec<char> = Vec::new();
        let mut k: usize = 0;
        while k < len
            invariant
                raw@ == arguments@,
                !has_empty_parens(raw@),
                len == raw@.len(),
                k <= len,
                input_to_char@ == without_whitespace(raw@.take(k as int)),
            decreases len - k,
        {
            let c = raw[k];
            proof {
                reveal(Seq::filter);
                assert(raw@.take(k + 1).drop_last() =~= raw@.take(k as int));
            }
            if !is_whitespace(c) {
                input_to_char.push(c);
            }
            k += 1;
        }
        assert(raw@.take(len as int) =~= raw@);
        let mut flags: Vec<bool> = Vec::new();
        let mut m: usize = 0;
        while m < input_to_char.len()
            invariant
                m <= input_to_char@.len(),
                flags@ == input_to_char@.take(m as int).map_values(|c: char| numeric_char(c)),
            decreases input_to_char@.len() - m,
        {
            let b = is_numeric(input_to_char[m]);
            flags.push(b);
            assert(input_to_char@.take(m + 1).map_values(|c: char| numeric_char(c)) =~= input_to_char@.take(m as int).map_values(|c: char| numeric_char(c)).push(b));
            m += 1;
        }
        assert(input_to_char@.take(m as int) =~= input_to_char@);
        Validation::validate_chars(input_to_char, &flags)
    }

    /// Checks the characters of an input once white space is removed,
    /// `numeric[i]` telling whether `input_to_char[i]` is numeric, and returns
    /// a [`Lexer`] for them where they form a valid expression.
    ///
    /// # Errors
    ///
    /// As [`Validation::pre_validate`], but for [`Error::EmptyParens`].
    pub fn validate_chars(input_to_char: Vec<char>, numeric: &Vec<bool>) -> (res: Result<Lexer, Error>)
        requires
            numeric@.len() == input_to_char@.len(),
        ensures
            match res {
                Ok(l) => chars_spec(input_to_char@, numeric@) == Ok::<(), Error>(())
                    && l.validate_input@ == input_to_char@ && l.position == 0,
                Err(e) => chars_spec(input_to_char@, numeric@) == Err::<(), Error>(e),
            },
    {
        let len = input_to_char.len();
        if len == 0 {
            return Err(Error::EmptyInput);
        }
        let mut i: usize = 0;
        while i < len
            invariant
                len == input_to_char@.len(),
                len == numeric@.len(),
                forall|j: int| 0 <= j < i ==> allowed_char(#[trigger] input_to_char@[j], numeric@[j]),
            decreases len - i,
        {
            let c = input_to_char[i];
            if !numeric[i] && !valid_symbol(c) && c != '(' && c != ')' {
                assert(!allowed_char(input_to_char@[i as int], numeric@[i as int]));
                return Err(Error::InvalidCharacter);
            }
            i += 1;
        }
        if valid_symbol(input_to_char[0]) || valid_symbol(input_to_char[len - 1]) {
            return Err(Error::NotValidData);
        }
        match Validation::valid_parentheses(input_to_char.as_slice()) {
            Ok(()) => {},
            Err(e) => {
                return Err(e);
            },
        }
        let mut w: usize = 0;
        while w + 1 < len
            invariant
                len == input_to_char@.len(),
                len == numeric@.len(),
                len > 0,
                w < len,
                !exists|j: int| 0 <= j < len && !allowed_char(#[trigger] input_to_char@[j], numeric@[j]),
                !(is_valid_symbol(input_to_char@[0]) || is_valid_symbol(input_to_char@[len - 1])),
                parentheses_spec(input_to_char@) is Ok,
                forall|j: int| 0 <= j < w && j + 1 < len ==> !forbidden_pair(input_to_char@[j], #[trigger] input_to_char@[j + 1]),
            decreases len - w,
        {
            if is_forbidden_pair(input_to_char[w], input_to_char[w + 1]) {
                return Err(Error::NotValidData);
            }
            w += 1;
        }
        assert(!exists|j: int| 0 <= j && j + 1 < len && #[trigger] forbidden_pair(input_to_char@[j], input_to_char@[j + 1])) by {
            assert forall|j: int| 0 <= j && j + 1 < len implies !#[trigger] forbidden_pair(input_to_char@[j], input_to_char@[j + 1]) by {
                assert(!forbidden_pair(input_to_char@[j], input_to_char@[j + 1]));
            }
        }
        Ok(Lexer { validate_input: input_to_char, position: 0 })
    }

    /// Determines whether the parentheses of `input` are balanced.
    ///
    /// # Errors
    ///
    /// Returns [`Error::UnmatchedCloseParen`] if a closing parenthesis has no
    /// matching opening parenthesis before it.
    /// Returns [`Error::UnmatchedOpenParen`] otherwise, if an opening
    /// parenthesis has no matching closing parenthesis.
    pub fn valid_parentheses(input: &[char]) -> (res: Result<(), Error>)
        ensures
            res == parentheses_spec(input@),
    {
        let mut stack: Vec<char> = Vec::new();
        let len = input.len();
        let mut i: usize = 0;
        while i < len
            invariant
                len == input@.len(),
                i <= len,
                stack@.len() == paren_depth(input@.take(i as int)),
                forall|k: int| 0 < k <= i ==> #[trigger] paren_depth(input@.take(k)) >= 0,
            decreases len - i,
        {
            let c = input[i];
            assert(input@.take(i + 1).drop_last() =~= input@.take(i as int));
            if c == '(' {
                stack.push('(');
            } else if c == ')' {
                if stack.pop().is_none() {
                    assert(paren_depth(input@.take(i + 1)) < 0);
                    return Err(Error::UnmatchedCloseParen);
                }
            }
            i += 1;
        }
        assert(input@.take(len as int) =~= input@);
        if stack.len() == 0 {
            Ok(())
        } else {
            Err(Error::UnmatchedOpenParen)
        }
    }
}

/// What a validated input is: its characters, once white space is removed,
/// are not empty; none is white space; each is numeric, an operator, a
/// decimal point or a parenthesis; it neither starts nor ends with an
/// operator or a decimal point; every prefix closes no more parentheses than
/// it opens and the whole opens as many as it closes; no two adjacent
/// characters form a forbidden pair; and the raw input holds no `()`.
pub proof fn lemma_validated_input(s: Seq<char>)
    requires
        pre_validate_spec(s) is Ok,
    ensures
        ({
            let cs = pre_validate_spec(s)->Ok_0;
            &&& !has_empty_parens(s)
            &&& cs.len() > 0
            &&& forall|i: int|
                0 <= i < cs.len() ==> !white_space(#[trigger] cs[i]) && allowed_char(
                    cs[i],
                    numeric_char(cs[i]),
                )
            &&& !is_valid_symbol(cs[0]) && !is_valid_symbol(cs.last())
            &&& paren_depth(cs) == 0
            &&& forall|k: int| 0 < k <= cs.len() ==> #[trigger] paren_depth(cs.take(k)) >= 0
            &&& forall|i: int|
                0 <= i && i + 1 < cs.len() ==> !#[trigger] forbidden_pair(cs[i], cs[i + 1])
        }),
{
    let cs = without_whitespace(s);
    let flags = cs.map_values(|c: char| numeric_char(c));
    assert(pre_validate_spec(s)->Ok_0 == cs);
    assert(chars_spec(cs, flags) is Ok);
    assert forall|i: int| 0 <= i < cs.len() implies !white_space(#[trigger] cs[i]) && allowed_char(
        cs[i],
        numeric_char(cs[i]),
    ) by {
        s.lemma_filter_pred(|c: char| !white_space(c), i);
        assert(flags[i] == numeric_char(cs[i]));
    }
}

/// How many times `c` occurs in `s`.
pub open spec fn occurrences(s: Seq<char>, c: char) -> nat {
    s.filter(|x: char| x == c).len()
}

/// Some prefix of `s` holds more `)` than `(`.
pub open spec fn closes_early(s: Seq<char>) -> bool {
    exists|k: int|
        0 <= k <= s.len() && occurrences(#[trigger] s.take(k), ')') > occurrences(s.take(k), '(')
}

/// The parentheses of `s` are balanced: no prefix holds more `)` than `(`,
/// and the whole holds as many of each.
pub open spec fn balanced(s: Seq<char>) -> bool {
    &&& !closes_early(s)
    &&& occurrences(s, '(') == occurrences(s, ')')
}

proof fn lemma_occurrences_last(s: Seq<char>, c: char)
    requires
        s.len() > 0,
    ensures
        occurrences(s, c) == occurrences(s.drop_last(), c) + if s.last() == c {
            1int
        } else {
            0int
        },
{
    reveal(Seq::filter);
}

proof fn lemma_depth_counts(s: Seq<char>)
    ensures
        paren_depth(s) == occurrences(s, '(') - occurrences(s, ')'),
    decreases s.len(),
{
    if s.len() == 0 {
        reveal(Seq::filter);
    } else {
        lemma_depth_counts(s.drop_last());
        lemma_occurrences_last(s, '(');
        lemma_occurrences_last(s, ')');
    }
}

/// `valid_parentheses` decides by counting, at any depth of nesting: it
/// accepts exactly the balanced inputs; it reports an unmatched `)` exactly
/// where some prefix holds more `)` than `(`; and it reports an unmatched
/// `(` exactly where no prefix does so but the whole holds more `(` than `)`.
pub proof fn lemma_parentheses_checked_by_counting(s: Seq<char>)
    ensures
        parentheses_spec(s) is Ok <==> balanced(s),
        parentheses_spec(s) == Err::<(), Error>(Error::UnmatchedCloseParen) <==> closes_early(s),
        parentheses_spec(s) == Err::<(), Error>(Error::UnmatchedOpenParen) <==> (!closes_early(s)
            && occurrences(s, ')') < occurrences(s, '(')),
{
    assert forall|k: int| 0 <= k <= s.len() implies paren_depth(#[trigger] s.take(k))
        == occurrences(s.take(k), '(') - occurrences(s.take(k), ')') by {
        lemma_depth_counts(s.take(k));
    }
    lemma_depth_counts(s);
    if closes_unopened(s) {
        let k = choose|k: int| 0 < k <= s.len() && #[trigger] paren_depth(s.take(k)) < 0;
        assert(occurrences(s.take(k), ')') > occurrences(s.take(k), '('));
    }
    if closes_early(s) {
        let k = choose|k: int|
            0 <= k <= s.len() && occurrences(#[trigger] s.take(k), ')') > occurrences(
                s.take(k),
                '(',
            );
        assert(paren_depth(s.take(k)) < 0);
        if k == 0 {
            assert(s.take(0) =~= Seq::<char>::empty());
            reveal(Seq::filter);
        }
    }
    assert(s.take(s.len() as int) =~= s);
}

/// One of `+ - * /` or the decimal point.
pub open spec fn operator_or_point(c: char) -> bool {
    c == '+' || c == '-' || c == '*' || c == '/' || c == '.'
}

/// The adjacent pairs that an expression may not hold: `+* +/ *+ */ /* /+
/// -* -/ -+ -. .- .+ +. /. ./ .* *.` and a repeated `+`, `*`, `/` or `.`.
pub open spec fn listed_pair(a: char, b: char) -> bool {
    ||| a == '+' && b == '*'
    ||| a == '+' && b == '/'
    ||| a == '*' && b == '+'
    ||| a == '*' && b == '/'
    ||| a == '/' && b == '*'
    ||| a == '/' && b == '+'
    ||| a == '-' && b == '*'
    ||| a == '-' && b == '/'
    ||| a == '-' && b == '+'
    ||| a == '-' && b == '.'
    ||| a == '.' && b == '-'
    ||| a == '.' && b == '+'
    ||| a == '+' && b == '.'
    ||| a == '/' && b == '.'
    ||| a == '.' && b == '/'
    ||| a == '.' && b == '*'
    ||| a == '*' && b == '.'
    ||| a == '+' && b == '+'
    ||| a == '*' && b == '*'
    ||| a == '/' && b == '/'
    ||| a == '.' && b == '.'
}

/// `s[i]` is `(` and `s[i + 1]` is `)`.
pub open spec fn open_then_close_at(s: Seq<char>, i: int) -> bool {
    s[i] == '(' && s[i + 1] == ')'
}

/// `s` holds `(` directly followed by `)`.
pub open spec fn holds_open_then_close(s: Seq<char>) -> bool {
    exists|i: int| 0 <= i && i + 1 < s.len() && #[trigger] open_then_close_at(s, i)
}

/// Every character of `cs` is numeric, an operator, a decimal point or a
/// parenthesis.
pub open spec fn all_allowed(cs: Seq<char>) -> bool {
    forall|i: int|
        0 <= i < cs.len() ==> numeric_char(#[trigger] cs[i]) || operator_or_point(cs[i]) || cs[i]
            == '(' || cs[i] == ')'
}

/// `cs` starts or ends with an operator or a decimal point.
pub open spec fn bad_ends(cs: Seq<char>) -> bool {
    operator_or_point(cs[0]) || operator_or_point(cs.last())
}

/// Two adjacent characters of `cs` form one of the listed pairs.
pub open spec fn holds_listed_pair(cs: Seq<char>) -> bool {
    exists|i: int| 0 <= i && i + 1 < cs.len() && #[trigger] listed_pair(cs[i], cs[i + 1])
}

proof fn lemma_validation_parts(s: Seq<char>)
    ensures
        ({
            let cs = s.filter(|c: char| !white_space(c));
            let flags = cs.map_values(|c: char| numeric_char(c));
            &&& cs == without_whitespace(s)
            &&& has_empty_parens(s) <==> holds_open_then_close(s)
            &&& (exists|i: int| 0 <= i < cs.len() && !allowed_char(#[trigger] cs[i], flags[i]))
                <==> !all_allowed(cs)
            &&& (exists|i: int|
                0 <= i && i + 1 < cs.len() && #[trigger] forbidden_pair(cs[i], cs[i + 1]))
                <==> holds_listed_pair(cs)
            &&& cs.len() > 0 ==> ((is_valid_symbol(cs[0]) || is_valid_symbol(cs.last()))
                <==> bad_ends(cs))
        }),
{
    let cs = s.filter(|c: char| !white_space(c));
    let flags = cs.map_values(|c: char| numeric_char(c));
    if has_empty_parens(s) {
        let i = choose|i: int| 0 <= i && i + 1 < s.len() && #[trigger] empty_parens_at(s, i);
        assert(open_then_close_at(s, i));
    }
    if holds_open_then_close(s) {
        let i = choose|i: int| 0 <= i && i + 1 < s.len() && #[trigger] open_then_close_at(s, i);
        assert(empty_parens_at(s, i));
    }
    if exists|i: int| 0 <= i < cs.len() && !allowed_char(#[trigger] cs[i], flags[i]) {
        let i = choose|i: int| 0 <= i < cs.len() && !allowed_char(#[trigger] cs[i], flags[i]);
        assert(flags[i] == numeric_char(cs[i]));
    }
    if !all_allowed(cs) {
        let i = choose|i: int|
            !(0 <= i < cs.len() ==> numeric_char(#[trigger] cs[i]) || operator_or_point(cs[i])
                || cs[i] == '(' || cs[i] == ')');
        assert(flags[i] == numeric_char(cs[i]));
        assert(!allowed_char(cs[i], flags[i]));
    }
    if exists|i: int| 0 <= i && i + 1 < cs.len() && #[trigger] forbidden_pair(cs[i], cs[i + 1]) {
        let i = choose|i: int|
            0 <= i && i + 1 < cs.len() && #[trigger] forbidden_pair(cs[i], cs[i + 1]);
        assert(listed_pair(cs[i], cs[i + 1]));
    }
    if holds_listed_pair(cs) {
        let i = choose|i: int| 0 <= i && i + 1 < cs.len() && #[trigger] listed_pair(cs[i], cs[i + 1]);
        assert(forbidden_pair(cs[i], cs[i + 1]));
    }
}

/// The validation accepts exactly the inputs that hold no `()`, whose
/// characters other than white space are not empty, are each numeric, an
/// operator, a decimal point or a parenthesis, neither start nor end with an
/// operator or a decimal point, have balanced parentheses at any depth, and
/// hold none of the listed pairs; an accepted input gives the lexer its
/// characters other than white space.
pub proof fn lemma_validation_accepts_exactly(s: Seq<char>)
    ensures
        ({
            let cs = s.filter(|c: char| !white_space(c));
            &&& pre_validate_spec(s) is Ok <==> {
                &&& !holds_open_then_close(s)
                &&& cs.len() > 0
                &&& all_allowed(cs)
                &&& !bad_ends(cs)
                &&& balanced(cs)
                &&& !holds_listed_pair(cs)
            }
            &&& pre_validate_spec(s) is Ok ==> pre_validate_spec(s)->Ok_0 == cs
        }),
{
    let cs = s.filter(|c: char| !white_space(c));
    lemma_validation_parts(s);
    lemma_parentheses_checked_by_counting(cs);
}

/// Which error the validation gives: the checks come in this order, and each
/// error is reported exactly where the checks before it pass and its own
/// fails. `()` in the raw input gives [`Error::EmptyParens`]; no character
/// other than white space gives [`Error::EmptyInput`]; a character that is
/// not allowed gives [`Error::InvalidCharacter`]; an operator or a point at
/// either end gives [`Error::NotValidData`]; a prefix with more `)` than `(`
/// gives [`Error::UnmatchedCloseParen`]; otherwise more `(` than `)` gives
/// [`Error::UnmatchedOpenParen`]; and a listed pair gives
/// [`Error::NotValidData`].
pub proof fn lemma_validation_errors(s: Seq<char>)
    ensures
        ({
            let cs = s.filter(|c: char| !white_space(c));
            let parens_ok = !closes_early(cs) && occurrences(cs, ')') == occurrences(cs, '(');
            &&& pre_validate_spec(s) == Err::<Seq<char>, Error>(Error::EmptyParens)
                <==> holds_open_then_close(s)
            &&& pre_validate_spec(s) == Err::<Seq<char>, Error>(Error::EmptyInput) <==> (
            !holds_open_then_close(s) && cs.len() == 0)
            &&& pre_validate_spec(s) == Err::<Seq<char>, Error>(Error::InvalidCharacter) <==> (
            !holds_open_then_close(s) && cs.len() > 0 && !all_allowed(cs))
            &&& pre_validate_spec(s) == Err::<Seq<char>, Error>(Error::NotValidData) <==> (
            !holds_open_then_close(s) && cs.len() > 0 && all_allowed(cs) && (bad_ends(cs) || (
            parens_ok && holds_listed_pair(cs))))
            &&& pre_validate_spec(s) == Err::<Seq<char>, Error>(Error::UnmatchedCloseParen) <==> (
            !holds_open_then_close(s) && cs.len() > 0 && all_allowed(cs) && !bad_ends(cs)
                && closes_early(cs))
            &&& pre_validate_spec(s) == Err::<Seq<char>, Error>(Error::UnmatchedOpenParen) <==> (
            !holds_open_then_close(s) && cs.len() > 0 && all_allowed(cs) && !bad_ends(cs)
                && !closes_early(cs) && occurrences(cs, ')') < occurrences(cs, '('))
        }),
{
    let cs = s.filter(|c: char| !white_space(c));
    lemma_validation_parts(s);
    lemma_parentheses_checked_by_counting(cs);
}

} // verus!
