//! Token types and the lexer that turns validated input into tokens.
use vstd::prelude::*;

use crate::errors::Error;
use crate::parser::{
    digit_run, digit_values, digits_after_sign, is_digit, lemma_integer_numeral,
    lemma_parse_rendered, number_error, number_spec, render, sign_len, well_formed, Numeral,
    NumeralView, Parser,
};

verus! {

/// The type of a token.
#[derive(Debug, PartialEq, Clone)]
pub enum TokenType {
    /// A number, with the numeral it is written as.
    Number(Numeral),
    /// The operator `+`.
    Plus,
    /// The operator `-`.
    Minus,
    /// The operator `*`.
    Multiply,
    /// The operator `/`.
    Divide,
    /// An opening parenthesis `(`.
    OpenParen,
    /// A closing parenthesis `)`.
    CloseParen,
    /// Any other single character.
    EOF,
}

/// The mathematical model of a [`TokenType`].
#[verifier::ext_equal]
pub enum TokenKind {
    Number(NumeralView),
    Plus,
    Minus,
    Multiply,
    Divide,
    OpenParen,
    CloseParen,
    EOF,
}

impl View for TokenType {
    type V = TokenKind;

    open spec fn view(&self) -> TokenKind {
        match self {
            TokenType::Number(n) => TokenKind::Number(n@),
            TokenType::Plus => TokenKind::Plus,
            TokenType::Minus => TokenKind::Minus,
            TokenType::Multiply => TokenKind::Multiply,
            TokenType::Divide => TokenKind::Divide,
            TokenType::OpenParen => TokenKind::OpenParen,
            TokenType::CloseParen => TokenKind::CloseParen,
            TokenType::EOF => TokenKind::EOF,
        }
    }
}

/// A single lexical token: its type, its raw text and the index of its first
/// character in the input.
#[derive(Debug, PartialEq, Clone)]
pub struct Token {
    pub token_type: TokenType,
    pub lexeme: String,
    pub position: usize,
}

/// The mathematical model of a [`Token`].
#[verifier::ext_equal]
pub struct TokenView {
    pub kind: TokenKind,
    pub lexeme: Seq<char>,
    pub position: nat,
}

impl View for Token {
    type V = TokenView;

    open spec fn view(&self) -> TokenView {
        TokenView { kind: self.token_type@, lexeme: self.lexeme@, position: self.position as nat }
    }
}

/// The models of a sequence of tokens.
pub open spec fn tokens_view(ts: Seq<Token>) -> Seq<TokenView> {
    ts.map_values(|t: Token| t@)
}

/// Validated input and a current position.
pub struct Lexer {
    pub validate_input: Vec<char>,
    pub position: usize,
}

impl Default for Lexer {
    fn default() -> (l: Lexer)
        ensures
            l.validate_input@ == Seq::<char>::empty(),
            l.position == 0,
    {
        Lexer { validate_input: Vec::new(), position: 0 }
    }
}

/// A character after which a minus sign starts a negative number.
pub open spec fn precedes_unary_minus(c: char) -> bool {
    c == '+' || c == '-' || c == '*' || c == '/' || c == '('
}

/// The character at `i` is a minus sign that starts a number: it stands at
/// the start of the input or right after an operator or an opening
/// parenthesis.
pub open spec fn unary_minus_at(s: Seq<char>, i: int) -> bool {
    s[i] == '-' && (i == 0 || precedes_unary_minus(s[i - 1]))
}

/// The character at `i` belongs to a number: a digit, a decimal point or a
/// unary minus.
pub open spec fn number_char_at(s: Seq<char>, i: int) -> bool {
    is_digit(s[i]) || unary_minus_at(s, i) || s[i] == '.'
}

/// How many characters from `start` on belong to a number.
pub open spec fn run_len(s: Seq<char>, start: int) -> nat
    decreases s.len() - start,
{
    if 0 <= start < s.len() && number_char_at(s, start) {
        1 + run_len(s, start + 1)
    } else {
        0
    }
}

/// The type of the token made of the single character `c`, which does not
/// belong to a number.
pub open spec fn operator_kind(c: char) -> TokenKind {
    if c == '+' {
        TokenKind::Plus
    } else if c == '-' {
        TokenKind::Minus
    } else if c == '*' {
        TokenKind::Multiply
    } else if c == '/' {
        TokenKind::Divide
    } else if c == '(' {
        TokenKind::OpenParen
    } else if c == ')' {
        TokenKind::CloseParen
    } else {
        TokenKind::EOF
    }
}

/// The number token for `s[start..end]`, or the error that parsing it gives.
pub open spec fn number_token(s: Seq<char>, start: int, end: int) -> Result<TokenView, Error> {
    let cs = s.subrange(start, end);
    match number_spec(cs) {
        Ok(n) => Ok(TokenView { kind: TokenKind::Number(n), lexeme: cs, position: start as nat }),
        Err(e) => Err(e),
    }
}

/// The tokens `tokens` followed by the outcome `rest` of lexing the
/// remaining input.
pub open spec fn then_lex(tokens: Seq<TokenView>, rest: Result<Seq<TokenView>, Error>) -> Result<
    Seq<TokenView>,
    Error,
> {
    match rest {
        Ok(r) => Ok(tokens + r),
        Err(e) => Err(e),
    }
}

/// The outcome of lexing `s` from `start` on: the tokens, or the first
/// error met.
///
/// The input splits into maximal runs of number characters, each one number
/// token, and single other characters, each one token of its own.
pub open spec fn lex_from(s: Seq<char>, start: int) -> Result<Seq<TokenView>, Error>
    decreases s.len() - start,
{
    let end = start + run_len(s, start);
    let numbers: Result<Seq<TokenView>, Error> = if end > start {
        match number_token(s, start, end) {
            Ok(t) => Ok(seq![t]),
            Err(e) => Err(e),
        }
    } else {
        Ok(Seq::empty())
    };
    match numbers {
        Ok(nums) => {
            if 0 <= end < s.len() {
                let op = TokenView {
                    kind: operator_kind(s[end]),
                    lexeme: seq![s[end]],
                    position: end as nat,
                };
                then_lex(nums.push(op), lex_from(s, end + 1))
            } else {
                Ok(nums)
            }
        },
        Err(e) => Err(e),
    }
}

/// The outcome of lexing the whole of `s`.
pub open spec fn lex(s: Seq<char>) -> Result<Seq<TokenView>, Error> {
    lex_from(s, 0)
}

/// The model of what `tokenize` returns.
pub open spec fn tokenize_view(r: Result<Vec<Token>, Error>) -> Result<Seq<TokenView>, Error> {
    match r {
        Ok(v) => Ok(tokens_view(v@)),
        Err(e) => Err(e),
    }
}

/// Builds a string of the characters `cs`, through std's `FromIterator<&char>`
/// for `String`: the string holds exactly these characters, in order.
#[verifier::external_body]
fn collect_string(cs: &[char]) -> (s: String)
    ensures
        s@ == cs@,
{
    cs.iter().collect::<String>()
}

proof fn lemma_run_len(s: Seq<char>, start: int, end: int)
    requires
        0 <= start <= end <= s.len(),
        forall|j: int| start <= j < end ==> number_char_at(s, j),
        end == s.len() || !number_char_at(s, end),
    ensures
        run_len(s, start) == end - start,
    decreases end - start,
{
    if start < end {
        lemma_run_len(s, start + 1, end);
    }
}

proof fn lemma_then_lex_assoc(
    a: Seq<TokenView>,
    b: Seq<TokenView>,
    rest: Result<Seq<TokenView>, Error>,
)
    ensures
        then_lex(a, then_lex(b, rest)) == then_lex(a + b, rest),
{
    match rest {
        Ok(r) => {
            assert(a + (b + r) =~= (a + b) + r);
        },
        _ => {},
    }
}

impl Lexer {
    /// Copies `s[from..to]`.
    fn window(s: &Vec<char>, from: usize, to: usize) -> (w: Vec<char>)
        requires
            from <= to <= s@.len(),
        ensures
            w@ == s@.subrange(from as int, to as int),
    {
        let mut w: Vec<char> = Vec::new();
        let mut i = from;
        while i < to
            invariant
                from <= i <= to <= s@.len(),
                w@ == s@.subrange(from as int, i as int),
            decreases to - i,
        {
            w.push(s[i]);
            assert(s@.subrange(from as int, i + 1) =~= s@.subrange(from as int, i as int).push(s@[i as int]));
            i += 1;
        }
        w
    }

    /// The number token for `validate_input[from..to]`.
    fn number_token(&self, from: usize, to: usize) -> (res: Result<Token, Error>)
        requires
            from < to <= self.validate_input@.len(),
        ensures
            match res {
                Ok(t) => number_token(self.validate_input@, from as int, to as int) == Ok::<
                    TokenView,
                    Error,
                >(t@),
                Err(e) => number_token(self.validate_input@, from as int, to as int) == Err::<
                    TokenView,
                    Error,
                >(e),
            },
    {
        let to_parse = Lexer::window(&self.validate_input, from, to);
        match Parser::parse_number(to_parse.as_slice()) {
            Ok(num) => {
                let token = Token {
                    token_type: TokenType::Number(num),
                    lexeme: collect_string(to_parse.as_slice()),
                    position: from,
                };
                assert(token@ =~= TokenView {
                    kind: token.token_type@,
                    lexeme: self.validate_input@.subrange(from as int, to as int),
                    position: from as nat,
                });
                Ok(token)
            },
            Err(e) => Err(e),
        }
    }

    /// Converts the validated characters into tokens.
    ///
    /// Maximal runs of digits, decimal points and unary minus signs become
    /// number tokens, parsed by [`Parser::parse_number`]; every other
    /// character becomes a token of its own.
    ///
    /// # Errors
    ///
    /// Returns the error of the first number that [`Parser::parse_number`]
    /// refuses, such as [`Error::TrailingSeparator`] for a number that ends
    /// with a decimal point or holds a minus sign after its start (`--3`).
    pub fn tokenize(&self) -> (res: Result<Vec<Token>, Error>)
        ensures
            lex(self.validate_input@) == tokenize_view(res),
    {
        let s = &self.validate_input;
        let len = s.len();
        let mut tokens: Vec<Token> = Vec::new();
        let mut left: usize = 0;
        let mut right: usize = 0;
        while left < len
            invariant
                s@ == self.validate_input@,
                len == s@.len(),
                right <= left <= len,
                forall|j: int| right <= j < left ==> number_char_at(s@, j),
                lex(s@) == then_lex(tokens_view(tokens@), lex_from(s@, right as int)),
            decreases len - left,
        {
            let c = s[left];
            if ('0' <= c && c <= '9') || self.is_unary_minus(s.as_slice(), left) || c == '.' {
                left += 1;
            } else {
                proof {
                    lemma_run_len(s@, right as int, left as int);
                }
                let ghost before = tokens_view(tokens@);
                let ghost nums: Seq<TokenView> = Seq::empty();
                if left > right {
                    match self.number_token(right, left) {
                        Ok(t) => {
                            tokens.push(t);
                            proof {
                                nums = seq![t@];
                            }
                        },
                        Err(e) => {
                            return Err(e);
                        },
                    }
                }
                let token_operation_type = match c {
                    '+' => TokenType::Plus,
                    '-' => TokenType::Minus,
                    '*' => TokenType::Multiply,
                    '/' => TokenType::Divide,
                    '(' => TokenType::OpenParen,
                    ')' => TokenType::CloseParen,
                    _ => TokenType::EOF,
                };
                let one = vec![c];
                let token_operation = Token {
                    token_type: token_operation_type,
                    lexeme: collect_string(one.as_slice()),
                    position: left,
                };
                tokens.push(token_operation);
                proof {
                    let op = TokenView {
                        kind: operator_kind(s@[left as int]),
                        lexeme: seq![s@[left as int]],
                        position: left as nat,
                    };
                    assert(token_operation@ =~= op);
                    assert(tokens_view(tokens@) =~= before + nums.push(op));
                    lemma_then_lex_assoc(before, nums.push(op), lex_from(s@, left + 1));
                }
                left += 1;
                right = left;
            }
        }
        proof {
            lemma_run_len(s@, right as int, left as int);
        }
        let ghost before = tokens_view(tokens@);
        if left > right {
            match self.number_token(right, left) {
                Ok(t) => {
                    tokens.push(t);
                    proof {
                        assert(tokens_view(tokens@) =~= before + seq![t@]);
                    }
                },
                Err(e) => {
                    return Err(e);
                },
            }
        } else {
            assert(before + Seq::<TokenView>::empty() =~= before);
        }
        Ok(tokens)
    }

    /// Returns `true` if the character at `pos` is a unary minus: a minus at
    /// the start of the input or right after an operator or an opening
    /// parenthesis.
    fn is_unary_minus(&self, input: &[char], pos: usize) -> (b: bool)
        requires
            pos < input@.len(),
        ensures
            b == unary_minus_at(input@, pos as int),
    {
        input[pos] == '-' && (pos == 0 || {
            let p = input[pos - 1];
            p == '+' || p == '-' || p == '*' || p == '/' || p == '('
        })
    }
}

/// The lexemes of `ts`, one after the other.
pub open spec fn lexemes(ts: Seq<TokenView>) -> Seq<char>
    decreases ts.len(),
{
    if ts.len() == 0 {
        Seq::empty()
    } else {
        lexemes(ts.drop_last()) + ts.last().lexeme
    }
}

/// A token's type agrees with its text: a number token's numeral is what its
/// text parses to, and any other token is one character of that type.
pub open spec fn token_matches_lexeme(t: TokenView) -> bool {
    match t.kind {
        TokenKind::Number(n) => number_spec(t.lexeme) == Ok::<NumeralView, Error>(n),
        _ => t.lexeme.len() == 1 && t.kind == operator_kind(t.lexeme[0]),
    }
}

proof fn lemma_lexemes_append(a: Seq<TokenView>, b: Seq<TokenView>)
    ensures
        lexemes(a + b) == lexemes(a) + lexemes(b),
    decreases b.len(),
{
    if b.len() == 0 {
        assert(a + b =~= a);
        assert(lexemes(a) + lexemes(b) =~= lexemes(a));
    } else {
        lemma_lexemes_append(a, b.drop_last());
        assert((a + b).drop_last() =~= a + b.drop_last());
        assert(lexemes(a) + lexemes(b) =~= lexemes(a) + lexemes(b.drop_last()) + b.last().lexeme);
    }
}

/// The tokens that lexing from `start` puts before the first character that
/// does not belong to a number: none, or the one number token.
pub open spec fn leading_numbers(s: Seq<char>, start: int) -> Seq<TokenView> {
    let end = start + run_len(s, start);
    if end > start {
        seq![number_token(s, start, end)->Ok_0]
    } else {
        Seq::empty()
    }
}

proof fn lemma_leading_numbers(s: Seq<char>, start: int)
    requires
        0 <= start <= s.len(),
        lex_from(s, start) is Ok,
    ensures
        ({
            let end = start + run_len(s, start);
            let nums = leading_numbers(s, start);
            &&& end <= s.len()
            &&& lexemes(nums) == s.subrange(start, end)
            &&& forall|i: int|
                0 <= i < nums.len() ==> (#[trigger] nums[i]).position == start
                    && token_matches_lexeme(nums[i]) && i == 0
            &&& end < s.len() ==> lex_from(s, start) == then_lex(
                nums.push(
                    TokenView {
                        kind: operator_kind(s[end]),
                        lexeme: seq![s[end]],
                        position: end as nat,
                    },
                ),
                lex_from(s, end + 1),
            )
            &&& end == s.len() ==> lex_from(s, start) == Ok::<Seq<TokenView>, Error>(nums)
        }),
{
    let end = start + run_len(s, start);
    lemma_run_len_bound(s, start);
    let nums = leading_numbers(s, start);
    if end > start {
        let t = number_token(s, start, end)->Ok_0;
        assert(nums.drop_last() =~= Seq::<TokenView>::empty());
        assert(lexemes(Seq::<TokenView>::empty()) == Seq::<char>::empty());
        assert(lexemes(nums) == lexemes(nums.drop_last()) + t.lexeme);
        assert(lexemes(nums) =~= s.subrange(start, end));
    } else {
        assert(lexemes(nums) =~= s.subrange(start, end));
    }
}

#[verifier::rlimit(60)]
proof fn lemma_lex_from_covers(s: Seq<char>, start: int)
    requires
        0 <= start <= s.len(),
        lex_from(s, start) is Ok,
    ensures
        ({
            let ts = lex_from(s, start)->Ok_0;
            &&& lexemes(ts) == s.skip(start)
            &&& forall|i: int|
                0 <= i < ts.len() ==> (#[trigger] ts[i]).position == start + lexemes(ts.take(i)).len()
            &&& forall|i: int| 0 <= i < ts.len() ==> token_matches_lexeme(#[trigger] ts[i])
        }),
    decreases s.len() - start,
{
    let ts = lex_from(s, start)->Ok_0;
    let end = start + run_len(s, start);
    lemma_leading_numbers(s, start);
    let nums = leading_numbers(s, start);
    if end < s.len() {
        let op = TokenView {
            kind: operator_kind(s[end]),
            lexeme: seq![s[end]],
            position: end as nat,
        };
        let a = nums.push(op);
        assert(lex_from(s, end + 1) is Ok);
        let rest = lex_from(s, end + 1)->Ok_0;
        lemma_lex_from_covers(s, end + 1);
        assert(ts == a + rest);
        assert(a.drop_last() =~= nums);
        assert(lexemes(a) == lexemes(nums) + op.lexeme);
        assert(lexemes(a) =~= s.subrange(start, end + 1));
        lemma_lexemes_append(a, rest);
        assert(lexemes(ts) =~= s.skip(start));
        assert forall|i: int| 0 <= i < ts.len() implies (#[trigger] ts[i]).position == start
            + lexemes(ts.take(i)).len() && token_matches_lexeme(ts[i]) by {
            if i < nums.len() {
                assert(ts[i] == nums[i]);
                assert(ts.take(i) =~= Seq::<TokenView>::empty());
            } else if i == nums.len() {
                assert(ts[i] == op);
                assert(ts.take(i) =~= nums);
            } else {
                let j = i - a.len();
                assert(ts[i] == rest[j]);
                assert(ts.take(i) =~= a + rest.take(j));
                lemma_lexemes_append(a, rest.take(j));
            }
        }
    } else {
        assert(ts == nums);
        assert(s.skip(start) =~= s.subrange(start, end));
        assert forall|i: int| 0 <= i < ts.len() implies (#[trigger] ts[i]).position == start
            + lexemes(ts.take(i)).len() && token_matches_lexeme(ts[i]) by {
            assert(ts.take(i) =~= Seq::<TokenView>::empty());
        }
    }
}

proof fn lemma_run_len_bound(s: Seq<char>, start: int)
    requires
        0 <= start <= s.len(),
    ensures
        start + run_len(s, start) <= s.len(),
        forall|j: int| start <= j < start + run_len(s, start) ==> number_char_at(s, j),
    decreases s.len() - start,
{
    if start < s.len() && number_char_at(s, start) {
        lemma_run_len_bound(s, start + 1);
    }
}

/// The tokens of an input cover it exactly: their lexemes, one after the
/// other, are the input; each token's position is the index in the input of
/// its first character; and each token's type agrees with its lexeme.
pub proof fn lemma_tokens_cover_input(s: Seq<char>)
    requires
        lex(s) is Ok,
    ensures
        ({
            let ts = lex(s)->Ok_0;
            &&& lexemes(ts) == s
            &&& forall|i: int|
                0 <= i < ts.len() ==> (#[trigger] ts[i]).position == lexemes(ts.take(i)).len()
            &&& forall|i: int| 0 <= i < ts.len() ==> token_matches_lexeme(#[trigger] ts[i])
        }),
{
    lemma_lex_from_covers(s, 0);
    assert(s.skip(0) =~= s);
}

/// The token of the whole number written with the digits `d`, negative and
/// with a minus sign in its text where `negative` says so, at `position`.
pub open spec fn integer_token(d: Seq<char>, negative: bool, position: nat) -> TokenView {
    TokenView {
        kind: TokenKind::Number(
            NumeralView { negative, whole: digit_values(d), fraction: None },
        ),
        lexeme: if negative {
            seq!['-'] + d
        } else {
            d
        },
        position,
    }
}

proof fn lemma_digits_are_number_chars(s: Seq<char>, from: int, to: int)
    requires
        0 <= from <= to <= s.len(),
        forall|j: int| from <= j < to ==> is_digit(#[trigger] s[j]),
    ensures
        forall|j: int| from <= j < to ==> number_char_at(s, j),
{
    assert forall|j: int| from <= j < to implies number_char_at(s, j) by {
        assert(is_digit(s[j]));
    }
}

/// Lexing from `start`, where the rest of `s` is a minus sign that starts a
/// number followed by digits, gives that one negative number.
proof fn lemma_lex_negative_tail(s: Seq<char>, start: int, d: Seq<char>)
    requires
        0 <= start,
        s.len() == start + 1 + d.len(),
        digit_run(d),
        s.subrange(start + 1, s.len() as int) == d,
        s[start] == '-',
        unary_minus_at(s, start),
    ensures
        lex_from(s, start) == Ok::<Seq<TokenView>, Error>(
            seq![integer_token(d, true, start as nat)],
        ),
{
    assert forall|j: int| start + 1 <= j < s.len() implies is_digit(#[trigger] s[j]) by {
        assert(s[j] == d[j - start - 1]);
    }
    lemma_digits_are_number_chars(s, start + 1, s.len() as int);
    lemma_run_len(s, start, s.len() as int);
    assert(s.subrange(start, s.len() as int) =~= seq!['-'] + d);
    lemma_integer_numeral(d);
}

/// A minus sign right after `+`, `-`, `*`, `/` or `(` starts a negative
/// number: lexing digits, one of these, a minus sign and more digits gives
/// the first number, the operator and the second number made negative.
pub proof fn lemma_minus_after_operator_is_a_sign(d1: Seq<char>, o: char, d2: Seq<char>)
    requires
        digit_run(d1),
        digit_run(d2),
        o == '+' || o == '-' || o == '*' || o == '/' || o == '(',
    ensures
        lex(d1 + seq![o, '-'] + d2) == Ok::<Seq<TokenView>, Error>(
            seq![
                integer_token(d1, false, 0),
                TokenView {
                    kind: if o == '+' {
                        TokenKind::Plus
                    } else if o == '-' {
                        TokenKind::Minus
                    } else if o == '*' {
                        TokenKind::Multiply
                    } else if o == '/' {
                        TokenKind::Divide
                    } else {
                        TokenKind::OpenParen
                    },
                    lexeme: seq![o],
                    position: d1.len(),
                },
                integer_token(d2, true, d1.len() + 1),
            ],
        ),
{
    let s = d1 + seq![o, '-'] + d2;
    let n1 = d1.len() as int;
    assert forall|j: int| 0 <= j < n1 implies is_digit(#[trigger] s[j]) by {
        assert(s[j] == d1[j]);
    }
    lemma_digits_are_number_chars(s, 0, n1);
    assert(s[n1] == o);
    assert(is_digit(s[n1 - 1]));
    assert(!number_char_at(s, n1));
    lemma_run_len(s, 0, n1);
    assert(s.subrange(0, n1) =~= d1);
    lemma_integer_numeral(d1);
    assert(s.subrange(n1 + 2, s.len() as int) =~= d2);
    lemma_lex_negative_tail(s, n1 + 1, d2);
    let first = integer_token(d1, false, 0);
    let op = TokenView { kind: operator_kind(o), lexeme: seq![s[n1]], position: n1 as nat };
    assert(lex_from(s, 0) == then_lex(seq![first].push(op), lex_from(s, n1 + 1)));
    assert(seq![first].push(op) + seq![integer_token(d2, true, (n1 + 1) as nat)] =~= seq![
        first,
        op,
        integer_token(d2, true, (n1 + 1) as nat),
    ]);
}

/// A minus sign at the start of the input starts a negative number.
pub proof fn lemma_leading_minus_is_a_sign(d: Seq<char>)
    requires
        digit_run(d),
    ensures
        lex(seq!['-'] + d) == Ok::<Seq<TokenView>, Error>(seq![integer_token(d, true, 0)]),
{
    let s = seq!['-'] + d;
    assert(s.subrange(1, s.len() as int) =~= d);
    lemma_lex_negative_tail(s, 0, d);
}

/// A minus sign right after `)` is a subtraction: lexing digits, `)`, a
/// minus sign and more digits gives the first number, the closing
/// parenthesis, the minus operator and the second number.
pub proof fn lemma_minus_after_close_paren_subtracts(d1: Seq<char>, d2: Seq<char>)
    requires
        digit_run(d1),
        digit_run(d2),
    ensures
        lex(d1 + seq![')', '-'] + d2) == Ok::<Seq<TokenView>, Error>(
            seq![
                integer_token(d1, false, 0),
                TokenView { kind: TokenKind::CloseParen, lexeme: seq![')'], position: d1.len() },
                TokenView { kind: TokenKind::Minus, lexeme: seq!['-'], position: d1.len() + 1 },
                integer_token(d2, false, d1.len() + 2),
            ],
        ),
{
    let s = d1 + seq![')', '-'] + d2;
    let n1 = d1.len() as int;
    let len = s.len() as int;
    assert forall|j: int| 0 <= j < n1 implies is_digit(#[trigger] s[j]) by {
        assert(s[j] == d1[j]);
    }
    lemma_digits_are_number_chars(s, 0, n1);
    assert(s[n1] == ')');
    assert(!number_char_at(s, n1));
    lemma_run_len(s, 0, n1);
    assert(s.subrange(0, n1) =~= d1);
    lemma_integer_numeral(d1);
    assert(s[n1 + 1] == '-');
    assert(!number_char_at(s, n1 + 1));
    lemma_run_len(s, n1 + 1, n1 + 1);
    assert forall|j: int| n1 + 2 <= j < len implies is_digit(#[trigger] s[j]) by {
        assert(s[j] == d2[j - n1 - 2]);
    }
    lemma_digits_are_number_chars(s, n1 + 2, len);
    lemma_run_len(s, n1 + 2, len);
    assert(s.subrange(n1 + 2, len) =~= d2);
    lemma_integer_numeral(d2);
    let first = integer_token(d1, false, 0);
    let close = TokenView { kind: TokenKind::CloseParen, lexeme: seq![')'], position: n1 as nat };
    let minus = TokenView { kind: TokenKind::Minus, lexeme: seq!['-'], position: (n1 + 1) as nat };
    let last = integer_token(d2, false, (n1 + 2) as nat);
    assert(lex_from(s, n1 + 2) == Ok::<Seq<TokenView>, Error>(seq![last]));
    assert(lex_from(s, n1 + 1) == then_lex(Seq::<TokenView>::empty().push(minus), lex_from(s, n1 + 2)));
    assert(Seq::<TokenView>::empty().push(minus) + seq![last] =~= seq![minus, last]);
    assert(lex_from(s, 0) == then_lex(seq![first].push(close), lex_from(s, n1 + 1)));
    assert(seq![first].push(close) + seq![minus, last] =~= seq![first, close, minus, last]);
}

/// A number written alone, with its sign, digits and decimal point, is one
/// token holding that number.
pub proof fn lemma_written_number_is_one_token(n: NumeralView)
    requires
        well_formed(n),
    ensures
        lex(render(n)) == Ok::<Seq<TokenView>, Error>(
            seq![TokenView { kind: TokenKind::Number(n), lexeme: render(n), position: 0 }],
        ),
{
    let s = render(n);
    lemma_parse_rendered(n);
    assert(number_error(s) is None);
    assert(digits_after_sign(s));
    assert(s.len() > 0) by {
        assert(s.len() >= n.whole.len());
    }
    assert forall|j: int| 0 <= j < s.len() implies number_char_at(s, j) by {
        if j >= sign_len(s) {
            assert(is_digit(s[j]) || s[j] == '.');
        }
    }
    lemma_run_len(s, 0, s.len() as int);
    assert(s.subrange(0, s.len() as int) =~= s);
}

/// `s[i..j]` is a maximal run of characters that belong to a number.
pub open spec fn number_run(s: Seq<char>, i: int, j: int) -> bool {
    &&& 0 <= i < j <= s.len()
    &&& forall|k: int| i <= k < j ==> number_char_at(s, k)
    &&& i == 0 || !number_char_at(s, i - 1)
    &&& j == s.len() || !number_char_at(s, j)
}

/// Every maximal run of number characters that starts at or after `start`
/// parses.
pub open spec fn runs_parse_from(s: Seq<char>, start: int) -> bool {
    forall|i: int, j: int|
        #[trigger] number_run(s, i, j) && start <= i ==> number_spec(s.subrange(i, j)) is Ok
}

/// The first maximal run at or after `start` that does not parse gives `e`.
pub open spec fn first_failing_run(s: Seq<char>, start: int, e: Error) -> bool {
    exists|i: int, j: int|
        #[trigger] number_run(s, i, j) && start <= i && number_spec(s.subrange(i, j)) == Err::<
            NumeralView,
            Error,
        >(e) && forall|i2: int, j2: int|
            #[trigger] number_run(s, i2, j2) && start <= i2 < i ==> number_spec(
                s.subrange(i2, j2),
            ) is Ok
}

proof fn lemma_run_len_stops(s: Seq<char>, start: int)
    requires
        0 <= start <= s.len(),
    ensures
        start + run_len(s, start) == s.len() || !number_char_at(s, start + run_len(s, start)),
    decreases s.len() - start,
{
    if start < s.len() && number_char_at(s, start) {
        lemma_run_len_stops(s, start + 1);
    }
}

proof fn lemma_runs_after_boundary(s: Seq<char>, start: int, i: int, j: int)
    requires
        0 <= start <= s.len(),
        start == 0 || !number_char_at(s, start - 1),
        number_run(s, i, j),
        start <= i,
    ensures
        ({
            let end = start + run_len(s, start);
            (i == start && j == end && end > start) || i >= end + 1
        }),
{
    let end = start + run_len(s, start);
    lemma_run_len_bound(s, start);
    lemma_run_len_stops(s, start);
    if i < end {
        if i > start {
            assert(number_char_at(s, i - 1));
        }
        assert(i == start);
        if j < end {
            assert(number_char_at(s, j));
        }
        if j > end {
            assert(number_char_at(s, end));
        }
    } else if i == end {
        assert(number_char_at(s, i));
    }
}

proof fn lemma_lex_from_runs(s: Seq<char>, start: int)
    requires
        0 <= start <= s.len(),
        start == 0 || !number_char_at(s, start - 1),
    ensures
        lex_from(s, start) is Ok <==> runs_parse_from(s, start),
        lex_from(s, start) matches Err(e) ==> first_failing_run(s, start, e),
    decreases s.len() - start,
{
    let end = start + run_len(s, start);
    lemma_run_len_bound(s, start);
    lemma_run_len_stops(s, start);
    assert forall|i: int, j: int| #[trigger] number_run(s, i, j) && start <= i implies (i == start
        && j == end && end > start) || i >= end + 1 by {
        lemma_runs_after_boundary(s, start, i, j);
    }
    if end > start {
        assert(number_run(s, start, end));
    }
    if end < s.len() {
        lemma_lex_from_runs(s, end + 1);
    }
    if end > start && number_spec(s.subrange(start, end)) is Err {
        assert(!runs_parse_from(s, start));
        let e = number_spec(s.subrange(start, end))->Err_0;
        assert(number_token(s, start, end) == Err::<TokenView, Error>(e));
        assert(first_failing_run(s, start, e));
    } else {
        if end < s.len() {
            assert(runs_parse_from(s, start) <==> runs_parse_from(s, end + 1));
            if lex_from(s, end + 1) is Err {
                let e = lex_from(s, end + 1)->Err_0;
                let (i, j) = choose|i: int, j: int|
                    #[trigger] number_run(s, i, j) && end + 1 <= i && number_spec(
                        s.subrange(i, j),
                    ) == Err::<NumeralView, Error>(e) && forall|i2: int, j2: int|
                        #[trigger] number_run(s, i2, j2) && end + 1 <= i2 < i ==> number_spec(
                            s.subrange(i2, j2),
                        ) is Ok;
                assert(number_run(s, i, j) && start <= i);
                assert(first_failing_run(s, start, e));
            }
        } else {
            assert(runs_parse_from(s, start));
        }
    }
}

/// Lexing fails exactly where some maximal run of number characters does
/// not parse, and then it gives the error of the first such run.
pub proof fn lemma_lex_fails_on_first_bad_number(s: Seq<char>)
    ensures
        lex(s) is Ok <==> runs_parse_from(s, 0),
        lex(s) matches Err(e) ==> first_failing_run(s, 0, e),
{
    lemma_lex_from_runs(s, 0);
}

} // verus!
