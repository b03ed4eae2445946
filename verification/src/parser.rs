//! Parsing of a number's characters into an exact decimal numeral.
use vstd::prelude::*;

use crate::errors::Error;

verus! {

/// Namespace of the number parser.
pub struct Parser;

/// A decimal number exactly as written: its sign, the digits before the
/// decimal point and, when a decimal point is present, the digits after it.
/// Each digit is held as its value, from 0 to 9.
#[derive(Debug, PartialEq)]
pub struct Numeral {
    pub negative: bool,
    pub whole: Vec<u8>,
    pub fraction: Option<Vec<u8>>,
}

/// The mathematical model of a [`Numeral`].
#[verifier::ext_equal]
pub struct NumeralView {
    pub negative: bool,
    pub whole: Seq<u8>,
    pub fraction: Option<Seq<u8>>,
}

impl View for Numeral {
    type V = NumeralView;

    open spec fn view(&self) -> NumeralView {
        NumeralView {
            negative: self.negative,
            whole: self.whole@,
            fraction: match self.fraction {
                Some(f) => Some(f@),
                None => None,
            },
        }
    }
}

impl Clone for Numeral {
    fn clone(&self) -> (res: Self)
        ensures
            res@ == self@,
    {
        let fraction = match &self.fraction {
            Some(f) => Some(f.clone()),
            None => None,
        };
        let res = Numeral { negative: self.negative, whole: self.whole.clone(), fraction };
        assert(res.whole@ =~= self.whole@);
        assert(res@ =~= self@);
        res
    }
}

/// `c` is one of the ASCII digits `0` to `9`.
pub open spec fn is_digit(c: char) -> bool {
    '0' <= c <= '9'
}

/// The value of an ASCII digit.
pub open spec fn digit_value(c: char) -> u8 {
    (c as int - '0' as int) as u8
}

/// The ASCII digit whose value is `d`.
pub open spec fn digit_char(d: u8) -> char {
    (d + '0' as int) as char
}

pub open spec fn digit_values(s: Seq<char>) -> Seq<u8> {
    s.map_values(|c: char| digit_value(c))
}

pub open spec fn digit_chars(s: Seq<u8>) -> Seq<char> {
    s.map_values(|d: u8| digit_char(d))
}

/// `s` holds two decimal points or more.
pub open spec fn has_two_dots(s: Seq<char>) -> bool {
    exists|i: int, j: int| 0 <= i < j < s.len() && s[i] == '.' && s[j] == '.'
}

/// The error that `cs` calls for, if any: an empty input, a lone sign, a
/// leading or trailing decimal point, a sign followed by a decimal point, or
/// any other structure than digits around at most one decimal point after an
/// optional sign are [`Error::TrailingSeparator`]; more than one decimal point
/// is [`Error::MultipleDots`].
pub open spec fn number_error(cs: Seq<char>) -> Option<Error> {
    if cs.len() == 0 {
        Some(Error::TrailingSeparator)
    } else if (cs.len() == 1 && cs[0] == '-') || (cs[0] == '.' || cs.last() == '.') {
        Some(Error::TrailingSeparator)
    } else if cs.len() >= 2 && cs[0] == '-' && cs[1] == '.' {
        Some(Error::TrailingSeparator)
    } else if has_two_dots(cs) {
        Some(Error::MultipleDots)
    } else if !digits_after_sign(cs) {
        Some(Error::TrailingSeparator)
    } else {
        None
    }
}

/// The number of sign characters that `cs` starts with (0 or 1).
pub open spec fn sign_len(cs: Seq<char>) -> int {
    if cs.len() > 0 && cs[0] == '-' {
        1
    } else {
        0
    }
}

/// The characters of `cs` after its sign.
pub open spec fn unsigned_part(cs: Seq<char>) -> Seq<char> {
    cs.skip(sign_len(cs))
}

/// Every character of `cs` after its sign is a digit or a decimal point.
pub open spec fn digits_after_sign(cs: Seq<char>) -> bool {
    forall|i: int| sign_len(cs) <= i < cs.len() ==> is_digit(#[trigger] cs[i]) || cs[i] == '.'
}

/// The numeral that `cs` denotes, for a `cs` that is accepted.
pub open spec fn numeral_of(cs: Seq<char>) -> NumeralView {
    let b = unsigned_part(cs);
    if exists|k: int| 0 <= k < b.len() && b[k] == '.' {
        let k = choose|k: int| 0 <= k < b.len() && b[k] == '.';
        NumeralView {
            negative: sign_len(cs) == 1,
            whole: digit_values(b.take(k)),
            fraction: Some(digit_values(b.skip(k + 1))),
        }
    } else {
        NumeralView { negative: sign_len(cs) == 1, whole: digit_values(b), fraction: None }
    }
}

/// What parsing `cs` yields.
pub open spec fn number_spec(cs: Seq<char>) -> Result<NumeralView, Error> {
    match number_error(cs) {
        Some(e) => Err(e),
        None => Ok(numeral_of(cs)),
    }
}

/// The characters that write `n` down: an optional sign, the whole digits,
/// and the decimal point with the fraction digits where there is a fraction.
pub open spec fn render(n: NumeralView) -> Seq<char> {
    (if n.negative { seq!['-'] } else { Seq::empty() }) + digit_chars(n.whole) + match n.fraction {
        Some(f) => seq!['.'] + digit_chars(f),
        None => Seq::empty(),
    }
}

impl Parser {
    /// Parses the characters of a number into the [`Numeral`] they write,
    /// handling the sign and the decimal point.
    ///
    /// # Errors
    /// Returns [`Error::TrailingSeparator`] where the input is empty or a lone
    /// sign, starts or ends with a decimal point, or has a decimal point right
    /// after its sign; otherwise [`Error::MultipleDots`] where it has more than
    /// one decimal point; otherwise [`Error::TrailingSeparator`] where a
    /// character after the sign is neither a digit nor the decimal point.
    pub fn parse_number(number: &[char]) -> (res: Result<Numeral, Error>)
        ensures
            match res {
                Ok(n) => number_spec(number@) == Ok::<NumeralView, Error>(n@),
                Err(e) => number_spec(number@) == Err::<NumeralView, Error>(e),
            },
    {
        let len = number.len();
        if len == 0 {
            return Err(Error::TrailingSeparator);
        }
        if (len == 1 && number[0] == '-') || (number[0] == '.' || number[len - 1] == '.') {
            return Err(Error::TrailingSeparator);
        }
        if len >= 2 && number[0] == '-' && number[1] == '.' {
            return Err(Error::TrailingSeparator);
        }
        let mut dot: Option<usize> = None;
        let mut i: usize = 0;
        while i < len
            invariant
                i <= len,
                len == number@.len(),
                len > 0,
                !((len == 1 && number@[0] == '-') || (number@[0] == '.' || number@.last() == '.')),
                !(len >= 2 && number@[0] == '-' && number@[1] == '.'),
                match dot {
                    None => forall|j: int| 0 <= j < i ==> number@[j] != '.',
                    Some(k) => k < i && number@[k as int] == '.' && forall|j: int|
                        0 <= j < i && j != k ==> number@[j] != '.',
                },
            decreases len - i,
        {
            if number[i] == '.' {
                if let Some(k) = dot {
                    assert(number@[k as int] == '.' && number@[i as int] == '.');
                    assert(has_two_dots(number@));
                    return Err(Error::MultipleDots);
                }
                dot = Some(i);
            }
            i += 1;
        }
        assert(!has_two_dots(number@));
        let negative = len > 0 && number[0] == '-';
        let start: usize = if negative {
            1
        } else {
            0
        };
        let ghost cs = number@;
        let ghost b = unsigned_part(cs);
        assert(start == sign_len(cs));
        match dot {
            Some(k) => {
                assert(k >= start) by {
                    if k < start {
                        assert(number@[0] == '-');
                    }
                }
                let whole = Parser::to_digits(number, start, k);
                let fraction = Parser::to_digits(number, k + 1, len);
                match (whole, fraction) {
                    (Some(whole), Some(fraction)) => {
                        let n = Numeral { negative, whole, fraction: Some(fraction) };
                        proof {
                            assert(digits_after_sign(cs));
                            assert(b[k - start] == '.');
                            let k2 = choose|k2: int| 0 <= k2 < b.len() && b[k2] == '.';
                            assert(b[k2] == cs[k2 + start]);
                            assert(k2 == k - start);
                            assert(b.take(k2) =~= cs.subrange(start as int, k as int));
                            assert(b.skip(k2 + 1) =~= cs.subrange(k + 1, len as int));
                            assert(n@ =~= numeral_of(cs));
                        }
                        Ok(n)
                    },
                    _ => {
                        proof {
                            if digits_after_sign(cs) {
                                assert forall|j: int| start <= j < k implies is_digit(
                                    #[trigger] cs[j],
                                ) by {
                                    assert(cs[j] != '.');
                                }
                                assert forall|j: int| k + 1 <= j < len implies is_digit(
                                    #[trigger] cs[j],
                                ) by {
                                    assert(cs[j] != '.');
                                }
                            }
                        }
                        Err(Error::TrailingSeparator)
                    },
                }
            },
            None => {
                match Parser::to_digits(number, start, len) {
                    Some(whole) => {
                        let n = Numeral { negative, whole, fraction: None };
                        proof {
                            assert(b =~= cs.subrange(start as int, len as int));
                            assert(!exists|k: int| 0 <= k < b.len() && b[k] == '.') by {
                                assert forall|k: int| 0 <= k < b.len() implies b[k] != '.' by {
                                    assert(b[k] == cs[k + start]);
                                }
                            }
                            assert(n@ =~= numeral_of(cs));
                        }
                        Ok(n)
                    },
                    None => {
                        proof {
                            if digits_after_sign(cs) {
                                assert forall|j: int| start <= j < len implies is_digit(
                                    #[trigger] cs[j],
                                ) by {
                                    assert(cs[j] != '.');
                                }
                            }
                        }
                        Err(Error::TrailingSeparator)
                    },
                }
            },
        }
    }

    /// The values of the digits `number[from..to]`, or `None` where one of
    /// these characters is not a digit.
    fn to_digits(number: &[char], from: usize, to: usize) -> (digits: Option<Vec<u8>>)
        requires
            from <= to <= number@.len(),
        ensures
            digits is Some <==> forall|i: int| from <= i < to ==> is_digit(#[trigger] number@[i]),
            digits matches Some(d) ==> d@ == digit_values(number@.subrange(from as int, to as int)),
    {
        let mut digits: Vec<u8> = Vec::new();
        let mut i = from;
        while i < to
            invariant
                from <= i <= to <= number@.len(),
                forall|j: int| from <= j < i ==> is_digit(#[trigger] number@[j]),
                digits@ == digit_values(number@.subrange(from as int, i as int)),
            decreases to - i,
        {
            let c = number[i];
            if !('0' <= c && c <= '9') {
                return None;
            }
            let d = (c as u32 - '0' as u32) as u8;
            digits.push(d);
            assert(number@.subrange(from as int, i + 1) =~= number@.subrange(from as int, i as int).push(c));
            assert(digit_values(number@.subrange(from as int, i + 1)) =~= digit_values(number@.subrange(from as int, i as int)).push(digit_value(c)));
            i += 1;
        }
        Some(digits)
    }
}

/// A numeral as `parse_number` can return it: at least one whole digit, at
/// least one fraction digit where there is a decimal point, and every digit
/// below ten.
pub open spec fn well_formed(n: NumeralView) -> bool {
    &&& n.whole.len() > 0
    &&& forall|i: int| 0 <= i < n.whole.len() ==> #[trigger] n.whole[i] < 10
    &&& match n.fraction {
        Some(f) => f.len() > 0 && forall|i: int| 0 <= i < f.len() ==> #[trigger] f[i] < 10,
        None => true,
    }
}

proof fn lemma_digit_roundtrip(c: char)
    requires
        is_digit(c),
    ensures
        digit_char(digit_value(c)) == c,
        digit_value(c) < 10,
{
}

proof fn lemma_value_roundtrip(d: u8)
    requires
        d < 10,
    ensures
        digit_value(digit_char(d)) == d,
        is_digit(digit_char(d)),
{
}

proof fn lemma_digit_chars_of_values(s: Seq<char>)
    requires
        forall|i: int| 0 <= i < s.len() ==> is_digit(#[trigger] s[i]),
    ensures
        digit_chars(digit_values(s)) == s,
{
    assert forall|i: int| 0 <= i < s.len() implies #[trigger] digit_chars(digit_values(s))[i]
        == s[i] by {
        lemma_digit_roundtrip(s[i]);
    }
    assert(digit_chars(digit_values(s)) =~= s);
}

proof fn lemma_digit_values_of_chars(s: Seq<u8>)
    requires
        forall|i: int| 0 <= i < s.len() ==> #[trigger] s[i] < 10,
    ensures
        digit_values(digit_chars(s)) == s,
        forall|i: int| 0 <= i < s.len() ==> is_digit(#[trigger] digit_chars(s)[i]),
{
    assert forall|i: int| 0 <= i < s.len() implies #[trigger] digit_values(digit_chars(s))[i]
        == s[i] && is_digit(digit_chars(s)[i]) by {
        lemma_value_roundtrip(s[i]);
    }
    assert(digit_values(digit_chars(s)) =~= s);
}

proof fn lemma_digit_values_small(s: Seq<char>)
    requires
        forall|i: int| 0 <= i < s.len() ==> is_digit(#[trigger] s[i]),
    ensures
        forall|i: int| 0 <= i < s.len() ==> #[trigger] digit_values(s)[i] < 10,
{
    assert forall|i: int| 0 <= i < s.len() implies #[trigger] digit_values(s)[i] < 10 by {
        lemma_digit_roundtrip(s[i]);
    }
}

/// A parsed number is well formed, and writing it down gives back the
/// characters it was parsed from: the accepted inputs are exactly an optional
/// minus sign, one or more digits, and optionally a decimal point followed by
/// one or more digits.
pub proof fn lemma_render_parsed(cs: Seq<char>)
    requires
        number_spec(cs) is Ok,
    ensures
        well_formed(number_spec(cs)->Ok_0),
        render(number_spec(cs)->Ok_0) == cs,
{
    let n = number_spec(cs)->Ok_0;
    let b = unsigned_part(cs);
    let sl = sign_len(cs);
    assert(number_error(cs) is None);
    assert forall|i: int| 0 <= i < b.len() implies is_digit(#[trigger] b[i]) || b[i] == '.' by {
        assert(b[i] == cs[i + sl]);
    }
    let sign: Seq<char> = if n.negative { seq!['-'] } else { Seq::empty() };
    assert(sign =~= cs.take(sl));
    if exists|k: int| 0 <= k < b.len() && b[k] == '.' {
        let k = choose|k: int| 0 <= k < b.len() && b[k] == '.';
        assert forall|i: int| 0 <= i < k implies is_digit(#[trigger] b.take(k)[i]) by {
            if b[i] == '.' {
                assert(cs[i + sl] == '.' && cs[k + sl] == '.');
                assert(has_two_dots(cs));
            }
        }
        assert forall|i: int| 0 <= i < b.len() - k - 1 implies is_digit(
            #[trigger] b.skip(k + 1)[i],
        ) by {
            if b[k + 1 + i] == '.' {
                assert(cs[k + sl] == '.' && cs[k + 1 + i + sl] == '.');
                assert(has_two_dots(cs));
            }
        }
        lemma_digit_chars_of_values(b.take(k));
        lemma_digit_chars_of_values(b.skip(k + 1));
        lemma_digit_values_small(b.take(k));
        lemma_digit_values_small(b.skip(k + 1));
        assert(b[0] == cs[sl]);
        assert(k > 0);
        assert(b[b.len() - 1] == cs.last());
        assert(b.len() > k + 1);
        assert(b =~= b.take(k) + seq!['.'] + b.skip(k + 1));
        assert(cs =~= cs.take(sl) + b);
    } else {
        assert forall|i: int| 0 <= i < b.len() implies is_digit(#[trigger] b[i]) by {
            assert(b[i] != '.');
        }
        lemma_digit_chars_of_values(b);
        lemma_digit_values_small(b);
        assert(b.len() > 0);
        assert(cs =~= cs.take(sl) + b);
    }
}

/// Parsing the characters that write down a well-formed numeral gives that
/// numeral back.
pub proof fn lemma_parse_rendered(n: NumeralView)
    requires
        well_formed(n),
    ensures
        number_spec(render(n)) == Ok::<NumeralView, Error>(n),
{
    let cs = render(n);
    let sign: Seq<char> = if n.negative { seq!['-'] } else { Seq::empty() };
    let w = digit_chars(n.whole);
    lemma_digit_values_of_chars(n.whole);
    let tail: Seq<char> = match n.fraction {
        Some(f) => seq!['.'] + digit_chars(f),
        None => Seq::empty(),
    };
    let b = w + tail;
    assert(cs =~= sign + b);
    assert(sign_len(cs) == sign.len());
    assert(unsigned_part(cs) =~= b);
    assert(is_digit(w[0]));
    match n.fraction {
        Some(f) => {
            lemma_digit_values_of_chars(f);
            let fc = digit_chars(f);
            assert(cs.last() == fc[fc.len() - 1]);
            assert(b[w.len() as int] == '.');
            assert forall|i: int| 0 <= i < b.len() && i != w.len() implies is_digit(#[trigger] b[i]) by {
                if i < w.len() {
                    assert(b[i] == w[i]);
                } else {
                    assert(b[i] == fc[i - w.len() - 1]);
                }
            }
            assert(!has_two_dots(cs)) by {
                if has_two_dots(cs) {
                    let (i, j) = choose|i: int, j: int|
                        0 <= i < j < cs.len() && cs[i] == '.' && cs[j] == '.';
                    assert(cs[i] == b[i - sign.len()]);
                    assert(cs[j] == b[j - sign.len()]);
                }
            }
            let k = choose|k: int| 0 <= k < b.len() && b[k] == '.';
            assert(k == w.len());
            assert(b.take(k) =~= w);
            assert(b.skip(k + 1) =~= fc);
        },
        None => {
            assert(b =~= w);
            assert(cs.last() == w[w.len() - 1]);
            assert(!has_two_dots(cs)) by {
                if has_two_dots(cs) {
                    let (i, j) = choose|i: int, j: int|
                        0 <= i < j < cs.len() && cs[i] == '.' && cs[j] == '.';
                    assert(cs[i] == b[i - sign.len()]);
                }
            }
            assert(!exists|k: int| 0 <= k < b.len() && b[k] == '.');
        },
    }
    assert forall|i: int| sign_len(cs) <= i < cs.len() implies is_digit(#[trigger] cs[i])
        || cs[i] == '.' by {
        assert(cs[i] == b[i - sign.len()]);
    }
    assert(number_spec(render(n)) =~= Ok::<NumeralView, Error>(n));
}

/// A non-empty run of ASCII digits.
pub open spec fn digit_run(d: Seq<char>) -> bool {
    d.len() > 0 && forall|i: int| 0 <= i < d.len() ==> is_digit(#[trigger] d[i])
}

/// A run of digits parses to the whole number with those digits, and a
/// minus sign before it makes that number negative.
pub proof fn lemma_integer_numeral(d: Seq<char>)
    requires
        digit_run(d),
    ensures
        number_spec(d) == Ok::<NumeralView, Error>(
            NumeralView { negative: false, whole: digit_values(d), fraction: None },
        ),
        number_spec(seq!['-'] + d) == Ok::<NumeralView, Error>(
            NumeralView { negative: true, whole: digit_values(d), fraction: None },
        ),
{
    let m = seq!['-'] + d;
    assert(d[0] != '-' && d[0] != '.' && d.last() != '.');
    assert(!has_two_dots(d));
    assert(unsigned_part(d) =~= d);
    assert(!exists|k: int| 0 <= k < d.len() && d[k] == '.');
    assert(m[1] == d[0]);
    assert(m.last() == d.last());
    assert(!has_two_dots(m)) by {
        if has_two_dots(m) {
            let (i, j) = choose|i: int, j: int| 0 <= i < j < m.len() && m[i] == '.' && m[j] == '.';
            assert(m[j] == d[j - 1]);
        }
    }
    assert(sign_len(m) == 1);
    assert(unsigned_part(m) =~= d);
    assert forall|i: int| sign_len(m) <= i < m.len() implies is_digit(#[trigger] m[i]) || m[i]
        == '.' by {
        assert(m[i] == d[i - 1]);
    }
}

/// `s[i]` is a decimal point.
pub open spec fn point_at(s: Seq<char>, i: int) -> bool {
    s[i] == '.'
}

/// Which error a refused number gives: more than one decimal point gives
/// [`Error::MultipleDots`] unless the input is empty, a lone sign, starts or
/// ends with a decimal point, or has one right after its sign, all of which
/// give [`Error::TrailingSeparator`], as does every other refused input.
pub proof fn lemma_number_errors(cs: Seq<char>)
    ensures
        number_spec(cs) == Err::<NumeralView, Error>(Error::MultipleDots) <==> {
            &&& exists|i: int, j: int|
                0 <= i < j < cs.len() && #[trigger] point_at(cs, i) && #[trigger] point_at(cs, j)
            &&& cs.len() > 0
            &&& cs != seq!['-']
            &&& cs[0] != '.'
            &&& cs[cs.len() - 1] != '.'
            &&& !(cs.len() >= 2 && cs[0] == '-' && cs[1] == '.')
        },
        number_spec(cs) is Err ==> number_spec(cs) == Err::<NumeralView, Error>(
            Error::MultipleDots,
        ) || number_spec(cs) == Err::<NumeralView, Error>(Error::TrailingSeparator),
{
    if has_two_dots(cs) {
        let (i, j) = choose|i: int, j: int| 0 <= i < j < cs.len() && cs[i] == '.' && cs[j] == '.';
        assert(point_at(cs, i) && point_at(cs, j));
    }
    if exists|i: int, j: int|
        0 <= i < j < cs.len() && #[trigger] point_at(cs, i) && #[trigger] point_at(cs, j) {
        let (i, j) = choose|i: int, j: int|
            0 <= i < j < cs.len() && #[trigger] point_at(cs, i) && #[trigger] point_at(cs, j);
        assert(has_two_dots(cs));
    }
    if cs.len() == 1 && cs[0] == '-' {
        assert(cs =~= seq!['-']);
    }
}

} // verus!
