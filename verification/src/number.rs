//! Which texts are decimal numbers.

use crate::text::{eq_ignoring_case, same_ignoring_case};
use vstd::prelude::*;

verus! {

/// One of the digits `0` to `9`.
pub open spec fn is_digit(c: char) -> bool {
    '0' <= c <= '9'
}

/// Every character of `s` is a digit.
pub open spec fn all_digits(s: Seq<char>) -> bool {
    forall|i: int| 0 <= i < s.len() ==> is_digit(#[trigger] s[i])
}

/// `s` without a leading `+` or `-`.
pub open spec fn unsigned(s: Seq<char>) -> Seq<char> {
    if s.len() > 0 && (s[0] == '+' || s[0] == '-') {
        s.skip(1)
    } else {
        s
    }
}

/// Digits with at most one dot among them, and at least one digit.
pub open spec fn is_mantissa(s: Seq<char>) -> bool {
    ||| s.len() > 0 && all_digits(s)
    ||| s.len() > 1 && exists|dot: int|
        {
            &&& 0 <= dot < s.len()
            &&& #[trigger] s[dot] == '.'
            &&& all_digits(s.take(dot))
            &&& all_digits(s.skip(dot + 1))
        }
}

/// The letter `e`, an optional sign, and at least one digit.
pub open spec fn is_exponent(s: Seq<char>) -> bool {
    &&& s.len() > 0
    &&& s[0] == 'e' || s[0] == 'E'
    &&& unsigned(s.skip(1)).len() > 0
    &&& all_digits(unsigned(s.skip(1)))
}

/// A mantissa, with or without an exponent behind it.
pub open spec fn is_decimal(s: Seq<char>) -> bool {
    ||| is_mantissa(s)
    ||| exists|at: int|
        0 <= at < s.len() && is_mantissa(s.take(at)) && is_exponent(#[trigger] s.skip(at))
}

/// A number as a 64-bit float is read from text: an optional sign, then a decimal or one of
/// the words `inf`, `infinity` and `nan` in any case.
pub open spec fn is_number(s: Seq<char>) -> bool {
    ||| is_decimal(unsigned(s))
    ||| same_ignoring_case(unsigned(s), "inf"@)
    ||| same_ignoring_case(unsigned(s), "infinity"@)
    ||| same_ignoring_case(unsigned(s), "nan"@)
}

fn digit(c: char) -> (r: bool)
    ensures
        r == is_digit(c),
{
    let n: u32 = c as u32;
    0x30 <= n && n <= 0x39
}

/// Where the run of digits that starts at `from` ends.
fn digits_end(s: &Vec<char>, from: usize) -> (r: usize)
    requires
        from <= s.len(),
    ensures
        from <= r <= s.len(),
        forall|i: int| from <= i < r ==> is_digit(#[trigger] s@[i]),
        r < s.len() ==> !is_digit(s@[r as int]),
{
    let mut i: usize = from;
    while i < s.len()
        invariant
            from <= i <= s.len(),
            forall|k: int| from <= k < i ==> is_digit(#[trigger] s@[k]),
        decreases s.len() - i,
    {
        if !digit(s[i]) {
            return i;
        }
        i = i + 1;
    }
    i
}

/// `s` without a leading `+` or `-`.
fn without_sign(s: &Vec<char>, from: usize) -> (r: usize)
    requires
        from <= s.len(),
    ensures
        from <= r <= s.len(),
        s@.skip(r as int) == unsigned(s@.skip(from as int)),
{
    if from < s.len() && (s[from] == '+' || s[from] == '-') {
        assert(s@.skip(from as int).skip(1) =~= s@.skip(from + 1));
        from + 1
    } else {
        from
    }
}

/// Where the mantissa that starts at `from` ends, if there is one.
fn mantissa_end(s: &Vec<char>, from: usize) -> (r: Option<usize>)
    requires
        from <= s.len(),
    ensures
        match r {
            Some(end) => {
                &&& from <= end <= s.len()
                &&& is_mantissa(s@.subrange(from as int, end as int))
                &&& forall|x: int|
                    from <= x <= s.len() && is_mantissa(#[trigger] s@.subrange(from as int, x)) && (
                    x < s.len() ==> s@[x] == 'e' || s@[x] == 'E') ==> x == end
            },
            None => forall|x: int|
                from <= x <= s.len() ==> !is_mantissa(#[trigger] s@.subrange(from as int, x)),
        },
{
    let whole: usize = digits_end(s, from);
    let mut end: usize = whole;
    let mut digits: usize = whole - from;
    if whole < s.len() && s[whole] == '.' {
        end = digits_end(s, whole + 1);
        digits = digits + (end - (whole + 1));
    }
    proof {
        assert forall|x: int|
            from <= x <= s.len() && is_mantissa(#[trigger] s@.subrange(from as int, x)) implies x
            <= end && digits > 0 && ((x < s.len() ==> s@[x] == 'e' || s@[x] == 'E') ==> x
            == end) by {
            let m = s@.subrange(from as int, x);
            if m.len() > 0 && all_digits(m) {
                if whole < x {
                    assert(m[whole - from] == s@[whole as int]);
                }
            } else {
                let dot = choose|dot: int|
                    {
                        &&& 0 <= dot < m.len()
                        &&& #[trigger] m[dot] == '.'
                        &&& all_digits(m.take(dot))
                        &&& all_digits(m.skip(dot + 1))
                    };
                assert(m[dot] == s@[from + dot]);
                if whole < from + dot {
                    assert(m.take(dot)[whole - from] == s@[whole as int]);
                }
                assert(whole == from + dot);
                if end < x {
                    assert(m.skip(dot + 1)[end - (whole + 1)] == s@[end as int]);
                }
                if x < end {
                    assert(is_digit(s@[x]));
                }
            }
        }
        let m = s@.subrange(from as int, end as int);
        if digits > 0 {
            if end == whole {
                assert(all_digits(m));
            } else {
                let dot = whole - from;
                assert(m[dot] == '.');
                assert(all_digits(m.take(dot)));
                assert(all_digits(m.skip(dot + 1)));
            }
        }
    }
    if digits > 0 {
        Some(end)
    } else {
        None
    }
}

/// Whether what stands from `from` on is an exponent.
fn exponent_from(s: &Vec<char>, from: usize) -> (r: bool)
    requires
        from <= s.len(),
    ensures
        r == is_exponent(s@.skip(from as int)),
{
    if from < s.len() && (s[from] == 'e' || s[from] == 'E') {
        let start: usize = without_sign(s, from + 1);
        let end: usize = digits_end(s, start);
        assert(s@.skip(from as int).skip(1) =~= s@.skip(from + 1));
        let ghost digits = s@.skip(start as int);
        proof {
            if end < s.len() {
                assert(digits[end - start] == s@[end as int]);
            }
        }
        start < s.len() && end == s.len()
    } else {
        false
    }
}

/// Whether `s` is a number as a 64-bit float is read from text.
pub fn is_number_text(s: &Vec<char>) -> (r: bool)
    ensures
        r == is_number(s@),
{
    let from: usize = without_sign(s, 0);
    assert(s@.skip(0) =~= s@);
    let ghost body = unsigned(s@);
    let found = mantissa_end(s, from);
    let decimal = match found {
        Some(end) => end == s.len() || exponent_from(s, end),
        None => false,
    };
    proof {
        assert(s@.subrange(from as int, s@.len() as int) =~= body);
        assert forall|at: int| 0 <= at <= body.len() implies #[trigger] body.take(at)
            == s@.subrange(from as int, from + at) by {
            assert(body.take(at) =~= s@.subrange(from as int, from + at));
        }
        assert forall|at: int| 0 <= at <= body.len() implies #[trigger] body.skip(at) == s@.skip(
            from + at,
        ) by {
            assert(body.skip(at) =~= s@.skip(from + at));
        }
        assert(decimal == is_decimal(body)) by {
            if is_mantissa(body) {
                assert(is_mantissa(s@.subrange(from as int, s@.len() as int)));
            } else if is_decimal(body) {
                let at = choose|at: int|
                    0 <= at < body.len() && is_mantissa(body.take(at)) && is_exponent(
                        #[trigger] body.skip(at),
                    );
                assert(is_mantissa(s@.subrange(from as int, from + at)));
                assert(body.skip(at)[0] == s@[from + at]);
            }
            if decimal {
                let end = found->0 as int;
                assert(body.take(end - from) == s@.subrange(from as int, end));
                assert(body.skip(end - from) == s@.skip(end));
            }
        }
    }
    if decimal {
        return true;
    }
    let mut word: Vec<char> = Vec::new();
    let mut i: usize = from;
    while i < s.len()
        invariant
            from <= i <= s.len(),
            word@ == s@.subrange(from as int, i as int),
        decreases s.len() - i,
    {
        word.push(s[i]);
        i = i + 1;
        assert(word@ =~= s@.subrange(from as int, i as int));
    }
    eq_ignoring_case(&word, "inf") || eq_ignoring_case(&word, "infinity") || eq_ignoring_case(
        &word,
        "nan",
    )
}

/// Digits are a number, with a dot before, among or behind them, with an exponent behind, and
/// with a sign before all of that.
pub proof fn law_digits_are_numbers(
    sign: Seq<char>,
    whole: Seq<char>,
    fraction: Seq<char>,
    e: char,
    e_sign: Seq<char>,
    exponent: Seq<char>,
)
    requires
        sign.len() == 0 || sign == seq!['+'] || sign == seq!['-'],
        e_sign.len() == 0 || e_sign == seq!['+'] || e_sign == seq!['-'],
        e == 'e' || e == 'E',
        forall|i: int| 0 <= i < whole.len() ==> '0' <= #[trigger] whole[i] <= '9',
        forall|i: int| 0 <= i < fraction.len() ==> '0' <= #[trigger] fraction[i] <= '9',
        forall|i: int| 0 <= i < exponent.len() ==> '0' <= #[trigger] exponent[i] <= '9',
        exponent.len() > 0,
    ensures
        whole.len() > 0 ==> is_number(sign + whole),
        whole.len() > 0 ==> is_number(sign + (whole + (seq![e] + e_sign + exponent))),
        whole.len() + fraction.len() > 0 ==> is_number(sign + (whole.push('.') + fraction)),
        whole.len() + fraction.len() > 0 ==> is_number(
            sign + (whole.push('.') + fraction + (seq![e] + e_sign + exponent)),
        ),
{
    let dotted = whole.push('.') + fraction;
    let tail = seq![e] + e_sign + exponent;
    lemma_exponent(e, e_sign, exponent);
    if whole.len() > 0 {
        lemma_signed(sign, whole, tail);
    }
    if whole.len() + fraction.len() > 0 {
        assert(dotted[whole.len() as int] == '.');
        assert(dotted.take(whole.len() as int) =~= whole);
        assert(dotted.skip(whole.len() as int + 1) =~= fraction);
        assert(is_mantissa(dotted));
        lemma_signed(sign, dotted, tail);
    }
}

proof fn lemma_exponent(e: char, e_sign: Seq<char>, exponent: Seq<char>)
    requires
        e_sign.len() == 0 || e_sign == seq!['+'] || e_sign == seq!['-'],
        e == 'e' || e == 'E',
        all_digits(exponent),
        exponent.len() > 0,
    ensures
        is_exponent(seq![e] + e_sign + exponent),
{
    let s = seq![e] + e_sign + exponent;
    assert(s.skip(1) =~= e_sign + exponent);
    assert(s[0] == e);
    assert(is_digit(exponent[0]));
    if e_sign.len() == 0 {
        assert(e_sign + exponent =~= exponent);
    } else {
        assert((e_sign + exponent)[0] == e_sign[0]);
        assert((e_sign + exponent).skip(1) =~= exponent);
    }
}

proof fn lemma_signed(sign: Seq<char>, m: Seq<char>, tail: Seq<char>)
    requires
        sign.len() == 0 || sign == seq!['+'] || sign == seq!['-'],
        is_mantissa(m),
        is_exponent(tail),
        m.len() > 0,
        '0' <= m[0] <= '9' || m[0] == '.',
    ensures
        is_number(sign + m),
        is_number(sign + (m + tail)),
{
    let whole = m + tail;
    assert(whole[0] == m[0]);
    if sign.len() == 0 {
        assert(sign + m =~= m);
        assert(sign + whole =~= whole);
    } else {
        assert((sign + m)[0] == sign[0] && (sign + whole)[0] == sign[0]);
        assert((sign + m).skip(1) =~= m);
        assert((sign + whole).skip(1) =~= whole);
    }
    assert(whole.take(m.len() as int) =~= m);
    assert(whole.skip(m.len() as int) =~= tail);
    assert(unsigned(sign + m) == m);
    assert(unsigned(sign + whole) == whole);
    assert(is_decimal(whole));
}

/// A number that is not one of the words for an infinite number or for none holds, behind its
/// sign, digits, dots, signs and the letter `e` alone: it starts with a digit or a dot, and has a
/// digit in it.
pub proof fn law_numbers_are_digits(s: Seq<char>)
    requires
        is_number(s),
        !same_ignoring_case(unsigned(s), "inf"@),
        !same_ignoring_case(unsigned(s), "infinity"@),
        !same_ignoring_case(unsigned(s), "nan"@),
    ensures
        s.len() > 0,
        forall|i: int|
            0 <= i < s.len() ==> {
                ||| '0' <= #[trigger] s[i] <= '9'
                ||| s[i] == '.'
                ||| s[i] == 'e'
                ||| s[i] == 'E'
                ||| s[i] == '+'
                ||| s[i] == '-'
            },
        exists|i: int| 0 <= i < s.len() && '0' <= #[trigger] s[i] <= '9',
        s[0] != 'e' && s[0] != 'E',
{
    let u = unsigned(s);
    let shift: int = if u == s {
        0
    } else {
        1
    };
    assert forall|i: int| 0 <= i < u.len() implies #[trigger] u[i] == s[i + shift] by {}
    let at = if is_mantissa(u) {
        u.len() as int
    } else {
        choose|at: int|
            0 <= at < u.len() && is_mantissa(u.take(at)) && is_exponent(#[trigger] u.skip(at))
    };
    let m = u.take(at);
    assert(is_mantissa(u) ==> m =~= u);
    let k = lemma_mantissa(m);
    assert(u[k] == m[k] && u[0] == m[0]);
    assert(s[k + shift] == m[k]);
    assert forall|i: int| 0 <= i < u.len() implies {
        ||| '0' <= #[trigger] u[i] <= '9'
        ||| u[i] == '.'
        ||| u[i] == 'e'
        ||| u[i] == 'E'
        ||| u[i] == '+'
        ||| u[i] == '-'
    } by {
        if i < at {
            assert(u[i] == m[i]);
        } else {
            let x = u.skip(at);
            assert(x[i - at] == u[i]);
            let y = x.skip(1);
            if i > at {
                assert(y[i - at - 1] == u[i]);
                let z = unsigned(y);
                if z == y {
                    assert(is_digit(z[i - at - 1]));
                } else if i > at + 1 {
                    assert(z[i - at - 2] == u[i]);
                    assert(is_digit(z[i - at - 2]));
                } else {
                    assert(y[0] == u[i]);
                }
            }
        }
    }
    assert forall|i: int| 0 <= i < s.len() implies {
        ||| '0' <= #[trigger] s[i] <= '9'
        ||| s[i] == '.'
        ||| s[i] == 'e'
        ||| s[i] == 'E'
        ||| s[i] == '+'
        ||| s[i] == '-'
    } by {
        if i >= shift {
            assert(u[i - shift] == s[i]);
        }
    }
}

/// A mantissa has digits and dots alone, and a digit among them.
proof fn lemma_mantissa(m: Seq<char>) -> (k: int)
    requires
        is_mantissa(m),
    ensures
        0 <= k < m.len(),
        '0' <= m[k] <= '9',
        forall|i: int| 0 <= i < m.len() ==> '0' <= #[trigger] m[i] <= '9' || m[i] == '.',
{
    if m.len() > 0 && all_digits(m) {
        assert(is_digit(m[0]));
        0
    } else {
        let dot = choose|dot: int|
            {
                &&& 0 <= dot < m.len()
                &&& #[trigger] m[dot] == '.'
                &&& all_digits(m.take(dot))
                &&& all_digits(m.skip(dot + 1))
            };
        assert forall|i: int| 0 <= i < m.len() implies '0' <= #[trigger] m[i] <= '9' || m[i] == '.' by {
            if i < dot {
                assert(is_digit(m.take(dot)[i]));
            } else if i > dot {
                assert(is_digit(m.skip(dot + 1)[i - dot - 1]));
            }
        }
        if dot > 0 {
            assert(is_digit(m.take(dot)[0]));
            0
        } else {
            assert(is_digit(m.skip(dot + 1)[0]));
            1
        }
    }
}

/// The words for an infinite number and for none are numbers in any case, with or without a sign.
pub proof fn law_words_are_numbers(sign: Seq<char>, word: Seq<char>)
    requires
        sign.len() == 0 || sign == seq!['+'] || sign == seq!['-'],
        same_ignoring_case(word, "inf"@) || same_ignoring_case(word, "infinity"@)
            || same_ignoring_case(word, "nan"@),
    ensures
        is_number(sign + word),
{
    reveal_strlit("inf");
    reveal_strlit("infinity");
    reveal_strlit("nan");
    assert(word.len() > 0);
    assert(word[0] != '+' && word[0] != '-') by {
        if same_ignoring_case(word, "inf"@) {
            assert(crate::text::folded(word[0]) == crate::text::folded("inf"@[0]));
        } else if same_ignoring_case(word, "infinity"@) {
            assert(crate::text::folded(word[0]) == crate::text::folded("infinity"@[0]));
        } else {
            assert(crate::text::folded(word[0]) == crate::text::folded("nan"@[0]));
        }
    }
    if sign.len() == 0 {
        assert(sign + word =~= word);
    } else {
        assert((sign + word)[0] == sign[0]);
        assert((sign + word).skip(1) =~= word);
    }
}

/// Whether `s` is nothing, or one sign.
pub open spec fn is_sign(s: Seq<char>) -> bool {
    s.len() == 0 || s == seq!['+'] || s == seq!['-']
}

/// Whether `s` is one of the letters for an exponent, a sign or none, and at least one digit.
pub open spec fn raises(s: Seq<char>, sign: Seq<char>, digits: Seq<char>) -> bool {
    &&& s == seq!['e'] + sign + digits || s == seq!['E'] + sign + digits
    &&& is_sign(sign)
    &&& digits.len() > 0
    &&& forall|i: int| 0 <= i < digits.len() ==> '0' <= #[trigger] digits[i] <= '9'
}

/// Whether `s` is made of a sign or none, digits, a dot or none, digits again where there is a
/// dot, at least one digit in all, and what comes behind them.
pub open spec fn is_made_of(
    s: Seq<char>,
    sign: Seq<char>,
    whole: Seq<char>,
    dot: Seq<char>,
    fraction: Seq<char>,
    tail: Seq<char>,
) -> bool {
    &&& s == sign + (whole + dot + fraction + tail)
    &&& is_sign(sign)
    &&& dot == seq!['.'] || (dot.len() == 0 && fraction.len() == 0)
    &&& whole.len() + fraction.len() > 0
    &&& forall|i: int| 0 <= i < whole.len() ==> '0' <= #[trigger] whole[i] <= '9'
    &&& forall|i: int| 0 <= i < fraction.len() ==> '0' <= #[trigger] fraction[i] <= '9'
}

/// A number that is none of the words for an infinite number and for none has the parts of one:
/// a sign or none, digits with one dot or none, and behind them nothing or an exponent.
pub proof fn law_numbers_have_their_parts(s: Seq<char>)
    requires
        is_number(s),
    ensures
        same_ignoring_case(unsigned(s), "inf"@) || same_ignoring_case(unsigned(s), "infinity"@)
            || same_ignoring_case(unsigned(s), "nan"@) || exists|
            sign: Seq<char>,
            whole: Seq<char>,
            dot: Seq<char>,
            fraction: Seq<char>,
            tail: Seq<char>,
        |
            {
                &&& #[trigger] is_made_of(s, sign, whole, dot, fraction, tail)
                &&& tail.len() == 0 || exists|e_sign: Seq<char>, digits: Seq<char>| #[trigger]
                    raises(tail, e_sign, digits)
            },
        unsigned(s) == s || s == seq!['+'] + unsigned(s) || s == seq!['-'] + unsigned(s),
{
    let u = unsigned(s);
    let sign = lemma_sign(s);
    if is_decimal(u) {
        let at = if is_mantissa(u) {
            u.len() as int
        } else {
            choose|at: int|
                0 <= at < u.len() && is_mantissa(u.take(at)) && is_exponent(#[trigger] u.skip(at))
        };
        let (m, tail) = (u.take(at), u.skip(at));
        assert(is_mantissa(u) ==> m =~= u);
        assert(u =~= m + tail);
        if !is_mantissa(u) {
            lemma_exponent_parts(tail);
        }
        let (whole, dot, fraction) = lemma_mantissa_parts(m);
        assert(is_made_of(s, sign, whole, dot, fraction, tail));
    }
}

/// What stands before the rest of a text is its sign.
proof fn lemma_sign(s: Seq<char>) -> (sign: Seq<char>)
    ensures
        is_sign(sign),
        s == sign + unsigned(s),
{
    let u = unsigned(s);
    let sign = s.take(s.len() - u.len());
    assert(s =~= sign + u);
    if sign.len() > 0 {
        assert(sign =~= seq!['+'] || sign =~= seq!['-']);
    }
    sign
}

proof fn lemma_exponent_parts(tail: Seq<char>)
    requires
        is_exponent(tail),
    ensures
        exists|e_sign: Seq<char>, digits: Seq<char>| #[trigger] raises(tail, e_sign, digits),
{
    let rest = tail.skip(1);
    let e_sign = lemma_sign(rest);
    let digits = unsigned(rest);
    assert(tail =~= seq![tail[0]] + e_sign + digits);
    assert forall|i: int| 0 <= i < digits.len() implies '0' <= #[trigger] digits[i] <= '9' by {
        assert(is_digit(digits[i]));
    }
    assert(raises(tail, e_sign, digits));
}

proof fn lemma_mantissa_parts(m: Seq<char>) -> (parts: (Seq<char>, Seq<char>, Seq<char>))
    requires
        is_mantissa(m),
    ensures
        m == parts.0 + parts.1 + parts.2,
        parts.1 == seq!['.'] || (parts.1.len() == 0 && parts.2.len() == 0),
        parts.0.len() + parts.2.len() > 0,
        forall|i: int| 0 <= i < parts.0.len() ==> '0' <= #[trigger] parts.0[i] <= '9',
        forall|i: int| 0 <= i < parts.2.len() ==> '0' <= #[trigger] parts.2[i] <= '9',
{
    let none = Seq::<char>::empty();
    if m.len() > 0 && all_digits(m) {
        assert(m + none + none =~= m);
        assert forall|i: int| 0 <= i < m.len() implies '0' <= #[trigger] m[i] <= '9' by {
            assert(is_digit(m[i]));
        }
        (m, none, none)
    } else {
        let dot = choose|dot: int|
            {
                &&& 0 <= dot < m.len()
                &&& #[trigger] m[dot] == '.'
                &&& all_digits(m.take(dot))
                &&& all_digits(m.skip(dot + 1))
            };
        let (whole, fraction) = (m.take(dot), m.skip(dot + 1));
        assert(whole + seq!['.'] + fraction =~= m);
        assert forall|i: int| 0 <= i < whole.len() implies '0' <= #[trigger] whole[i] <= '9' by {
            assert(is_digit(whole[i]));
        }
        assert forall|i: int| 0 <= i < fraction.len() implies '0' <= #[trigger] fraction[i] <= '9' by {
            assert(is_digit(fraction[i]));
        }
        (whole, seq!['.'], fraction)
    }
}

} // verus!
