//! Text as a sequence of characters: comparison, search, and building.

use vstd::prelude::*;
use vstd::utf8::{encode_utf8, is_ascii_chars, valid_utf8};

verus! {

/// `String::push`: the character becomes the last one of the string.
pub assume_specification[ String::push ](s: &mut String, c: char)
    ensures
        final(s)@ == old(s)@.push(c),
;

/// The text `s` in lower case, as `str::to_lowercase` gives it.
pub uninterp spec fn lowercased(s: Seq<char>) -> Seq<char>;

/// `str::to_lowercase`: the text in lower case by the Unicode rules, which go by the name
/// `lowercased`. In a text of ASCII characters only `A` to `Z` change, each to its small letter.
#[verifier::external_body]
pub(crate) fn to_lower(s: &str) -> (r: String)
    ensures
        r@ == lowercased(s@),
        is_ascii_chars(s@) ==> r@.len() == s@.len() && forall|i: int|
            0 <= i < s@.len() ==> #[trigger] r@[i] as u32 == folded(s@[i]),
{
    s.to_lowercase()
}

/// `String::from_utf8`: the text that the bytes encode, or `None` where they are no UTF-8.
#[verifier::external_body]
pub(crate) fn decode_text(bytes: Vec<u8>) -> (r: Option<String>)
    ensures
        match r {
            Some(t) => valid_utf8(bytes@) && encode_utf8(t@) == bytes@,
            None => !valid_utf8(bytes@),
        },
{
    String::from_utf8(bytes).ok()
}

/// The code point of `c`, with `A` to `Z` taken as `a` to `z`.
pub open spec fn folded(c: char) -> u32 {
    if 0x41 <= c as u32 <= 0x5a {
        (c as u32 + 0x20) as u32
    } else {
        c as u32
    }
}

/// Whether two texts are the same but for the case of their ASCII letters.
pub open spec fn same_ignoring_case(a: Seq<char>, b: Seq<char>) -> bool {
    &&& a.len() == b.len()
    &&& forall|i: int| 0 <= i < a.len() ==> folded(#[trigger] a[i]) == folded(b[i])
}

/// Whether `pattern` stands in `s` at position `at`.
pub open spec fn occurs_at(s: Seq<char>, pattern: Seq<char>, at: int) -> bool {
    &&& 0 <= at
    &&& at + pattern.len() <= s.len()
    &&& s.subrange(at, at + pattern.len()) == pattern
}

/// Whether `pattern` stands anywhere in `s`.
pub open spec fn has_text(s: Seq<char>, pattern: Seq<char>) -> bool {
    exists|at: int| occurs_at(s, pattern, at)
}

/// The first position from `from` on at which `pattern` stands in `s`.
pub open spec fn first_from(s: Seq<char>, pattern: Seq<char>, from: int) -> Option<int>
    decreases s.len() - from + 1,
{
    if from + pattern.len() > s.len() {
        None
    } else if occurs_at(s, pattern, from) {
        Some(from)
    } else {
        first_from(s, pattern, from + 1)
    }
}

/// Whether `s` ends in `pattern`.
pub open spec fn ends_in(s: Seq<char>, pattern: Seq<char>) -> bool {
    occurs_at(s, pattern, s.len() - pattern.len())
}

/// `s` with `by` in place of `pattern` wherever it stands, read from the left.
pub open spec fn replaced(s: Seq<char>, pattern: Seq<char>, by: Seq<char>) -> Seq<char>
    decreases s.len(),
{
    if s.len() == 0 || pattern.len() == 0 {
        s
    } else if occurs_at(s, pattern, 0) {
        by + replaced(s.skip(pattern.len() as int), pattern, by)
    } else {
        seq![s[0]] + replaced(s.skip(1), pattern, by)
    }
}

/// Whether `a` comes before `b` in the order of texts, which goes by the first character in
/// which they differ.
pub open spec fn text_before(a: Seq<char>, b: Seq<char>) -> bool
    decreases a.len(),
{
    if b.len() == 0 {
        false
    } else if a.len() == 0 {
        true
    } else if a[0] == b[0] {
        text_before(a.skip(1), b.skip(1))
    } else {
        a[0] < b[0]
    }
}

/// The white space of Unicode.
pub open spec fn is_white_space(c: char) -> bool {
    let n = c as u32;
    ||| 0x09 <= n <= 0x0d
    ||| n == 0x20
    ||| n == 0x85
    ||| n == 0xa0
    ||| n == 0x1680
    ||| 0x2000 <= n <= 0x200a
    ||| n == 0x2028
    ||| n == 0x2029
    ||| n == 0x202f
    ||| n == 0x205f
    ||| n == 0x3000
}

/// `s` without the white space at its start.
pub open spec fn trimmed_start(s: Seq<char>) -> Seq<char>
    decreases s.len(),
{
    if s.len() > 0 && is_white_space(s[0]) {
        trimmed_start(s.skip(1))
    } else {
        s
    }
}

/// `s` without the white space at its end.
pub open spec fn trimmed_end(s: Seq<char>) -> Seq<char>
    decreases s.len(),
{
    if s.len() > 0 && is_white_space(s.last()) {
        trimmed_end(s.drop_last())
    } else {
        s
    }
}

/// `s` without the white space at its two ends.
pub open spec fn trimmed(s: Seq<char>) -> Seq<char> {
    trimmed_end(trimmed_start(s))
}

/// Of two texts, one comes before the other, or they are the same; never each before the other.
pub proof fn lemma_text_order_is_total(a: Seq<char>, b: Seq<char>)
    ensures
        a == b || text_before(a, b) || text_before(b, a),
        !(text_before(a, b) && text_before(b, a)),
    decreases a.len() + b.len(),
{
    if a.len() > 0 && b.len() > 0 && a[0] == b[0] {
        lemma_text_order_is_total(a.skip(1), b.skip(1));
        if a.skip(1) == b.skip(1) {
            assert(a =~= seq![a[0]] + a.skip(1));
            assert(b =~= seq![b[0]] + b.skip(1));
        }
    } else if a.len() == 0 && b.len() == 0 {
        assert(a =~= b);
    }
}

/// What comes before a text comes before all that come after it.
pub proof fn lemma_text_order_is_transitive(a: Seq<char>, b: Seq<char>, c: Seq<char>)
    requires
        text_before(a, b),
        text_before(b, c),
    ensures
        text_before(a, c),
    decreases a.len(),
{
    if a.len() > 0 && a[0] == b[0] && b[0] == c[0] {
        lemma_text_order_is_transitive(a.skip(1), b.skip(1), c.skip(1));
    }
}

/// Two texts with the same UTF-8 encoding are the same.
pub proof fn lemma_encoding_decides(a: Seq<char>, b: Seq<char>)
    requires
        encode_utf8(a) == encode_utf8(b),
    ensures
        a == b,
{
    vstd::utf8::encode_utf8_decode_utf8(a);
    vstd::utf8::encode_utf8_decode_utf8(b);
}

/// What `first_from` finds is an occurrence, and the first one.
pub proof fn lemma_first_from(s: Seq<char>, pattern: Seq<char>, from: int)
    requires
        0 <= from,
    ensures
        match first_from(s, pattern, from) {
            Some(at) => {
                &&& from <= at
                &&& occurs_at(s, pattern, at)
                &&& forall|k: int| from <= k < at ==> !occurs_at(s, pattern, k)
            },
            None => forall|k: int| from <= k ==> !occurs_at(s, pattern, k),
        },
    decreases s.len() - from + 1,
{
    if from + pattern.len() <= s.len() && !occurs_at(s, pattern, from) {
        lemma_first_from(s, pattern, from + 1);
    }
}

/// The first occurrence is the only position with nothing before it.
pub proof fn lemma_first_from_is(s: Seq<char>, pattern: Seq<char>, from: int, at: int)
    requires
        0 <= from <= at,
        occurs_at(s, pattern, at),
        forall|k: int| from <= k < at ==> !occurs_at(s, pattern, k),
    ensures
        first_from(s, pattern, from) == Some(at),
{
    lemma_first_from(s, pattern, from);
}

/// Where the pattern does not stand, nothing is replaced.
pub proof fn lemma_replaced_unchanged(s: Seq<char>, pattern: Seq<char>, by: Seq<char>)
    requires
        !has_text(s, pattern),
    ensures
        replaced(s, pattern, by) == s,
    decreases s.len(),
{
    if s.len() > 0 && pattern.len() > 0 {
        assert(!occurs_at(s, pattern, 0));
        assert forall|at: int| !occurs_at(s.skip(1), pattern, at) by {
            if occurs_at(s.skip(1), pattern, at) {
                assert(s.subrange(at + 1, at + 1 + pattern.len()) =~= s.skip(1).subrange(
                    at,
                    at + pattern.len(),
                ));
                assert(occurs_at(s, pattern, at + 1));
            }
        }
        lemma_replaced_unchanged(s.skip(1), pattern, by);
        assert(seq![s[0]] + s.skip(1) =~= s);
    }
}

/// Whether the character `q` never follows `p` in `s`.
pub open spec fn no_pair(s: Seq<char>, p: char, q: char) -> bool {
    forall|i: int| 0 <= i < s.len() - 1 ==> !(#[trigger] s[i] == p && s[i + 1] == q)
}

/// A pattern of two characters stands where the second follows the first.
pub proof fn lemma_occurs_pair(s: Seq<char>, pattern: Seq<char>, at: int)
    requires
        pattern.len() == 2,
    ensures
        occurs_at(s, pattern, at) <==> {
            &&& 0 <= at < s.len() - 1
            &&& s[at] == pattern[0]
            &&& s[at + 1] == pattern[1]
        },
{
    if 0 <= at < s.len() - 1 {
        let part = s.subrange(at, at + 2);
        assert(part[0] == s[at] && part[1] == s[at + 1]);
        if s[at] == pattern[0] && s[at + 1] == pattern[1] {
            assert(part =~= pattern);
        }
    }
}

/// A pattern of two characters stands nowhere where the second never follows the first.
pub proof fn lemma_has_pair(s: Seq<char>, pattern: Seq<char>)
    requires
        pattern.len() == 2,
    ensures
        has_text(s, pattern) <==> !no_pair(s, pattern[0], pattern[1]),
{
    if has_text(s, pattern) {
        let at = choose|at: int| occurs_at(s, pattern, at);
        lemma_occurs_pair(s, pattern, at);
    }
    if !no_pair(s, pattern[0], pattern[1]) {
        let at = choose|at: int|
            0 <= at < s.len() - 1 && #[trigger] s[at] == pattern[0] && s[at + 1] == pattern[1];
        lemma_occurs_pair(s, pattern, at);
    }
}

/// To replace a pattern of two characters leaves `q` never behind `p`, where these are the
/// pattern or were never so, and where what is put in brings no such pair with it.
pub proof fn lemma_replaced_no_pair(
    s: Seq<char>,
    pattern: Seq<char>,
    by: Seq<char>,
    p: char,
    q: char,
)
    requires
        pattern.len() == 2,
        by.len() > 0,
        no_pair(by, p, q),
        by.last() != p,
        by[0] == pattern[0] || by[0] != q,
        (p == pattern[0] && q == pattern[1]) || no_pair(s, p, q),
    ensures
        no_pair(replaced(s, pattern, by), p, q),
        s.len() > 0 ==> {
            let r = replaced(s, pattern, by);
            &&& r.len() > 0
            &&& r[0] == s[0] || (s[0] == pattern[0] && r[0] == by[0])
        },
    decreases s.len(),
{
    if s.len() > 0 {
        lemma_occurs_pair(s, pattern, 0);
        let step: int = if occurs_at(s, pattern, 0) {
            2
        } else {
            1
        };
        let rest = s.skip(step);
        assert forall|i: int| 0 <= i < rest.len() - 1 && no_pair(s, p, q) implies !(
        #[trigger] rest[i] == p && rest[i + 1] == q) by {
            assert(rest[i] == s[i + step]);
        }
        lemma_replaced_no_pair(rest, pattern, by, p, q);
        let tail = replaced(rest, pattern, by);
        let r = replaced(s, pattern, by);
        if occurs_at(s, pattern, 0) {
            assert forall|i: int| 0 <= i < r.len() - 1 implies !(#[trigger] r[i] == p && r[i + 1]
                == q) by {
                if i + 1 < by.len() {
                    assert(r[i] == by[i]);
                } else if i >= by.len() {
                    assert(r[i] == tail[i - by.len()]);
                }
            }
        } else {
            if s.len() > 1 {
                assert(rest[0] == s[1]);
            }
            assert forall|i: int| 0 <= i < r.len() - 1 implies !(#[trigger] r[i] == p && r[i + 1]
                == q) by {
                if i > 0 {
                    assert(r[i] == tail[i - 1]);
                } else {
                    assert(r[0] == s[0]);
                    assert(r[1] == tail[0]);
                    assert(s.len() > 1);
                }
            }
        }
    }
}

/// The characters of `s`, in order.
pub fn chars_of(s: &str) -> (r: Vec<char>)
    ensures
        r@ == s@,
{
    let mut out: Vec<char> = Vec::new();
    for c in it: s.chars()
        invariant
            it.seq() == s@,
            out@ == s@.take(it.index()),
    {
        out.push(c);
        assert(out@ =~= s@.take(it.index() + 1));
    }
    assert(s@.take(s@.len() as int) =~= s@);
    out
}

/// The string with the given characters.
pub fn string_of(chars: &Vec<char>) -> (r: String)
    ensures
        r@ == chars@,
{
    let mut out = String::new();
    let mut i: usize = 0;
    while i < chars.len()
        invariant
            i <= chars.len(),
            out@ == chars@.take(i as int),
        decreases chars.len() - i,
    {
        out.push(chars[i]);
        i = i + 1;
        assert(out@ =~= chars@.take(i as int));
    }
    assert(chars@.take(i as int) =~= chars@);
    out
}

/// A string of its own with the characters of `s`.
pub fn copy_of(s: &str) -> (r: String)
    ensures
        r@ == s@,
{
    let mut out = String::new();
    out.append(s);
    assert(out@ =~= s@);
    out
}

/// Whether `pattern` stands in `s` at position `at`.
pub fn stands_at(s: &Vec<char>, pattern: &Vec<char>, at: usize) -> (r: bool)
    ensures
        r == occurs_at(s@, pattern@, at as int),
{
    if pattern.len() > s.len() || at > s.len() - pattern.len() {
        return false;
    }
    let mut i: usize = 0;
    while i < pattern.len()
        invariant
            i <= pattern.len(),
            at + pattern.len() <= s.len(),
            forall|k: int| 0 <= k < i ==> s@[at + k] == pattern@[k],
        decreases pattern.len() - i,
    {
        if s[at + i] != pattern[i] {
            assert(s@.subrange(at as int, at + pattern@.len())[i as int] != pattern@[i as int]);
            return false;
        }
        i = i + 1;
    }
    assert(s@.subrange(at as int, at + pattern@.len()) =~= pattern@);
    true
}

/// The first position from `from` on at which `pattern` stands in `s`.
pub fn find_from(s: &Vec<char>, pattern: &Vec<char>, from: usize) -> (r: Option<usize>)
    ensures
        match r {
            Some(at) => first_from(s@, pattern@, from as int) == Some(at as int),
            None => first_from(s@, pattern@, from as int) is None,
        },
{
    let mut i: usize = from;
    while pattern.len() <= s.len() && i <= s.len() - pattern.len()
        invariant
            from <= i,
            first_from(s@, pattern@, from as int) == first_from(s@, pattern@, i as int),
        decreases s.len() + 1 - i,
    {
        if stands_at(s, pattern, i) {
            return Some(i);
        }
        if i == usize::MAX {
            assert(first_from(s@, pattern@, i + 1) is None);
            return None;
        }
        i = i + 1;
    }
    None
}

/// `s` with `by` in place of `pattern` wherever it stands, read from the left.
pub fn replace_text(s: &Vec<char>, pattern: &str, by: &str) -> (r: Vec<char>)
    requires
        pattern@.len() > 0,
    ensures
        r@ == replaced(s@, pattern@, by@),
{
    let wanted = chars_of(pattern);
    let instead = chars_of(by);
    let mut out: Vec<char> = Vec::new();
    let mut i: usize = 0;
    assert(s@.skip(0) =~= s@);
    assert(out@ + replaced(s@, pattern@, by@) =~= replaced(s@, pattern@, by@));
    while i < s.len()
        invariant
            i <= s.len(),
            wanted@ == pattern@,
            instead@ == by@,
            wanted@.len() > 0,
            out@ + replaced(s@.skip(i as int), pattern@, by@) == replaced(s@, pattern@, by@),
        decreases s.len() - i,
    {
        let ghost rest = s@.skip(i as int);
        let ghost before = out@;
        let found = stands_at(s, &wanted, i);
        proof {
            if wanted@.len() <= rest.len() {
                assert(rest.subrange(0, wanted@.len() as int) =~= s@.subrange(
                    i as int,
                    i + wanted@.len(),
                ));
            }
            assert(found == occurs_at(rest, pattern@, 0));
        }
        if found {
            push_all(&mut out, &instead);
            i = i + wanted.len();
            assert(rest.skip(wanted@.len() as int) =~= s@.skip(i as int));
            assert(before + (by@ + replaced(s@.skip(i as int), pattern@, by@)) =~= out@ + replaced(
                s@.skip(i as int),
                pattern@,
                by@,
            ));
        } else {
            out.push(s[i]);
            i = i + 1;
            assert(rest.skip(1) =~= s@.skip(i as int));
            assert(before + (seq![rest[0]] + replaced(s@.skip(i as int), pattern@, by@)) =~= out@
                + replaced(s@.skip(i as int), pattern@, by@));
        }
    }
    assert(s@.skip(i as int) =~= Seq::<char>::empty());
    assert(out@ + replaced(s@.skip(i as int), pattern@, by@) =~= out@);
    out
}

/// Adds the characters of `more` behind those of `out`.
pub fn push_all(out: &mut Vec<char>, more: &Vec<char>)
    ensures
        final(out)@ == old(out)@ + more@,
{
    let ghost before = out@;
    let mut i: usize = 0;
    assert(before + more@.take(0) =~= before);
    while i < more.len()
        invariant
            i <= more.len(),
            out@ == before + more@.take(i as int),
        decreases more.len() - i,
    {
        out.push(more[i]);
        i = i + 1;
        assert(out@ =~= before + more@.take(i as int));
    }
    assert(more@.take(i as int) =~= more@);
}

/// The characters of `s` from `from` up to `to`.
pub fn part_of(s: &Vec<char>, from: usize, to: usize) -> (r: Vec<char>)
    requires
        from <= to <= s.len(),
    ensures
        r@ == s@.subrange(from as int, to as int),
{
    let mut out: Vec<char> = Vec::new();
    let mut i: usize = from;
    while i < to
        invariant
            from <= i <= to <= s.len(),
            out@ == s@.subrange(from as int, i as int),
        decreases to - i,
    {
        out.push(s[i]);
        i = i + 1;
        assert(out@ =~= s@.subrange(from as int, i as int));
    }
    out
}

fn white_space(c: char) -> (r: bool)
    ensures
        r == is_white_space(c),
{
    let n: u32 = c as u32;
    (0x09 <= n && n <= 0x0d) || n == 0x20 || n == 0x85 || n == 0xa0 || n == 0x1680 || (0x2000 <= n
        && n <= 0x200a) || n == 0x2028 || n == 0x2029 || n == 0x202f || n == 0x205f || n == 0x3000
}

/// The characters of `s` without the white space at its two ends.
pub fn trim_text(s: &str) -> (r: Vec<char>)
    ensures
        r@ == trimmed(s@),
{
    let x = chars_of(s);
    let mut start: usize = 0;
    assert(x@.skip(0) =~= x@);
    while start < x.len() && white_space(x[start])
        invariant
            start <= x.len(),
            trimmed_start(x@) == trimmed_start(x@.skip(start as int)),
        decreases x.len() - start,
    {
        assert(x@.skip(start as int).skip(1) =~= x@.skip(start + 1));
        start = start + 1;
    }
    let mut end: usize = x.len();
    assert(x@.subrange(start as int, end as int) =~= x@.skip(start as int));
    while start < end && white_space(x[end - 1])
        invariant
            start <= end <= x.len(),
            trimmed_end(trimmed_start(x@)) == trimmed_end(x@.subrange(start as int, end as int)),
        decreases end - start,
    {
        assert(x@.subrange(start as int, end as int).drop_last() =~= x@.subrange(
            start as int,
            end - 1,
        ));
        end = end - 1;
    }
    part_of(&x, start, end)
}

/// Whether two texts have the same characters.
pub fn same_text(a: &str, b: &str) -> (r: bool)
    ensures
        r == (a@ == b@),
{
    let x = chars_of(a);
    let y = chars_of(b);
    if x.len() != y.len() {
        return false;
    }
    let r = stands_at(&x, &y, 0);
    assert(x@.subrange(0, y@.len() as int) =~= x@);
    r
}

/// Whether `a` comes before `b` in the order of texts.
pub fn is_before(a: &str, b: &str) -> (r: bool)
    ensures
        r == text_before(a@, b@),
{
    let x = chars_of(a);
    let y = chars_of(b);
    let mut i: usize = 0;
    assert(x@.skip(0) =~= x@);
    assert(y@.skip(0) =~= y@);
    while i < x.len() && i < y.len() && x[i] == y[i]
        invariant
            i <= x.len(),
            i <= y.len(),
            text_before(x@, y@) == text_before(x@.skip(i as int), y@.skip(i as int)),
        decreases x.len() - i,
    {
        assert(x@.skip(i as int).skip(1) =~= x@.skip(i + 1));
        assert(y@.skip(i as int).skip(1) =~= y@.skip(i + 1));
        i = i + 1;
    }
    if i == y.len() {
        false
    } else if i == x.len() {
        true
    } else {
        x[i] < y[i]
    }
}

/// Whether `pattern` stands anywhere in `s`.
pub fn contains_text(s: &str, pattern: &str) -> (r: bool)
    ensures
        r == has_text(s@, pattern@),
{
    let x = chars_of(s);
    let y = chars_of(pattern);
    proof {
        lemma_first_from(x@, y@, 0);
    }
    let r = find_from(&x, &y, 0).is_some();
    r
}

/// Whether `s` ends in `pattern`.
pub fn ends_with_text(s: &str, pattern: &str) -> (r: bool)
    ensures
        r == ends_in(s@, pattern@),
{
    let x = chars_of(s);
    let y = chars_of(pattern);
    if y.len() > x.len() {
        return false;
    }
    stands_at(&x, &y, x.len() - y.len())
}

/// The code point of `c`, with `A` to `Z` taken as `a` to `z`.
fn fold(c: char) -> (r: u32)
    ensures
        r == folded(c),
{
    let n: u32 = c as u32;
    if 0x41 <= n && n <= 0x5a {
        n + 0x20
    } else {
        n
    }
}

/// Whether two texts are the same but for the case of their ASCII letters.
pub fn eq_ignoring_case(a: &Vec<char>, b: &str) -> (r: bool)
    ensures
        r == same_ignoring_case(a@, b@),
{
    let y = chars_of(b);
    if a.len() != y.len() {
        return false;
    }
    let mut i: usize = 0;
    while i < a.len()
        invariant
            i <= a.len(),
            a.len() == y.len(),
            y@ == b@,
            forall|k: int| 0 <= k < i ==> folded(#[trigger] a@[k]) == folded(y@[k]),
        decreases a.len() - i,
    {
        if fold(a[i]) != fold(y[i]) {
            assert(folded(a@[i as int]) != folded(b@[i as int]));
            return false;
        }
        i = i + 1;
    }
    true
}

/// A text holds a pattern where it is something, the pattern, and something.
pub proof fn law_has_text_is_containment(a: Seq<char>, pattern: Seq<char>, b: Seq<char>)
    ensures
        has_text(a + pattern + b, pattern),
        ends_in(a + pattern, pattern),
{
    assert((a + pattern + b).subrange(a.len() as int, a.len() as int + pattern.len()) =~= pattern);
    assert(occurs_at(a + pattern + b, pattern, a.len() as int));
    assert((a + pattern).subrange(a.len() as int, a.len() as int + pattern.len()) =~= pattern);
}

/// A text that holds a pattern is something, the pattern, and something; and one that ends in it
/// is something and the pattern.
pub proof fn law_contained_text_splits(s: Seq<char>, pattern: Seq<char>)
    ensures
        has_text(s, pattern) ==> exists|a: Seq<char>, b: Seq<char>| s == #[trigger] (a + pattern + b),
        ends_in(s, pattern) ==> exists|a: Seq<char>| s == #[trigger] (a + pattern),
{
    if has_text(s, pattern) {
        let at = choose|at: int| occurs_at(s, pattern, at);
        let (a, b) = (s.take(at), s.skip(at + pattern.len()));
        assert(s =~= a + pattern + b);
    }
    if ends_in(s, pattern) {
        let a = s.take(s.len() - pattern.len());
        assert(s =~= a + pattern);
    }
}

/// A text comes before those that go on from it, and otherwise the first character in which two
/// texts differ decides.
pub proof fn law_text_order_is_that_of_characters(
    p: Seq<char>,
    x: char,
    y: char,
    a: Seq<char>,
    b: Seq<char>,
)
    requires
        x != y,
    ensures
        text_before(p, p.push(x) + a),
        !text_before(p.push(x) + a, p),
        text_before(p.push(x) + a, p.push(y) + b) == (x < y),
    decreases p.len(),
{
    let (s, t) = (p.push(x) + a, p.push(y) + b);
    assert(s[p.len() as int] == x && t[p.len() as int] == y);
    if p.len() > 0 {
        let rest = p.skip(1);
        law_text_order_is_that_of_characters(rest, x, y, a, b);
        assert(s[0] == p[0] && t[0] == p[0]);
        assert(s.skip(1) =~= rest.push(x) + a);
        assert(t.skip(1) =~= rest.push(y) + b);
    }
}

/// What is left of a text between white space is the text.
pub proof fn law_white_space_is_trimmed(a: Seq<char>, s: Seq<char>, b: Seq<char>)
    requires
        forall|i: int| 0 <= i < a.len() ==> is_white_space(#[trigger] a[i]),
        forall|i: int| 0 <= i < b.len() ==> is_white_space(#[trigger] b[i]),
        s.len() > 0 ==> !is_white_space(s[0]) && !is_white_space(s.last()),
    ensures
        trimmed(a + s + b) == s,
    decreases a.len() + b.len(),
{
    let whole = a + s + b;
    if a.len() > 0 {
        assert(whole[0] == a[0]);
        let rest = a.skip(1);
        assert forall|i: int| 0 <= i < rest.len() implies is_white_space(#[trigger] rest[i]) by {
            assert(rest[i] == a[i + 1]);
        }
        assert(whole.skip(1) =~= rest + s + b);
        law_white_space_is_trimmed(rest, s, b);
    } else if s.len() == 0 {
        if b.len() > 0 {
            assert(whole =~= b);
            assert(whole[0] == b[0]);
            let rest = b.skip(1);
            assert forall|i: int| 0 <= i < rest.len() implies is_white_space(#[trigger] rest[i]) by {
                assert(rest[i] == b[i + 1]);
            }
            assert(whole.skip(1) =~= a + s + rest);
            law_white_space_is_trimmed(a, s, rest);
        } else {
            assert(whole =~= s);
        }
    } else {
        assert(whole[0] == s[0]);
        assert(trimmed_start(whole) == whole);
        if b.len() > 0 {
            assert(whole.last() == b.last() && b.last() == b[b.len() - 1]);
            let rest = b.drop_last();
            assert forall|i: int| 0 <= i < rest.len() implies is_white_space(#[trigger] rest[i]) by {
                assert(rest[i] == b[i]);
            }
            law_white_space_is_trimmed(a, s, rest);
            let shorter = a + s + rest;
            assert(whole.drop_last() =~= shorter);
            assert(shorter[0] == s[0]);
            assert(trimmed_start(shorter) == shorter);
        } else {
            assert(whole =~= s);
        }
    }
}

/// The white space is that of ASCII, the next line and the line and paragraph separators, and the
/// spaces of any width, and no other character is.
pub proof fn law_white_space_is_of_these_characters(c: char)
    ensures
        is_white_space(c) <==> {
            ||| c == '\t'
            ||| c == '\n'
            ||| c == '\u{b}'
            ||| c == '\u{c}'
            ||| c == '\r'
            ||| c == ' '
            ||| c == '\u{85}'
            ||| c == '\u{a0}'
            ||| c == '\u{1680}'
            ||| '\u{2000}' <= c <= '\u{200a}'
            ||| c == '\u{2028}'
            ||| c == '\u{2029}'
            ||| c == '\u{202f}'
            ||| c == '\u{205f}'
            ||| c == '\u{3000}'
        },
{
    vstd::utf8::char_u32_cast(c, c as u32);
}

/// The first place where a pattern stands is replaced, and what follows it is treated alike.
pub proof fn law_first_occurrence_is_replaced(
    a: Seq<char>,
    pattern: Seq<char>,
    b: Seq<char>,
    by: Seq<char>,
)
    requires
        pattern.len() > 0,
        forall|k: int| 0 <= k < a.len() ==> !#[trigger] occurs_at(a + pattern + b, pattern, k),
    ensures
        replaced(a + pattern + b, pattern, by) == a + by + replaced(b, pattern, by),
    decreases a.len(),
{
    let s = a + pattern + b;
    if a.len() == 0 {
        assert(s.subrange(0, pattern.len() as int) =~= pattern);
        assert(s.skip(pattern.len() as int) =~= b);
        assert(a + by + replaced(b, pattern, by) =~= by + replaced(b, pattern, by));
    } else {
        let rest = a.skip(1);
        let shorter = rest + pattern + b;
        assert(s.skip(1) =~= shorter);
        assert forall|k: int| 0 <= k < rest.len() implies !#[trigger] occurs_at(
            shorter,
            pattern,
            k,
        ) by {
            assert(!occurs_at(s, pattern, k + 1));
            if occurs_at(shorter, pattern, k) {
                assert(s.subrange(k + 1, k + 1 + pattern.len()) =~= shorter.subrange(
                    k,
                    k + pattern.len(),
                ));
            }
        }
        law_first_occurrence_is_replaced(rest, pattern, b, by);
        assert(!occurs_at(s, pattern, 0));
        assert(s[0] == a[0]);
        assert(seq![s[0]] + (rest + by + replaced(b, pattern, by)) =~= a + by + replaced(
            b,
            pattern,
            by,
        ));
    }
}

/// Where a pattern of two characters stands in neither end across the seam, two texts are treated
/// each for itself.
pub proof fn lemma_replaced_adds_up(
    a: Seq<char>,
    b: Seq<char>,
    pattern: Seq<char>,
    by: Seq<char>,
)
    requires
        pattern.len() == 2,
        !(a.len() > 0 && b.len() > 0 && a.last() == pattern[0] && b[0] == pattern[1]),
    ensures
        replaced(a + b, pattern, by) == replaced(a, pattern, by) + replaced(b, pattern, by),
    decreases a.len(),
{
    let s = a + b;
    lemma_occurs_pair(s, pattern, 0);
    lemma_occurs_pair(a, pattern, 0);
    if a.len() == 0 {
        assert(s =~= b);
        assert(replaced(a, pattern, by) + replaced(b, pattern, by) =~= replaced(b, pattern, by));
    } else {
        assert(s[0] == a[0]);
        if a.len() == 1 {
            assert(a.last() == a[0]);
            if b.len() > 0 {
                assert(s[1] == b[0]);
            }
            assert(!occurs_at(s, pattern, 0));
        } else {
            assert(s[1] == a[1]);
        }
        assert(occurs_at(s, pattern, 0) == occurs_at(a, pattern, 0));
        let step: int = if occurs_at(a, pattern, 0) {
            2
        } else {
            1
        };
        let rest = a.skip(step);
        if rest.len() > 0 {
            assert(rest.last() == a.last());
        }
        assert(s.skip(step) =~= rest + b);
        lemma_replaced_adds_up(rest, b, pattern, by);
        let (x, y) = (replaced(rest, pattern, by), replaced(b, pattern, by));
        if occurs_at(a, pattern, 0) {
            assert(by + (x + y) =~= (by + x) + y);
        } else {
            assert(seq![s[0]] + (x + y) =~= (seq![a[0]] + x) + y);
        }
    }
}

/// Two texts are the same but for case where each character of one is that of the other, or the
/// capital or small letter of ASCII that goes with it.
pub proof fn law_case_of_letters_is_ignored(a: Seq<char>, b: Seq<char>)
    ensures
        same_ignoring_case(a, b) <==> a.len() == b.len() && forall|i: int|
            0 <= i < a.len() ==> {
                ||| #[trigger] a[i] == b[i]
                ||| 'A' <= a[i] <= 'Z' && b[i] as u32 == a[i] as u32 + 0x20
                ||| 'A' <= b[i] <= 'Z' && a[i] as u32 == b[i] as u32 + 0x20
            },
{
    if a.len() == b.len() {
        assert forall|i: int| 0 <= i < a.len() implies (folded(#[trigger] a[i]) == folded(b[i])
            <==> {
            ||| a[i] == b[i]
            ||| 'A' <= a[i] <= 'Z' && b[i] as u32 == a[i] as u32 + 0x20
            ||| 'A' <= b[i] <= 'Z' && a[i] as u32 == b[i] as u32 + 0x20
        }) by {
            lemma_folded(a[i], b[i]);
        }
        if same_ignoring_case(a, b) {
            assert forall|i: int| 0 <= i < a.len() implies {
                ||| #[trigger] a[i] == b[i]
                ||| 'A' <= a[i] <= 'Z' && b[i] as u32 == a[i] as u32 + 0x20
                ||| 'A' <= b[i] <= 'Z' && a[i] as u32 == b[i] as u32 + 0x20
            } by {
                assert(folded(a[i]) == folded(b[i]));
            }
        }
    }
}

proof fn lemma_folded(c: char, d: char)
    ensures
        folded(c) == folded(d) <==> {
            ||| c == d
            ||| 'A' <= c <= 'Z' && d as u32 == c as u32 + 0x20
            ||| 'A' <= d <= 'Z' && c as u32 == d as u32 + 0x20
        },
{
    assert('A' <= c <= 'Z' <==> 0x41 <= c as u32 <= 0x5a);
    assert('A' <= d <= 'Z' <==> 0x41 <= d as u32 <= 0x5a);
    if c as u32 == d as u32 {
        vstd::utf8::char_u32_cast(c, c as u32);
        vstd::utf8::char_u32_cast(d, d as u32);
    }
}

} // verus!
