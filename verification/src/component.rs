//! Names of files and folders that every system accepts.

use crate::text::{chars_of, eq_ignoring_case, folded, part_of, same_ignoring_case, string_of};
use vstd::prelude::*;
use vstd::utf8::{
    encode_scalar, encode_utf8, encode_utf8_first_scalar, encode_utf8_valid_utf8, is_ascii_chars,
    is_ascii_chars_encode_utf8, is_char_boundary, pop_first_scalar,
};

verus! {

/// The control characters below the space.
pub open spec fn is_control(c: char) -> bool {
    (c as u32) < 0x20
}

/// The characters that no file name on Windows holds.
pub open spec fn is_invalid(c: char) -> bool {
    ||| c == '<'
    ||| c == '>'
    ||| c == ':'
    ||| c == '"'
    ||| c == '/'
    ||| c == '\\'
    ||| c == '|'
    ||| c == '?'
    ||| c == '*'
}

/// `s` without its control characters, and with `_` for each invalid character.
pub open spec fn without_invalid(s: Seq<char>) -> Seq<char>
    decreases s.len(),
{
    if s.len() == 0 {
        Seq::empty()
    } else {
        let before = without_invalid(s.drop_last());
        if is_control(s.last()) {
            before
        } else if is_invalid(s.last()) {
            before.push('_')
        } else {
            before.push(s.last())
        }
    }
}

/// Whether a name can not end in the character `c`.
pub open spec fn is_loose_end(c: char) -> bool {
    c == ' ' || c == '.'
}

/// `s` without the spaces and dots at its end.
pub open spec fn without_loose_end(s: Seq<char>) -> Seq<char>
    decreases s.len(),
{
    if s.len() > 0 && is_loose_end(s.last()) {
        without_loose_end(s.drop_last())
    } else {
        s
    }
}

/// The name that is left of `s`, before device names are avoided.
pub open spec fn cleaned(s: Seq<char>) -> Seq<char> {
    let left = without_loose_end(without_invalid(s));
    if left.len() == 0 {
        seq!['_']
    } else {
        left
    }
}

/// Whether `s` is one of the device names without a number.
pub open spec fn is_plain_device(s: Seq<char>) -> bool {
    ||| same_ignoring_case(s, "CON"@)
    ||| same_ignoring_case(s, "PRN"@)
    ||| same_ignoring_case(s, "AUX"@)
    ||| same_ignoring_case(s, "NUL"@)
}

/// Whether `s` is one of the device names with a number: `COM1` to `COM9`, `LPT1` to `LPT9`.
pub open spec fn is_port(s: Seq<char>) -> bool {
    &&& s.len() == 4
    &&& same_ignoring_case(s.take(3), "COM"@) || same_ignoring_case(s.take(3), "LPT"@)
    &&& '1' <= s[3] <= '9'
}

/// Whether `s` is the name of a device.
pub open spec fn is_device_name(s: Seq<char>) -> bool {
    is_plain_device(s) || is_port(s)
}

/// The name that stands for `s` in the file system.
pub open spec fn sanitized_component(s: Seq<char>) -> Seq<char> {
    if is_device_name(cleaned(s)) {
        cleaned(s).push('_')
    } else {
        cleaned(s)
    }
}

/// Whether the first three bytes of `s` are whole characters, or there are fewer than four.
pub open spec fn splits_at_three(s: Seq<char>) -> bool {
    encode_utf8(s).len() < 4 || is_char_boundary(encode_utf8(s), 3)
}

/// The names that are taken for sanitizing: what is left of them splits behind three bytes.
pub open spec fn can_sanitize(s: Seq<char>) -> bool {
    splits_at_three(cleaned(s))
}

/// Whether every system takes `s` for the name of a file.
pub open spec fn is_accepted_name(s: Seq<char>) -> bool {
    &&& s.len() > 0
    &&& forall|i: int|
        0 <= i < s.len() ==> !is_control(#[trigger] s[i]) && !is_invalid(s[i])
    &&& !is_loose_end(s.last())
    &&& !is_device_name(s)
}

fn invalid(c: char) -> (r: bool)
    ensures
        r == is_invalid(c),
{
    c == '<' || c == '>' || c == ':' || c == '"' || c == '/' || c == '\\' || c == '|' || c == '?' || c
        == '*'
}

/// The name that is left of `s`, before device names are avoided.
fn clean(s: &str) -> (r: Vec<char>)
    ensures
        r@ == cleaned(s@),
{
    let chars = chars_of(s);
    let mut out: Vec<char> = Vec::new();
    let mut i: usize = 0;
    assert(chars@.take(0) =~= Seq::<char>::empty());
    while i < chars.len()
        invariant
            i <= chars.len(),
            out@ == without_invalid(chars@.take(i as int)),
        decreases chars.len() - i,
    {
        assert(chars@.take(i + 1).drop_last() =~= chars@.take(i as int));
        let c = chars[i];
        if (c as u32) < 0x20 {
        } else if invalid(c) {
            out.push('_');
        } else {
            out.push(c);
        }
        i = i + 1;
    }
    assert(chars@.take(i as int) =~= chars@);
    let ghost kept = out@;
    while out.len() > 0 && (out[out.len() - 1] == ' ' || out[out.len() - 1] == '.')
        invariant
            without_loose_end(kept) == without_loose_end(out@),
        decreases out.len(),
    {
        let ghost before = out@;
        out.pop();
        assert(out@ =~= before.drop_last());
    }
    if out.len() == 0 {
        out.push('_');
        assert(out@ =~= seq!['_']);
    }
    out
}

fn names_device(s: &Vec<char>) -> (r: bool)
    ensures
        r == is_device_name(s@),
{
    if eq_ignoring_case(s, "CON") || eq_ignoring_case(s, "PRN") || eq_ignoring_case(s, "AUX")
        || eq_ignoring_case(s, "NUL") {
        return true;
    }
    if s.len() != 4 {
        return false;
    }
    let head = part_of(s, 0, 3);
    assert(head@ =~= s@.take(3));
    (eq_ignoring_case(&head, "COM") || eq_ignoring_case(&head, "LPT")) && '1' <= s[3] && s[3] <= '9'
}

/// Whether `s` can be sanitized.
pub fn is_component_sound(s: &str) -> (r: bool)
    ensures
        r == can_sanitize(s@),
{
    let name = string_of(&clean(s));
    let bytes = name.as_str().as_bytes();
    bytes.len() < 4 || name.as_str().is_char_boundary(3)
}

/// The name that stands for `s` in the file system: control characters go, invalid characters
/// become `_`, spaces and dots go from the end, an empty name becomes `_`, and the name of a
/// device gets a `_` behind it.
pub fn sanitize_component(s: &str) -> (r: String)
    requires
        can_sanitize(s@),
    ensures
        r@ == sanitized_component(s@),
{
    let mut out = clean(s);
    if names_device(&out) {
        out.push('_');
    }
    string_of(&out)
}

proof fn lemma_without_invalid(s: Seq<char>)
    ensures
        forall|i: int|
            0 <= i < without_invalid(s).len() ==> !is_control(#[trigger] without_invalid(s)[i])
                && !is_invalid(without_invalid(s)[i]),
    decreases s.len(),
{
    if s.len() > 0 {
        let before = without_invalid(s.drop_last());
        let after = without_invalid(s);
        lemma_without_invalid(s.drop_last());
        assert forall|i: int| 0 <= i < after.len() implies !is_control(#[trigger] after[i])
            && !is_invalid(after[i]) by {
            if i < before.len() {
                assert(after[i] == before[i]);
            }
        }
    }
}

proof fn lemma_without_invalid_unchanged(s: Seq<char>)
    requires
        forall|i: int| 0 <= i < s.len() ==> !is_control(#[trigger] s[i]) && !is_invalid(s[i]),
    ensures
        without_invalid(s) == s,
    decreases s.len(),
{
    if s.len() > 0 {
        lemma_without_invalid_unchanged(s.drop_last());
        assert(s.drop_last().push(s.last()) =~= s);
    }
}

proof fn lemma_without_loose_end(s: Seq<char>)
    ensures
        without_loose_end(s).is_prefix_of(s),
        without_loose_end(s).len() > 0 ==> !is_loose_end(without_loose_end(s).last()),
    decreases s.len(),
{
    if s.len() > 0 && is_loose_end(s.last()) {
        lemma_without_loose_end(s.drop_last());
    }
}

/// What is left of a name is not empty, has valid characters only, and ends in one that can
/// stand there.
proof fn lemma_cleaned(s: Seq<char>)
    ensures
        cleaned(s).len() > 0,
        forall|i: int|
            0 <= i < cleaned(s).len() ==> !is_control(#[trigger] cleaned(s)[i]) && !is_invalid(
                cleaned(s)[i],
            ),
        !is_loose_end(cleaned(s).last()),
{
    let valid = without_invalid(s);
    let left = without_loose_end(valid);
    lemma_without_invalid(s);
    lemma_without_loose_end(valid);
    if left.len() > 0 {
        assert forall|i: int| 0 <= i < left.len() implies !is_control(#[trigger] left[i])
            && !is_invalid(left[i]) by {
            assert(left[i] == valid[i]);
        }
    }
}

/// Every system accepts a sanitized name.
pub proof fn law_sanitized_name_is_accepted(s: Seq<char>)
    ensures
        is_accepted_name(sanitized_component(s)),
{
    let c = cleaned(s);
    let t = sanitized_component(s);
    lemma_cleaned(s);
    if is_device_name(c) {
        assert forall|i: int| 0 <= i < t.len() implies !is_control(#[trigger] t[i]) && !is_invalid(
            t[i],
        ) by {
            if i < c.len() {
                assert(t[i] == c[i]);
            }
        }
        reveal_strlit("CON");
        reveal_strlit("PRN");
        reveal_strlit("AUX");
        reveal_strlit("NUL");
    }
}

/// A name that every system accepts stays as it is.
pub proof fn law_accepted_name_stays(s: Seq<char>)
    requires
        is_accepted_name(s),
    ensures
        sanitized_component(s) == s,
{
    lemma_without_invalid_unchanged(s);
}

/// To sanitize a name a second time changes nothing.
pub proof fn law_sanitizing_name_is_idempotent(s: Seq<char>)
    ensures
        sanitized_component(sanitized_component(s)) == sanitized_component(s),
{
    law_sanitized_name_is_accepted(s);
    law_accepted_name_stays(sanitized_component(s));
}

/// A space, a dot or a control character more at the end of a name makes no difference.
pub proof fn law_loose_end_makes_no_difference(s: Seq<char>, c: char)
    requires
        c == ' ' || c == '.' || (c as u32) < 0x20,
    ensures
        sanitized_component(s.push(c)) == sanitized_component(s),
        can_sanitize(s.push(c)) == can_sanitize(s),
{
    assert(s.push(c).drop_last() =~= s);
    if !is_control(c) {
        assert(without_invalid(s).push(c).drop_last() =~= without_invalid(s));
    }
}

/// After characters of one byte each comes a boundary between characters.
proof fn lemma_boundary_after_ascii(s: Seq<char>, n: int)
    requires
        0 <= n <= s.len(),
        forall|i: int| 0 <= i < n ==> (#[trigger] s[i] as u32) < 0x80,
    ensures
        is_char_boundary(encode_utf8(s), n),
        encode_utf8(s).len() >= n,
    decreases n,
{
    encode_utf8_valid_utf8(s);
    if n > 0 {
        let rest = s.drop_first();
        assert forall|i: int| 0 <= i < n - 1 implies (#[trigger] rest[i] as u32) < 0x80 by {
            assert(rest[i] == s[i + 1]);
        }
        lemma_boundary_after_ascii(rest, n - 1);
        encode_utf8_first_scalar(s);
        assert((s[0] as u32) < 0x80);
        assert(encode_scalar(s[0] as u32).len() == 1);
        assert(pop_first_scalar(encode_utf8(s)) =~= encode_utf8(rest));
    }
}

proof fn lemma_one_byte(c: char)
    requires
        (c as u32) < 0x80,
    ensures
        '\0' <= c <= '\u{7f}',
{
}

/// A name that starts with three characters of one byte each splits behind them.
proof fn lemma_ascii_head_splits(s: Seq<char>)
    requires
        forall|i: int| 0 <= i < 3 && i < s.len() ==> (#[trigger] s[i] as u32) < 0x80,
    ensures
        splits_at_three(s),
{
    if s.len() >= 3 {
        lemma_boundary_after_ascii(s, 3);
    } else {
        assert forall|i: int| 0 <= i < s.len() implies '\0' <= #[trigger] s[i] <= '\u{7f}' by {
            lemma_one_byte(s[i]);
        }
        is_ascii_chars_encode_utf8(s);
    }
}

/// Every name of ASCII characters can be sanitized.
pub proof fn law_ascii_names_can_be_sanitized(s: Seq<char>)
    requires
        is_ascii_chars(s),
    ensures
        can_sanitize(s),
{
    lemma_without_invalid_is_ascii(s);
    lemma_without_loose_end(without_invalid(s));
    assert forall|i: int| 0 <= i < cleaned(s).len() implies (#[trigger] cleaned(s)[i] as u32)
        < 0x80 by {
        let left = without_loose_end(without_invalid(s));
        if left.len() > 0 {
            assert(left[i] == without_invalid(s)[i]);
        }
    }
    lemma_ascii_head_splits(cleaned(s));
}

proof fn lemma_without_invalid_is_ascii(s: Seq<char>)
    requires
        is_ascii_chars(s),
    ensures
        forall|i: int|
            0 <= i < without_invalid(s).len() ==> (#[trigger] without_invalid(s)[i] as u32) < 0x80,
    decreases s.len(),
{
    if s.len() > 0 {
        let before = without_invalid(s.drop_last());
        let after = without_invalid(s);
        assert(s.last() == s[s.len() - 1]);
        lemma_without_invalid_is_ascii(s.drop_last());
        assert forall|i: int| 0 <= i < after.len() implies (#[trigger] after[i] as u32) < 0x80 by {
            if i < before.len() {
                assert(after[i] == before[i]);
            }
        }
    }
}

/// What was sanitized once can be sanitized again.
pub proof fn law_sanitized_names_can_be_sanitized(s: Seq<char>)
    requires
        can_sanitize(s),
    ensures
        can_sanitize(sanitized_component(s)),
{
    let c = cleaned(s);
    let t = sanitized_component(s);
    law_sanitized_name_is_accepted(s);
    lemma_without_invalid_unchanged(t);
    assert(cleaned(t) == t);
    if is_device_name(c) {
        reveal_strlit("CON");
        reveal_strlit("PRN");
        reveal_strlit("AUX");
        reveal_strlit("NUL");
        reveal_strlit("COM");
        reveal_strlit("LPT");
        assert forall|i: int| 0 <= i < 3 implies (#[trigger] t[i] as u32) < 0x80 by {
            assert(t[i] == c[i]);
            if is_port(c) {
                assert(c.take(3)[i] == c[i]);
            }
            assert(folded(c[i]) < 0x80);
        }
        lemma_ascii_head_splits(t);
    }
}

proof fn lemma_without_invalid_adds_up(a: Seq<char>, b: Seq<char>)
    ensures
        without_invalid(a + b) == without_invalid(a) + without_invalid(b),
    decreases b.len(),
{
    if b.len() > 0 {
        let before = b.drop_last();
        lemma_without_invalid_adds_up(a, before);
        assert((a + b).drop_last() =~= a + before);
        assert((a + b).last() == b.last());
        assert(without_invalid(a + b) =~= without_invalid(a) + without_invalid(b));
    } else {
        assert(a + b =~= a);
        assert(without_invalid(a) + without_invalid(b) =~= without_invalid(a));
    }
}

/// A control character makes no difference to a name, wherever it stands in it.
pub proof fn law_control_characters_make_no_difference(a: Seq<char>, c: char, b: Seq<char>)
    requires
        (c as u32) < 0x20,
    ensures
        sanitized_component(a.push(c) + b) == sanitized_component(a + b),
        can_sanitize(a.push(c) + b) == can_sanitize(a + b),
{
    lemma_without_invalid_adds_up(a.push(c), b);
    lemma_without_invalid_adds_up(a, b);
    assert(a.push(c).drop_last() =~= a);
}

/// Whether `s` spells the word `word`, given in capitals, in capitals and small letters.
pub open spec fn spells(s: Seq<char>, word: Seq<char>) -> bool {
    &&& s.len() == word.len()
    &&& forall|i: int|
        0 <= i < s.len() ==> #[trigger] s[i] == word[i] || s[i] as u32 == word[i] as u32 + 0x20
}

/// Whether `s` spells one of the names CON, PRN, AUX, NUL, COM1 to COM9 and LPT1 to LPT9.
pub open spec fn spells_device(s: Seq<char>) -> bool {
    ||| spells(s, "CON"@)
    ||| spells(s, "PRN"@)
    ||| spells(s, "AUX"@)
    ||| spells(s, "NUL"@)
    ||| s.len() == 4 && '1' <= s[3] <= '9' && (spells(s.take(3), "COM"@) || spells(
        s.take(3),
        "LPT"@,
    ))
}

proof fn lemma_spells(s: Seq<char>, word: Seq<char>)
    requires
        forall|i: int| 0 <= i < word.len() ==> 'A' <= #[trigger] word[i] <= 'Z',
    ensures
        spells(s, word) <==> same_ignoring_case(s, word),
{
    if s.len() == word.len() {
        assert forall|i: int| 0 <= i < s.len() implies (folded(#[trigger] s[i]) == folded(word[i])
            <==> s[i] == word[i] || s[i] as u32 == word[i] as u32 + 0x20) by {
            lemma_letter(s[i], word[i]);
        }
        if same_ignoring_case(s, word) {
            assert forall|i: int| 0 <= i < s.len() implies #[trigger] s[i] == word[i] || s[i] as u32
                == word[i] as u32 + 0x20 by {
                assert(folded(s[i]) == folded(word[i]));
            }
        }
        if spells(s, word) {
            assert forall|i: int| 0 <= i < s.len() implies folded(#[trigger] s[i]) == folded(
                word[i],
            ) by {
                assert(s[i] == word[i] || s[i] as u32 == word[i] as u32 + 0x20);
            }
        }
    }
}

proof fn lemma_letter(c: char, letter: char)
    requires
        'A' <= letter <= 'Z',
    ensures
        folded(c) == folded(letter) <==> c == letter || c as u32 == letter as u32 + 0x20,
{
    assert(0x41 <= letter as u32 <= 0x5a);
    if folded(c) == folded(letter) && 0x41 <= c as u32 <= 0x5a {
        assert(c as u32 == letter as u32);
        vstd::utf8::char_u32_cast(c, c as u32);
        vstd::utf8::char_u32_cast(letter, letter as u32);
    }
}

/// A name without control characters that ends in neither a space nor a dot keeps its length and
/// every character but the invalid ones, which become `_`; only a device name, in any mix of
/// capitals and small letters, gets a `_` behind it. Of no name at all, `_` is made.
pub proof fn law_names_keep_their_characters(s: Seq<char>)
    requires
        forall|i: int| 0 <= i < s.len() ==> (#[trigger] s[i] as u32) >= 0x20,
        s.len() > 0 ==> s.last() != ' ' && s.last() != '.',
    ensures
        s.len() == 0 ==> sanitized_component(s) == seq!['_'],
        spells_device(s) ==> sanitized_component(s) == s.push('_'),
        s.len() > 0 && !spells_device(s) ==> {
            &&& sanitized_component(s).len() == s.len()
            &&& forall|i: int|
                0 <= i < s.len() ==> #[trigger] sanitized_component(s)[i] == (if s[i] == '<' || s[i]
                    == '>' || s[i] == ':' || s[i] == '"' || s[i] == '/' || s[i] == '\\' || s[i] == '|'
                    || s[i] == '?' || s[i] == '*' {
                    '_'
                } else {
                    s[i]
                })
        },
{
    reveal_strlit("CON");
    reveal_strlit("PRN");
    reveal_strlit("AUX");
    reveal_strlit("NUL");
    reveal_strlit("COM");
    reveal_strlit("LPT");
    lemma_marked(s);
    let t = without_invalid(s);
    if s.len() > 0 {
        assert(t.last() == t[t.len() - 1]);
        assert(s.last() == s[s.len() - 1]);
        assert(cleaned(s) == t);
    }
    lemma_spells(t, "CON"@);
    lemma_spells(t, "PRN"@);
    lemma_spells(t, "AUX"@);
    lemma_spells(t, "NUL"@);
    if s.len() == 4 {
        lemma_spells(t.take(3), "COM"@);
        lemma_spells(t.take(3), "LPT"@);
    }
    lemma_device_is_unmarked(s, t);
}

/// Where no control character is, each character is itself or marked.
proof fn lemma_marked(s: Seq<char>)
    requires
        forall|i: int| 0 <= i < s.len() ==> (#[trigger] s[i] as u32) >= 0x20,
    ensures
        without_invalid(s).len() == s.len(),
        forall|i: int|
            0 <= i < s.len() ==> #[trigger] without_invalid(s)[i] == (if is_invalid(s[i]) {
                '_'
            } else {
                s[i]
            }),
    decreases s.len(),
{
    if s.len() > 0 {
        let rest = s.drop_last();
        assert(s.last() == s[s.len() - 1]);
        assert forall|i: int| 0 <= i < rest.len() implies (#[trigger] rest[i] as u32) >= 0x20 by {
            assert(rest[i] == s[i]);
        }
        lemma_marked(rest);
        assert forall|i: int| 0 <= i < s.len() implies #[trigger] without_invalid(s)[i] == (
        if is_invalid(s[i]) {
            '_'
        } else {
            s[i]
        }) by {
            if i < rest.len() {
                assert(without_invalid(s)[i] == without_invalid(rest)[i]);
            }
        }
    }
}

/// A name spells a device name before its invalid characters are marked if and only if it does
/// after.
proof fn lemma_device_is_unmarked(s: Seq<char>, t: Seq<char>)
    requires
        s.len() == t.len(),
        forall|i: int|
            0 <= i < s.len() ==> #[trigger] t[i] == (if is_invalid(s[i]) {
                '_'
            } else {
                s[i]
            }),
    ensures
        spells_device(s) <==> spells_device(t),
        spells_device(s) ==> s == t,
{
    reveal_strlit("CON");
    reveal_strlit("PRN");
    reveal_strlit("AUX");
    reveal_strlit("NUL");
    reveal_strlit("COM");
    reveal_strlit("LPT");
    if spells_device(s) || spells_device(t) {
        assert forall|i: int| 0 <= i < s.len() implies #[trigger] t[i] == s[i] by {
            if s.len() == 4 && i < 3 {
                assert(s.take(3)[i] == s[i] && t.take(3)[i] == t[i]);
            }
        }
        assert(s =~= t);
    }
}

/// A name in which nothing has to change but invalid characters, which are one byte before and
/// after, is taken for sanitizing if and only if it has fewer than four bytes, or some of its
/// characters take up exactly the first three.
pub proof fn law_names_are_taken_that_split(s: Seq<char>)
    requires
        s.len() > 0,
        forall|i: int| 0 <= i < s.len() ==> (#[trigger] s[i] as u32) >= 0x20,
        s.last() != ' ' && s.last() != '.',
    ensures
        can_sanitize(s) <==> encode_utf8(s).len() < 4 || exists|k: int|
            0 <= k <= s.len() && #[trigger] encode_utf8(s.take(k)).len() == 3,
{
    let t = without_invalid(s);
    lemma_marked(s);
    assert(t.last() == t[t.len() - 1] && s.last() == s[s.len() - 1]);
    assert(cleaned(s) == t);
    assert forall|k: int| 0 <= k <= s.len() implies #[trigger] encode_utf8(s.take(k)).len()
        == encode_utf8(t.take(k)).len() by {
        lemma_same_widths(s.take(k), t.take(k));
    }
    assert(s.take(s.len() as int) =~= s && t.take(s.len() as int) =~= t);
    lemma_boundaries(t, 3);
    if exists|k: int| 0 <= k <= s.len() && #[trigger] encode_utf8(s.take(k)).len() == 3 {
        let k = choose|k: int| 0 <= k <= s.len() && #[trigger] encode_utf8(s.take(k)).len() == 3;
        assert(encode_utf8(t.take(k)).len() == 3);
    }
    if exists|k: int| 0 <= k <= t.len() && #[trigger] encode_utf8(t.take(k)).len() == 3 {
        let k = choose|k: int| 0 <= k <= t.len() && #[trigger] encode_utf8(t.take(k)).len() == 3;
        assert(encode_utf8(s.take(k)).len() == 3);
    }
}

/// To mark invalid characters changes no width.
proof fn lemma_same_widths(s: Seq<char>, t: Seq<char>)
    requires
        s.len() == t.len(),
        forall|i: int|
            0 <= i < s.len() ==> #[trigger] t[i] == (if is_invalid(s[i]) {
                '_'
            } else {
                s[i]
            }),
    ensures
        encode_utf8(s).len() == encode_utf8(t).len(),
    decreases s.len(),
{
    if s.len() > 0 {
        let (a, b) = (s.drop_first(), t.drop_first());
        assert forall|i: int| 0 <= i < a.len() implies #[trigger] b[i] == (if is_invalid(a[i]) {
            '_'
        } else {
            a[i]
        }) by {
            assert(b[i] == t[i + 1] && a[i] == s[i + 1]);
        }
        lemma_same_widths(a, b);
        assert(t[0] == s[0] || (is_invalid(s[0]) && t[0] == '_'));
        if is_invalid(s[0]) {
            assert(encode_scalar(s[0] as u32).len() == 1);
            assert(encode_scalar('_' as u32).len() == 1);
        }
    }
}

/// The boundaries between the characters of a text are where some of its characters end.
proof fn lemma_boundaries(s: Seq<char>, n: int)
    ensures
        is_char_boundary(encode_utf8(s), n) <==> exists|k: int|
            0 <= k <= s.len() && #[trigger] encode_utf8(s.take(k)).len() == n,
    decreases s.len(),
{
    encode_utf8_valid_utf8(s);
    assert(s.take(0) =~= Seq::<char>::empty());
    assert(encode_utf8(s.take(0)).len() == 0);
    if s.len() == 0 {
        assert(encode_utf8(s).len() == 0);
        if exists|k: int| 0 <= k <= s.len() && #[trigger] encode_utf8(s.take(k)).len() == n {
            let k = choose|k: int| 0 <= k <= s.len() && #[trigger] encode_utf8(s.take(k)).len() == n;
            assert(s.take(k) =~= s);
        }
    } else {
        let rest = s.drop_first();
        let width = encode_scalar(s[0] as u32).len();
        encode_utf8_first_scalar(s);
        assert(pop_first_scalar(encode_utf8(s)) =~= encode_utf8(rest));
        lemma_boundaries(rest, n - width);
        assert forall|k: int| 0 < k <= s.len() implies #[trigger] encode_utf8(s.take(k)).len()
            == width + encode_utf8(rest.take(k - 1)).len() by {
            assert(s.take(k).drop_first() =~= rest.take(k - 1));
            assert(s.take(k)[0] == s[0]);
        }
        if exists|k: int| 0 <= k <= s.len() && #[trigger] encode_utf8(s.take(k)).len() == n {
            let k = choose|k: int| 0 <= k <= s.len() && #[trigger] encode_utf8(s.take(k)).len() == n;
            if k > 0 {
                assert(encode_utf8(rest.take(k - 1)).len() == n - width);
                lemma_width_of_start(s, k);
            }
        }
        if is_char_boundary(encode_utf8(s), n) && n != 0 {
            let k = choose|k: int|
                0 <= k <= rest.len() && #[trigger] encode_utf8(rest.take(k)).len() == n - width;
            assert(encode_utf8(s.take(k + 1)).len() == n);
        }
    }
}

/// The first characters of a text have no more bytes than the whole.
proof fn lemma_width_of_start(s: Seq<char>, k: int)
    requires
        0 <= k <= s.len(),
    ensures
        encode_utf8(s.take(k)).len() <= encode_utf8(s).len(),
    decreases k,
{
    if k > 0 {
        lemma_width_of_start(s.drop_first(), k - 1);
        assert(s.take(k).drop_first() =~= s.drop_first().take(k - 1));
        assert(s.take(k)[0] == s[0]);
    }
}

} // verus!
