//! protobuf's name rules as protojson applies them: JSON field names from
//! and to snake case, full names, and Go's `strings.TrimSpace`.
use vstd::prelude::*;
use crate::bytes::{ascii_digit, ascii_to_lower, ascii_to_upper, is_alpha, is_digit, is_lower, is_upper, to_lower, to_upper};
use crate::request::form::{encode_rune, encode_runes, encode_trimmed, lossy_decode, lossy_runes, push_rune, trim_runes};

verus! {

/// What one byte becomes in snake case: an upper-case letter becomes `_` and
/// its lower case; any other byte is taken as the rune of that number.
pub open spec fn snake_byte(c: u8) -> Seq<u8> {
    if is_upper(c) {
        seq![95u8, to_lower(c)]
    } else {
        encode_rune(c as int)
    }
}

pub open spec fn spec_snake_case(s: Seq<u8>) -> Seq<u8>
    decreases s.len(),
{
    if s.len() == 0 {
        Seq::empty()
    } else {
        spec_snake_case(s.drop_last()) + snake_byte(s.last())
    }
}

/// `strs.JSONSnakeCase`.
pub fn json_snake_case(s: &[u8]) -> (r: Vec<u8>)
    ensures
        r@ == spec_snake_case(s@),
{
    let mut out: Vec<u8> = Vec::new();
    let mut i: usize = 0;
    while i < s.len()
        invariant
            i <= s@.len(),
            out@ == spec_snake_case(s@.subrange(0, i as int)),
        decreases s@.len() - i,
    {
        let c = s[i];
        let ghost o = out@;
        if 65 <= c && c <= 90 {
            out.push(95);
            out.push(ascii_to_lower(c));
            assert(out@ =~= o + snake_byte(c));
        } else {
            push_rune(&mut out, c as u32);
        }
        assert(s@.subrange(0, i + 1).drop_last() =~= s@.subrange(0, i as int));
        i = i + 1;
    }
    assert(s@.subrange(0, s@.len() as int) =~= s@);
    out
}

/// `strs.JSONCamelCase` of `s` from `i`, after an underscore or not: each
/// `_` is dropped, and a lower-case letter after one is raised.
pub open spec fn camel_from(s: Seq<u8>, i: int, after_underscore: bool) -> Seq<u8>
    decreases s.len() - i,
{
    if i < 0 || i >= s.len() {
        Seq::empty()
    } else {
        let c = s[i];
        let head = if c == 95 {
            Seq::empty()
        } else if after_underscore && is_lower(c) {
            seq![to_upper(c)]
        } else {
            encode_rune(c as int)
        };
        head + camel_from(s, i + 1, c == 95)
    }
}

/// `strs.JSONCamelCase`.
pub fn json_camel_case(s: &[u8]) -> (r: Vec<u8>)
    ensures
        r@ == camel_from(s@, 0, false),
{
    let mut out: Vec<u8> = Vec::new();
    let mut was_underscore = false;
    let mut i: usize = 0;
    while i < s.len()
        invariant
            i <= s@.len(),
            camel_from(s@, 0, false) == out@ + camel_from(s@, i as int, was_underscore),
        decreases s@.len() - i,
    {
        let c = s[i];
        let ghost o = out@;
        let ghost rest = camel_from(s@, i + 1, c == 95);
        if c != 95 {
            if was_underscore && 97 <= c && c <= 122 {
                out.push(ascii_to_upper(c));
            } else {
                push_rune(&mut out, c as u32);
            }
        }
        proof {
            let head = out@.subrange(o.len() as int, out@.len() as int);
            assert(out@ =~= o + head);
            assert(o + (head + rest) =~= out@ + rest);
        }
        was_underscore = c == 95;
        i = i + 1;
    }
    assert(out@ + Seq::<u8>::empty() =~= out@);
    out
}

pub open spec fn name_letter(c: u8) -> bool {
    c == 95 || is_alpha(c)
}

/// The end of the letters and digits from `i`.
pub open spec fn ident_end(s: Seq<u8>, i: int) -> int
    decreases s.len() - i,
{
    if 0 <= i < s.len() && (name_letter(s[i]) || is_digit(s[i])) {
        ident_end(s, i + 1)
    } else {
        i
    }
}

/// A full name from `i`: identifiers joined by `.`, each starting with a
/// letter or `_`.
pub open spec fn full_name_from(s: Seq<u8>, i: int) -> bool
    decreases s.len() - i,
{
    if i < 0 || i >= s.len() || !name_letter(s[i]) {
        false
    } else {
        let j = ident_end(s, i + 1);
        if j >= s.len() {
            true
        } else if s[j] != 46 {
            false
        } else if j + 1 <= i {
            false
        } else {
            full_name_from(s, j + 1)
        }
    }
}

proof fn lemma_ident_end(s: Seq<u8>, i: int)
    requires
        0 <= i <= s.len(),
    ensures
        i <= ident_end(s, i) <= s.len(),
    decreases s.len() - i,
{
    if i < s.len() && (name_letter(s[i]) || is_digit(s[i])) {
        lemma_ident_end(s, i + 1);
    }
}

/// `protoreflect.FullName.IsValid`.
pub fn is_valid_full_name(s: &[u8]) -> (r: bool)
    ensures
        r == full_name_from(s@, 0),
{
    let mut i: usize = 0;
    loop
        invariant
            i <= s@.len(),
            full_name_from(s@, 0) == full_name_from(s@, i as int),
        decreases s@.len() - i,
    {
        if i >= s.len() || !(s[i] == 95 || (65 <= s[i] && s[i] <= 90) || (97 <= s[i] && s[i] <= 122)) {
            return false;
        }
        let ghost start = i;
        i = i + 1;
        proof {
            lemma_ident_end(s@, i as int);
        }
        while i < s.len() && (s[i] == 95 || (65 <= s[i] && s[i] <= 90) || (97 <= s[i] && s[i] <= 122) || ascii_digit(
            s[i],
        ))
            invariant
                start < i <= s@.len(),
                ident_end(s@, start + 1) == ident_end(s@, i as int),
            decreases s@.len() - i,
        {
            i = i + 1;
        }
        if i == s.len() {
            return true;
        }
        if s[i] != 46 {
            return false;
        }
        i = i + 1;
    }
}

/// Go's `strings.TrimSpace` (Unicode white space at both ends), on text
/// that is UTF-8; any invalid sequence would read as U+FFFD.
pub fn go_trim_space(s: &[u8]) -> (r: Vec<u8>)
    ensures
        r@ == encode_runes(trim_runes(lossy_runes(s@))),
{
    let runes = lossy_decode(s);
    assert(runes@.map_values(|x: u32| x as int) == lossy_runes(s@));
    encode_trimmed(&runes)
}

} // verus!
