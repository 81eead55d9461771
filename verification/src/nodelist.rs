//! Expansion of Slurm node lists such as `c1-[0-1],c2-[2-3]` into host names.
//!
//! The text is read exactly as the slicing rules of `str` read it: the name in front of a
//! `,` or `[` is cut at a byte offset equal to the number of characters before it. For
//! ASCII text that is the plain prefix; for other text the cut is described by
//! `utf8_head` and `utf8_tail`, and where it would fall inside a character the input is
//! rejected.

use vstd::prelude::*;
use vstd::string::*;
use vstd::utf8::*;
use crate::decimal::{
    append_decimal, decimal, digits_value, is_digit, lemma_decimal_digits, lemma_digits_value_monotone,
};

verus! {

/// A character that ends the name of a node: a `,` or a `[`.
pub open spec fn is_delim(c: char) -> bool {
    c == ',' || c == '['
}

/// The number of leading decimal digits of `s`.
pub open spec fn digit_run(s: Seq<char>) -> nat
    decreases s.len(),
{
    if s.len() > 0 && is_digit(s[0]) {
        1 + digit_run(s.drop_first())
    } else {
        0
    }
}

/// The index of the first `,` or `[` of `s`, or its length when there is none.
pub open spec fn delim_index(s: Seq<char>) -> nat
    decreases s.len(),
{
    if s.len() == 0 || is_delim(s[0]) {
        0
    } else {
        1 + delim_index(s.drop_first())
    }
}

/// The number written by the leading digits of `s`, and what follows them; `None` when
/// `s` does not start with a digit or the number does not fit in a `u32`.
pub open spec fn spec_parse_int(s: Seq<char>) -> Option<(u32, Seq<char>)> {
    let n = digit_run(s) as int;
    let v = digits_value(s.take(n));
    if n > 0 && v <= u32::MAX {
        Some((v as u32, s.skip(n)))
    } else {
        None
    }
}

/// The numbers `a`, `a + 1`, ..., `b`; empty when `a > b`.
pub open spec fn span(a: u32, b: u32) -> Seq<u32> {
    if a <= b {
        Seq::new((b - a + 1) as nat, |i: int| (a + i) as u32)
    } else {
        Seq::empty()
    }
}

/// Puts `l` in front of the numbers of a bracket reading.
pub open spec fn numbers_before(l: Seq<u32>, res: Option<(Seq<u32>, Seq<char>)>) -> Option<(Seq<u32>, Seq<char>)> {
    match res {
        Some((l2, r)) => Some((l + l2, r)),
        None => None,
    }
}

/// Reads the inside of a bracket, such as `1-3,5]`: the numbers it lists, in order, and
/// the text after the closing `]` (empty when there is none). A number followed by
/// anything but `,`, `]` or `-` is dropped; `None` where a number is expected and missing
/// or too large for a `u32`.
pub open spec fn spec_parse_brackets(s: Seq<char>) -> Option<(Seq<u32>, Seq<char>)>
    decreases s.len(),
    via brackets_decreases
{
    if s.len() == 0 {
        Some((Seq::empty(), s))
    } else if s[0] == ',' {
        spec_parse_brackets(s.drop_first())
    } else if s[0] == ']' {
        Some((Seq::empty(), s.drop_first()))
    } else {
        match spec_parse_int(s) {
            None => None,
            Some((a, r)) => {
                if r.len() > 0 && (r[0] == ',' || r[0] == ']') {
                    numbers_before(seq![a], spec_parse_brackets(r))
                } else if r.len() > 0 && r[0] == '-' {
                    match spec_parse_int(r.drop_first()) {
                        None => None,
                        Some((b, r2)) => numbers_before(span(a, b), spec_parse_brackets(r2)),
                    }
                } else {
                    spec_parse_brackets(r)
                }
            }
        }
    }
}

#[via_fn]
proof fn brackets_decreases(s: Seq<char>) {
    lemma_digit_run(s);
    if s.len() > 0 {
        if let Some((a, r)) = spec_parse_int(s) {
            if r.len() > 0 {
                lemma_digit_run(r.drop_first());
            }
        }
    }
}

/// The characters that the first `k` bytes of the UTF-8 text of `s` decode to.
pub open spec fn utf8_head(s: Seq<char>, k: int) -> Seq<char> {
    decode_utf8(encode_utf8(s).subrange(0, k))
}

/// The characters that the UTF-8 text of `s` decodes to from byte `k` on.
pub open spec fn utf8_tail(s: Seq<char>, k: int) -> Seq<char> {
    decode_utf8(encode_utf8(s).subrange(k, encode_utf8(s).len() as int))
}

/// Byte `k` of the UTF-8 text of `s` starts a character, or is its end.
pub open spec fn utf8_cut(s: Seq<char>, k: int) -> bool {
    is_char_boundary(encode_utf8(s), k)
}

/// `r` without one leading `,`.
pub open spec fn skip_comma(r: Seq<char>) -> Seq<char> {
    if r.len() > 0 && r[0] == ',' {
        r.drop_first()
    } else {
        r
    }
}

/// The names of the first entry of a node list and the text after it. An entry is a
/// name that ends the text or is followed by `,`; or a prefix followed by a bracket, which
/// gives the prefix followed by each number of the bracket. The prefix and the text after
/// a `,` are cut at the byte offset equal to the character index of the `,` or `[`;
/// `None` where such a cut falls inside a character, or the bracket cannot be read.
pub open spec fn spec_parse_node(s: Seq<char>) -> Option<(Seq<Seq<char>>, Seq<char>)> {
    let k = delim_index(s) as int;
    if k >= s.len() {
        Some((seq![s], Seq::empty()))
    } else if s[k] == ',' {
        if utf8_cut(s, k) && utf8_cut(s, k + 1) {
            Some((seq![utf8_head(s, k)], utf8_tail(s, k + 1)))
        } else {
            None
        }
    } else if !utf8_cut(s, k + 1) {
        None
    } else {
        match spec_parse_brackets(utf8_tail(s, k + 1)) {
            None => None,
            Some((zs, r)) => {
                if zs.len() > 0 && !utf8_cut(s, k) {
                    None
                } else {
                    Some((zs.map_values(|z: u32| utf8_head(s, k) + decimal(z as nat)), skip_comma(r)))
                }
            }
        }
    }
}

/// The host names that a node list stands for, in order; `None` where a bracket lacks a
/// number or holds one too large for a `u32`, or a cut falls inside a character.
pub open spec fn spec_parse_list(s: Seq<char>) -> Option<Seq<Seq<char>>>
    decreases s.len(),
    via list_decreases
{
    if s.len() == 0 {
        Some(Seq::empty())
    } else {
        match spec_parse_node(s) {
            None => None,
            Some((v, r)) => match spec_parse_list(r) {
                None => None,
                Some(l) => Some(v + l),
            },
        }
    }
}

#[via_fn]
proof fn list_decreases(s: Seq<char>) {
    if s.len() > 0 {
        lemma_node_rest_shorter(s);
    }
}

/// Facts about `digit_run`: the digits it counts and the character that stops it.
pub proof fn lemma_digit_run(s: Seq<char>)
    ensures
        digit_run(s) <= s.len(),
        forall|j: int| 0 <= j < digit_run(s) ==> is_digit(#[trigger] s[j]),
        digit_run(s) < s.len() ==> !is_digit(s[digit_run(s) as int]),
    decreases s.len(),
{
    if s.len() > 0 && is_digit(s[0]) {
        lemma_digit_run(s.drop_first());
        assert forall|j: int| 0 <= j < digit_run(s) implies is_digit(#[trigger] s[j]) by {
            if j > 0 {
                assert(s[j] == s.drop_first()[j - 1]);
            }
        }
    }
}

/// Facts about `delim_index`: the characters before it and the one at it.
pub proof fn lemma_delim_index(s: Seq<char>)
    ensures
        delim_index(s) <= s.len(),
        forall|j: int| 0 <= j < delim_index(s) ==> !is_delim(#[trigger] s[j]),
        delim_index(s) < s.len() ==> is_delim(s[delim_index(s) as int]),
    decreases s.len(),
{
    if s.len() > 0 && !is_delim(s[0]) {
        lemma_delim_index(s.drop_first());
        assert forall|j: int| 0 <= j < delim_index(s) implies !is_delim(#[trigger] s[j]) by {
            if j > 0 {
                assert(s[j] == s.drop_first()[j - 1]);
            }
        }
    }
}

/// A scan that stops at `i` determines `digit_run`.
proof fn lemma_digit_run_at(s: Seq<char>, i: int)
    requires
        0 <= i <= s.len(),
        forall|j: int| 0 <= j < i ==> is_digit(#[trigger] s[j]),
        i == s.len() || !is_digit(s[i]),
    ensures
        digit_run(s) == i,
{
    lemma_digit_run(s);
    if digit_run(s) < i {
        assert(is_digit(s[digit_run(s) as int]));
    }
    if digit_run(s) > i {
        assert(is_digit(s[i]));
    }
}

/// A scan that stops at `i` determines `delim_index`.
proof fn lemma_delim_index_at(s: Seq<char>, i: int)
    requires
        0 <= i <= s.len(),
        forall|j: int| 0 <= j < i ==> !is_delim(#[trigger] s[j]),
        i == s.len() || is_delim(s[i]),
    ensures
        delim_index(s) == i,
{
    lemma_delim_index(s);
    if delim_index(s) < i {
        assert(!is_delim(s[delim_index(s) as int]));
    }
    if delim_index(s) > i {
        assert(!is_delim(s[i]));
    }
}

/// Cutting the UTF-8 text of `s` at a character boundary past its first byte leaves
/// fewer characters.
proof fn lemma_utf8_tail_shorter(s: Seq<char>, k: int)
    requires
        k >= 1,
        utf8_cut(s, k),
    ensures
        utf8_tail(s, k).len() < s.len(),
{
    broadcast use group_utf8_lib;
    let bytes = encode_utf8(s);
    assert(valid_utf8(bytes));
    assert(k <= bytes.len());
    let front = bytes.subrange(0, k);
    assert(valid_utf8(front));
    assert(decode_utf8(bytes) =~= decode_utf8(front) + decode_utf8(bytes.subrange(k, bytes.len() as int)));
    assert(decode_utf8(front).len() > 0);
}

/// The text after a bracket is no longer than the bracket's text.
proof fn lemma_brackets_rest(s: Seq<char>)
    ensures
        spec_parse_brackets(s) matches Some((l, r)) ==> r.len() <= s.len(),
    decreases s.len(),
{
    lemma_digit_run(s);
    if s.len() == 0 {
    } else if s[0] == ',' {
        lemma_brackets_rest(s.drop_first());
    } else if s[0] == ']' {
    } else {
        match spec_parse_int(s) {
            None => {},
            Some((a, r)) => {
                if r.len() > 0 && (r[0] == ',' || r[0] == ']') {
                    lemma_brackets_rest(r);
                } else if r.len() > 0 && r[0] == '-' {
                    lemma_digit_run(r.drop_first());
                    match spec_parse_int(r.drop_first()) {
                        None => {},
                        Some((b, r2)) => {
                            lemma_brackets_rest(r2);
                        },
                    }
                } else {
                    lemma_brackets_rest(r);
                }
            },
        }
    }
}

/// Reading one entry of a non-empty list leaves less text.
proof fn lemma_node_rest_shorter(s: Seq<char>)
    requires
        s.len() > 0,
    ensures
        spec_parse_node(s) matches Some((v, r)) ==> r.len() < s.len(),
{
    lemma_delim_index(s);
    let k = delim_index(s) as int;
    if k < s.len() && utf8_cut(s, k + 1) {
        lemma_utf8_tail_shorter(s, k + 1);
        lemma_brackets_rest(utf8_tail(s, k + 1));
    }
}

/// The text of `s` from character `from` on.
fn chars_from(s: &str, from: usize) -> (t: &str)
    requires
        from <= s@.len(),
    ensures
        t@ == s@.skip(from as int),
{
    let len = s.unicode_len();
    s.substring_char(from, len)
}

/// Reads the number at the start of `s` and returns it with the text that follows the
/// digits; `None` where `s` does not start with a digit or the number is too large for a
/// `u32`.
pub fn try_parse_int(s: &str) -> (r: Option<(u32, &str)>)
    ensures
        match spec_parse_int(s@) {
            Some((v, t)) => r matches Some((v2, t2)) && v2 == v && t2@ == t,
            None => r is None,
        },
{
    let len = s.unicode_len();
    let mut i: usize = 0;
    let mut value: u64 = 0;
    while i < len
        invariant
            len == s@.len(),
            0 <= i <= len,
            forall|j: int| 0 <= j < i ==> is_digit(#[trigger] s@[j]),
            value == digits_value(s@.take(i as int)),
            value <= u32::MAX,
        ensures
            0 <= i <= len,
            forall|j: int| 0 <= j < i ==> is_digit(#[trigger] s@[j]),
            value == digits_value(s@.take(i as int)),
            value <= u32::MAX,
            i == len || !is_digit(s@[i as int]),
        decreases len - i,
    {
        let c = s.get_char(i);
        if !('0' <= c && c <= '9') {
            break;
        }
        let d = (c as u32 - '0' as u32) as u64;
        let next = value * 10 + d;
        proof {
            assert(s@.take(i + 1).drop_last() =~= s@.take(i as int));
            assert(digits_value(s@.take(i + 1)) == next);
        }
        if next > u32::MAX as u64 {
            proof {
                lemma_digit_run(s@);
                if digit_run(s@) < i + 1 {
                    assert(is_digit(s@[digit_run(s@) as int]));
                }
                lemma_digits_value_monotone(s@, i + 1, digit_run(s@) as int);
            }
            return None;
        }
        value = next;
        i = i + 1;
    }
    proof {
        lemma_digit_run_at(s@, i as int);
    }
    if i == 0 {
        return None;
    }
    Some((value as u32, chars_from(s, i)))
}

/// Reads the number at the start of `s`, such as `7` from `007,`, and returns it with the
/// text that follows the digits. `s` must start with a digit and the number must fit in a
/// `u32`.
pub fn parse_int(s: &str) -> (r: (u32, &str))
    requires
        spec_parse_int(s@) is Some,
    ensures
        spec_parse_int(s@) == Some((r.0, r.1@)),
{
    match try_parse_int(s) {
        Some(p) => p,
        None => (0, s),
    }
}

/// Appends `a`, `a + 1`, ..., `b` to `lst`.
fn extend_span(lst: &mut Vec<u32>, a: u32, b: u32)
    ensures
        final(lst)@ == old(lst)@ + span(a, b),
{
    if a > b {
        assert(old(lst)@ + span(a, b) =~= old(lst)@);
        return;
    }
    let mut x: u64 = a as u64;
    while x <= b as u64
        invariant
            a <= x <= b as u64 + 1,
            a <= b,
            lst@ =~= old(lst)@ + Seq::new((x - a) as nat, |i: int| (a + i) as u32),
        decreases b as u64 + 1 - x,
    {
        lst.push(x as u32);
        x = x + 1;
    }
    assert(lst@ =~= old(lst)@ + span(a, b));
}

/// Reads the inside of a bracket (see `spec_parse_brackets`); `None` where a number is
/// expected and missing or too large for a `u32`.
pub fn try_parse_brackets(s: &str) -> (r: Option<(Vec<u32>, &str)>)
    ensures
        match spec_parse_brackets(s@) {
            Some((l, t)) => r matches Some((v, t2)) && v@ == l && t2@ == t,
            None => r is None,
        },
{
    let mut lst: Vec<u32> = Vec::new();
    let mut rest: &str = s;
    assert(spec_parse_brackets(s@) == numbers_before(lst@, spec_parse_brackets(rest@))) by {
        assert(lst@ + Seq::<u32>::empty() =~= Seq::<u32>::empty());
        assert forall|l: Seq<u32>| Seq::<u32>::empty() + l =~= l by {}
    }
    loop
        invariant
            spec_parse_brackets(s@) == numbers_before(lst@, spec_parse_brackets(rest@)),
        decreases rest@.len(),
    {
        if rest.is_empty() {
            assert(lst@ + Seq::<u32>::empty() =~= lst@);
            return Some((lst, rest));
        }
        let c = rest.get_char(0);
        if c == ',' {
            rest = chars_from(rest, 1);
            continue;
        }
        if c == ']' {
            assert(lst@ + Seq::<u32>::empty() =~= lst@);
            return Some((lst, chars_from(rest, 1)));
        }
        proof {
            lemma_digit_run(rest@);
        }
        match try_parse_int(rest) {
            None => {
                return None;
            },
            Some((a, new_rest)) => {
                if !new_rest.is_empty() && (new_rest.get_char(0) == ',' || new_rest.get_char(0) == ']') {
                    proof {
                        assert forall|l2: Seq<u32>| #[trigger] (lst@ + (seq![a] + l2)) =~= lst@.push(a) + l2 by {}
                    }
                    lst.push(a);
                    rest = new_rest;
                } else if !new_rest.is_empty() && new_rest.get_char(0) == '-' {
                    let after_dash = chars_from(new_rest, 1);
                    proof {
                        lemma_digit_run(after_dash@);
                    }
                    match try_parse_int(after_dash) {
                        None => {
                            return None;
                        },
                        Some((b, r2)) => {
                            let ghost prev = lst@;
                            extend_span(&mut lst, a, b);
                            proof {
                                assert forall|l2: Seq<u32>| #[trigger] (prev + (span(a, b) + l2)) =~= lst@ + l2 by {}
                            }
                            rest = r2;
                        },
                    }
                } else {
                    rest = new_rest;
                }
            },
        }
    }
}

/// Reads the inside of a bracket, such as `1-3,5]`: the numbers it lists and the text
/// after the closing `]`. Every number that the bracket needs must be present and fit in
/// a `u32`.
pub fn parse_brackets(s: &str) -> (r: (Vec<u32>, &str))
    requires
        spec_parse_brackets(s@) is Some,
    ensures
        spec_parse_brackets(s@) == Some((r.0@, r.1@)),
{
    match try_parse_brackets(s) {
        Some(p) => p,
        None => (Vec::new(), s),
    }
}

/// The names of a node list entry: `prefix` followed by each number of `zs`.
fn prefixed_names(prefix: &str, zs: &Vec<u32>) -> (names: Vec<String>)
    ensures
        names.deep_view() == zs@.map_values(|z: u32| prefix@ + decimal(z as nat)),
{
    let mut names: Vec<String> = Vec::new();
    let mut j: usize = 0;
    while j < zs.len()
        invariant
            0 <= j <= zs.len(),
            names.deep_view() =~= zs@.take(j as int).map_values(|z: u32| prefix@ + decimal(z as nat)),
        decreases zs.len() - j,
    {
        let mut name = String::from_str(prefix);
        append_decimal(&mut name, zs[j] as u64);
        let ghost name_view = name@;
        let ghost old_names = names.deep_view();
        names.push(name);
        assert(names.deep_view() =~= old_names.push(name_view));
        assert(zs@.take(j + 1) =~= zs@.take(j as int).push(zs@[j as int]));
        assert(names.deep_view() =~= zs@.take(j + 1).map_values(|z: u32| prefix@ + decimal(z as nat)));
        j = j + 1;
    }
    assert(zs@.take(zs.len() as int) =~= zs@);
    names
}

/// The characters of the first `k` bytes of `s`.
fn head_bytes(s: &str, k: usize) -> (h: &str)
    requires
        utf8_cut(s@, k as int),
    ensures
        h@ == utf8_head(s@, k as int),
{
    broadcast use group_utf8_lib;
    let (h, _) = s.split_at(k);
    assert(encode_utf8(h@) == encode_utf8(s@).subrange(0, k as int));
    h
}

/// The characters of `s` from byte `k` on.
fn tail_bytes(s: &str, k: usize) -> (t: &str)
    requires
        utf8_cut(s@, k as int),
    ensures
        t@ == utf8_tail(s@, k as int),
{
    broadcast use group_utf8_lib;
    let (_, t) = s.split_at(k);
    assert(encode_utf8(t@) == encode_utf8(s@).subrange(k as int, encode_utf8(s@).len() as int));
    t
}

/// Reads the first entry of a node list (see `spec_parse_node`); `None` where a cut
/// falls inside a character or the bracket cannot be read.
pub fn try_parse_node(s: &str) -> (r: Option<(Vec<String>, &str)>)
    ensures
        match spec_parse_node(s@) {
            Some((v, t)) => r matches Some((names, t2)) && names.deep_view() == v && t2@ == t,
            None => r is None,
        },
{
    let len = s.unicode_len();
    let mut i: usize = 0;
    while i < len
        invariant
            len == s@.len(),
            0 <= i <= len,
            forall|j: int| 0 <= j < i ==> !is_delim(#[trigger] s@[j]),
        decreases len - i,
    {
        let c = s.get_char(i);
        if c == ',' || c == '[' {
            proof {
                lemma_delim_index_at(s@, i as int);
            }
            if c == ',' {
                if !s.is_char_boundary(i) || !s.is_char_boundary(i + 1) {
                    return None;
                }
                let head = head_bytes(s, i);
                let tail = tail_bytes(s, i + 1);
                let mut names: Vec<String> = Vec::new();
                names.push(String::from_str(head));
                assert(names.deep_view() =~= seq![utf8_head(s@, i as int)]);
                return Some((names, tail));
            }
            if !s.is_char_boundary(i + 1) {
                return None;
            }
            let inside = tail_bytes(s, i + 1);
            match try_parse_brackets(inside) {
                None => {
                    return None;
                },
                Some((zs, rest)) => {
                    if zs.len() > 0 && !s.is_char_boundary(i) {
                        return None;
                    }
                    let names = if zs.len() > 0 {
                        let head = head_bytes(s, i);
                        prefixed_names(head, &zs)
                    } else {
                        let empty: Vec<String> = Vec::new();
                        assert(empty.deep_view() =~= zs@.map_values(|z: u32| utf8_head(s@, i as int) + decimal(z as nat)));
                        empty
                    };
                    let after = if !rest.is_empty() && rest.get_char(0) == ',' {
                        chars_from(rest, 1)
                    } else {
                        rest
                    };
                    return Some((names, after));
                },
            }
        }
        i = i + 1;
    }
    proof {
        lemma_delim_index_at(s@, i as int);
        reveal_strlit("");
    }
    let mut names: Vec<String> = Vec::new();
    names.push(String::from_str(s));
    assert(names.deep_view() =~= seq![s@]);
    Some((names, ""))
}

/// Reads the first entry of a node list: its host names and the text after it. The entry
/// must be readable (see `spec_parse_node`).
pub fn parse_node(s: &str) -> (r: (Vec<String>, &str))
    requires
        spec_parse_node(s@) is Some,
    ensures
        spec_parse_node(s@) == Some((r.0.deep_view(), r.1@)),
{
    match try_parse_node(s) {
        Some(p) => p,
        None => (Vec::new(), s),
    }
}

/// Puts `v` in front of the names of a list reading.
pub open spec fn names_before(v: Seq<Seq<char>>, res: Option<Seq<Seq<char>>>) -> Option<Seq<Seq<char>>> {
    match res {
        Some(l) => Some(v + l),
        None => None,
    }
}

/// Expands a node list into host names; `None` exactly where `spec_parse_list` has no
/// reading.
pub fn try_parse_list(s: &str) -> (r: Option<Vec<String>>)
    ensures
        match spec_parse_list(s@) {
            Some(l) => r matches Some(v) && v.deep_view() == l,
            None => r is None,
        },
{
    let mut nodes: Vec<String> = Vec::new();
    let mut rest: &str = s;
    assert(spec_parse_list(s@) == names_before(nodes.deep_view(), spec_parse_list(rest@))) by {
        assert forall|l: Seq<Seq<char>>| nodes.deep_view() + l =~= l by {}
    }
    while !rest.is_empty()
        invariant
            spec_parse_list(s@) == names_before(nodes.deep_view(), spec_parse_list(rest@)),
        decreases rest@.len(),
    {
        proof {
            lemma_node_rest_shorter(rest@);
        }
        match try_parse_node(rest) {
            None => {
                return None;
            },
            Some((v, new_rest)) => {
                let mut v = v;
                let ghost prev = nodes.deep_view();
                let ghost vv = v.deep_view();
                nodes.append(&mut v);
                proof {
                    assert(nodes.deep_view() =~= prev + vv);
                    assert forall|l: Seq<Seq<char>>| #[trigger] (prev + (vv + l)) =~= nodes.deep_view() + l by {}
                }
                rest = new_rest;
            },
        }
    }
    assert(nodes.deep_view() + Seq::<Seq<char>>::empty() =~= nodes.deep_view());
    Some(nodes)
}

/// Expands a Slurm node list such as `c1-[0-1],c2-[2-3]` into its host names, in order.
pub fn parse_list(s: &str) -> (nodes: Vec<String>)
    requires
        spec_parse_list(s@) is Some,
    ensures
        nodes.deep_view() == spec_parse_list(s@)->0,
{
    match try_parse_list(s) {
        Some(v) => v,
        None => Vec::new(),
    }
}

/// The UTF-8 text of a concatenation is the concatenation of the texts.
pub proof fn lemma_encode_concat(a: Seq<char>, b: Seq<char>)
    ensures
        encode_utf8(a + b) == encode_utf8(a) + encode_utf8(b),
    decreases a.len(),
{
    if a.len() == 0 {
        assert(a + b =~= b);
        assert(encode_utf8(a) + encode_utf8(b) =~= encode_utf8(b));
    } else {
        lemma_encode_concat(a.drop_first(), b);
        assert((a + b).drop_first() =~= a.drop_first() + b);
        assert((a + b)[0] == a[0]);
        assert(encode_utf8(a + b) =~= encode_utf8(a) + encode_utf8(b));
    }
}

/// After an ASCII prefix of `k` characters, byte `k` is a character boundary and the
/// byte cuts are the character cuts.
pub proof fn lemma_ascii_prefix_cut(s: Seq<char>, k: int)
    requires
        0 <= k <= s.len(),
        is_ascii_chars(s.take(k)),
    ensures
        utf8_cut(s, k),
        utf8_head(s, k) == s.take(k),
        utf8_tail(s, k) == s.skip(k),
{
    broadcast use group_utf8_lib;
    let a = s.take(k);
    let b = s.skip(k);
    assert(s =~= a + b);
    lemma_encode_concat(a, b);
    let bytes = encode_utf8(s);
    assert(encode_utf8(a).len() == k);
    assert(bytes.subrange(0, k) =~= encode_utf8(a));
    assert(bytes.subrange(k, bytes.len() as int) =~= encode_utf8(b));
    if b.len() > 0 {
        encode_utf8_first_scalar(b);
        assert(bytes[k] == encode_utf8(b)[0]);
        assert(!is_continuation_byte(bytes[k]));
    }
}

/// A list that is one name, without `,` or `[`, stands for that name alone.
pub proof fn law_single_name(n: Seq<char>)
    requires
        n.len() > 0,
        forall|j: int| 0 <= j < n.len() ==> !is_delim(#[trigger] n[j]),
    ensures
        spec_parse_list(n) == Some(seq![n]),
{
    lemma_delim_index_at(n, n.len() as int);
    assert(spec_parse_list(Seq::<char>::empty()) == Some(Seq::<Seq<char>>::empty()));
    assert(seq![n] + Seq::<Seq<char>>::empty() =~= seq![n]);
}

/// An ASCII name followed by `,` stands for that name, followed by the names of the
/// rest of the list.
pub proof fn law_name_then_comma(n: Seq<char>, t: Seq<char>)
    requires
        is_ascii_chars(n),
        forall|j: int| 0 <= j < n.len() ==> !is_delim(#[trigger] n[j]),
    ensures
        spec_parse_list(n + seq![','] + t) == names_before(seq![n], spec_parse_list(t)),
{
    let s = n + seq![','] + t;
    let k = n.len() as int;
    assert(s[k] == ',');
    assert forall|j: int| 0 <= j < k implies !is_delim(#[trigger] s[j]) by {
        assert(s[j] == n[j]);
    }
    lemma_delim_index_at(s, k);
    assert(s.take(k) =~= n);
    assert(s.take(k + 1) =~= n.push(','));
    assert(is_ascii_chars(s.take(k + 1)));
    lemma_ascii_prefix_cut(s, k);
    lemma_ascii_prefix_cut(s, k + 1);
    assert(s.skip(k + 1) =~= t);
}

/// An ASCII prefix followed by `[` stands for the prefix followed by each number that
/// the bracket lists, then for the names of what follows the bracket (without one `,`);
/// a bracket that cannot be read makes the list unreadable.
pub proof fn law_prefix_bracket(p: Seq<char>, b: Seq<char>)
    requires
        is_ascii_chars(p),
        forall|j: int| 0 <= j < p.len() ==> !is_delim(#[trigger] p[j]),
    ensures
        spec_parse_list(p + seq!['['] + b) == match spec_parse_brackets(b) {
            Some((zs, r)) => names_before(
                zs.map_values(|z: u32| p + decimal(z as nat)),
                spec_parse_list(skip_comma(r)),
            ),
            None => None,
        },
{
    let s = p + seq!['['] + b;
    let k = p.len() as int;
    assert(s[k] == '[');
    assert forall|j: int| 0 <= j < k implies !is_delim(#[trigger] s[j]) by {
        assert(s[j] == p[j]);
    }
    lemma_delim_index_at(s, k);
    assert(s.take(k) =~= p);
    assert(s.take(k + 1) =~= p.push('['));
    assert(is_ascii_chars(s.take(k + 1)));
    lemma_ascii_prefix_cut(s, k);
    lemma_ascii_prefix_cut(s, k + 1);
    assert(s.skip(k + 1) =~= b);
}

/// A number written in decimal and followed by anything but a digit reads back as itself.
pub proof fn law_parse_int_decimal(a: u32, t: Seq<char>)
    requires
        t.len() == 0 || !is_digit(t[0]),
    ensures
        spec_parse_int(decimal(a as nat) + t) == Some((a, t)),
{
    lemma_decimal_digits(a as nat);
    let d = decimal(a as nat);
    let s = d + t;
    let m = d.len() as int;
    assert forall|j: int| 0 <= j < m implies is_digit(#[trigger] s[j]) by {
        assert(s[j] == d[j]);
    }
    if t.len() > 0 {
        assert(s[m] == t[0]);
    }
    lemma_digit_run_at(s, m);
    assert(s.take(m) =~= d);
    assert(s.skip(m) =~= t);
}

/// Inside a bracket, a number followed by `,` or `]` is listed.
pub proof fn law_bracket_number(a: u32, t: Seq<char>)
    requires
        t.len() > 0,
        t[0] == ',' || t[0] == ']',
    ensures
        spec_parse_brackets(decimal(a as nat) + t) == numbers_before(seq![a], spec_parse_brackets(t)),
{
    lemma_decimal_digits(a as nat);
    law_parse_int_decimal(a, t);
    let s = decimal(a as nat) + t;
    assert(s[0] == decimal(a as nat)[0]);
}

/// Inside a bracket, a range `a-b` lists `a`, `a + 1`, ..., `b`.
pub proof fn law_bracket_range(a: u32, b: u32, t: Seq<char>)
    requires
        t.len() == 0 || !is_digit(t[0]),
    ensures
        spec_parse_brackets(decimal(a as nat) + seq!['-'] + decimal(b as nat) + t)
            == numbers_before(span(a, b), spec_parse_brackets(t)),
{
    lemma_decimal_digits(a as nat);
    lemma_decimal_digits(b as nat);
    let r = seq!['-'] + decimal(b as nat) + t;
    let s = decimal(a as nat) + r;
    assert(decimal(a as nat) + seq!['-'] + decimal(b as nat) + t =~= s);
    law_parse_int_decimal(a, r);
    assert(r.drop_first() =~= decimal(b as nat) + t);
    law_parse_int_decimal(b, t);
    assert(s[0] == decimal(a as nat)[0]);
}

/// Inside a bracket, `]` ends the bracket and the text after it is what follows.
pub proof fn law_bracket_close(t: Seq<char>)
    ensures
        spec_parse_brackets(seq![']'] + t) == Some((Seq::<u32>::empty(), t)),
{
    assert((seq![']'] + t).drop_first() =~= t);
}

/// Inside a bracket, a `,` separates items and adds nothing.
pub proof fn law_bracket_comma(t: Seq<char>)
    ensures
        spec_parse_brackets(seq![','] + t) == spec_parse_brackets(t),
{
    assert((seq![','] + t).drop_first() =~= t);
}

/// `r` is what is left of `t` after some of its first characters.
pub open spec fn is_suffix(r: Seq<char>, t: Seq<char>) -> bool {
    r.len() <= t.len() && r == t.skip(t.len() - r.len())
}

/// Every `[` of `a` has a `]` somewhere after it.
pub open spec fn brackets_closed(a: Seq<char>) -> bool {
    forall|i: int| 0 <= i < a.len() && #[trigger] a[i] == '[' ==>
        exists|j: int| i < j < a.len() && #[trigger] a[j] == ']'
}

/// A suffix of a suffix is a suffix.
proof fn lemma_suffix_transitive(r: Seq<char>, t: Seq<char>, u: Seq<char>)
    requires
        is_suffix(r, t),
        is_suffix(t, u),
    ensures
        is_suffix(r, u),
{
    assert(r =~= u.skip(u.len() - r.len()));
}

/// What a suffix inherits: ASCII text, closed brackets and the last character.
proof fn lemma_suffix_inherits(r: Seq<char>, a: Seq<char>)
    requires
        is_suffix(r, a),
        is_ascii_chars(a),
        brackets_closed(a),
    ensures
        is_ascii_chars(r),
        brackets_closed(r),
        r.len() > 0 ==> r.last() == a.last(),
{
    let m = a.len() - r.len();
    assert forall|i: int| 0 <= i < r.len() implies '\0' <= #[trigger] r[i] <= '\u{7f}' by {
        assert(r[i] == a[m + i]);
    }
    assert forall|i: int| 0 <= i < r.len() && #[trigger] r[i] == '[' implies
        exists|j: int| i < j < r.len() && #[trigger] r[j] == ']' by {
        assert(r[i] == a[m + i]);
        let j = choose|j: int| m + i < j < a.len() && #[trigger] a[j] == ']';
        assert(r[j - m] == a[j]);
    }
    if r.len() > 0 {
        assert(r.last() == a[a.len() - 1]);
    }
}

/// The text after the bracket is a suffix of the bracket's text.
proof fn lemma_brackets_suffix(t: Seq<char>)
    ensures
        spec_parse_brackets(t) matches Some((zs, r)) ==> is_suffix(r, t),
    decreases t.len(),
{
    lemma_digit_run(t);
    if t.len() == 0 {
        assert(t.skip(0) =~= t);
    } else if t[0] == ',' {
        lemma_brackets_suffix(t.drop_first());
        if let Some((zs, r)) = spec_parse_brackets(t) {
            assert(is_suffix(t.drop_first(), t)) by {
                assert(t.drop_first() =~= t.skip(1));
            }
            lemma_suffix_transitive(r, t.drop_first(), t);
        }
    } else if t[0] == ']' {
        assert(t.drop_first() =~= t.skip(1));
    } else {
        match spec_parse_int(t) {
            None => {},
            Some((a, r)) => {
                assert(is_suffix(r, t));
                if r.len() > 0 && (r[0] == ',' || r[0] == ']') {
                    lemma_brackets_suffix(r);
                    if let Some((zs, r3)) = spec_parse_brackets(r) {
                        lemma_suffix_transitive(r3, r, t);
                    }
                } else if r.len() > 0 && r[0] == '-' {
                    let d = r.drop_first();
                    lemma_digit_run(d);
                    assert(is_suffix(d, r)) by {
                        assert(d =~= r.skip(1));
                    }
                    match spec_parse_int(d) {
                        None => {},
                        Some((b, r2)) => {
                            assert(is_suffix(r2, d));
                            lemma_brackets_suffix(r2);
                            if let Some((zs, r3)) = spec_parse_brackets(r2) {
                                lemma_suffix_transitive(r3, r2, d);
                                lemma_suffix_transitive(r3, d, r);
                                lemma_suffix_transitive(r3, r, t);
                            }
                        },
                    }
                } else {
                    lemma_brackets_suffix(r);
                    if let Some((zs, r3)) = spec_parse_brackets(r) {
                        lemma_suffix_transitive(r3, r, t);
                    }
                }
            },
        }
    }
}

/// Text that starts with a non-digit, put after a number, leaves the number unchanged.
proof fn lemma_parse_int_extend(t: Seq<char>, x: Seq<char>)
    requires
        x.len() > 0,
        !is_digit(x[0]),
    ensures
        spec_parse_int(t) matches Some((a, r)) ==> spec_parse_int(t + x) == Some((a, r + x)),
{
    lemma_digit_run(t);
    let n = digit_run(t) as int;
    let u = t + x;
    if spec_parse_int(t) is Some {
        assert forall|j: int| 0 <= j < n implies is_digit(#[trigger] u[j]) by {
            assert(u[j] == t[j]);
        }
        if n < t.len() {
            assert(u[n] == t[n]);
        } else {
            assert(u[n] == x[0]);
        }
        lemma_digit_run_at(u, n);
        assert(u.take(n) =~= t.take(n));
        assert(u.skip(n) =~= t.skip(n) + x);
    }
}

/// A bracket that holds its `]`, followed by text that starts with a non-digit, reads the
/// same numbers, and what follows the bracket gets the text appended.
proof fn lemma_brackets_extend(t: Seq<char>, x: Seq<char>)
    requires
        x.len() > 0,
        !is_digit(x[0]),
        exists|j: int| 0 <= j < t.len() && #[trigger] t[j] == ']',
        spec_parse_brackets(t) is Some,
    ensures
        spec_parse_brackets(t + x) == match spec_parse_brackets(t) {
            Some((zs, r)) => Some((zs, r + x)),
            None => None,
        },
    decreases t.len(),
{
    let u = t + x;
    let j = choose|j: int| 0 <= j < t.len() && #[trigger] t[j] == ']';
    lemma_digit_run(t);
    assert(u[0] == t[0]);
    if t[0] == ',' {
        assert(t.drop_first()[j - 1] == ']');
        lemma_brackets_extend(t.drop_first(), x);
        assert(u.drop_first() =~= t.drop_first() + x);
    } else if t[0] == ']' {
        assert(u.drop_first() =~= t.drop_first() + x);
    } else {
        let (a, r) = spec_parse_int(t)->0;
        let n = digit_run(t) as int;
        lemma_parse_int_extend(t, x);
        assert(r == t.skip(n));
        assert(j >= n);
        assert(r.len() > 0);
        assert(r[j - n] == ']');
        assert((r + x)[0] == r[0]);
        if r[0] == ',' || r[0] == ']' {
            lemma_brackets_extend(r, x);
        } else if r[0] == '-' {
            let d = r.drop_first();
            lemma_digit_run(d);
            lemma_parse_int_extend(d, x);
            assert((r + x).drop_first() =~= d + x);
            let (b, r2) = spec_parse_int(d)->0;
            let n2 = digit_run(d) as int;
            assert(r2 == d.skip(n2));
            assert(j - n != 0);
            assert(d[j - n - 1] == ']');
            assert(j - n - 1 >= n2);
            assert(r2[j - n - 1 - n2] == ']');
            lemma_brackets_extend(r2, x);
        } else {
            lemma_digit_run(r);
            assert(r[0] == t[n]);
        }
    }
}

/// Reading one entry of a list `a + "," + b`, where `a` is ASCII, closes its brackets and
/// does not end with `,`: the entry of `a` and, after it, the rest of `a` with `,` and `b`
/// appended, or `b` alone where the entry ends `a`.
proof fn lemma_node_extend(a: Seq<char>, b: Seq<char>)
    requires
        a.len() > 0,
        is_ascii_chars(a),
        a.last() != ',',
        brackets_closed(a),
        spec_parse_node(a) is Some,
    ensures
        ({
            let (v, r) = spec_parse_node(a)->0;
            &&& is_suffix(r, a)
            &&& r.len() < a.len()
            &&& spec_parse_node(a + seq![','] + b) == Some((v, if r.len() == 0 { b } else { r + seq![','] + b }))
        }),
{
    let s = a + seq![','] + b;
    let k = delim_index(a) as int;
    lemma_delim_index(a);
    assert forall|j: int| 0 <= j < k implies !is_delim(#[trigger] s[j]) by {
        assert(s[j] == a[j]);
    }
    if k < a.len() {
        assert(s[k] == a[k]);
    } else {
        assert(s[k] == ',');
    }
    lemma_delim_index_at(s, k);
    assert(s.take(k + 1) =~= a.push(',').take(k + 1));
    assert(is_ascii_chars(a.push(',')));
    assert(is_ascii_chars(s.take(k + 1)));
    assert(is_ascii_chars(s.take(k))) by {
        assert(s.take(k) =~= s.take(k + 1).take(k));
    }
    lemma_ascii_prefix_cut(s, k);
    lemma_ascii_prefix_cut(s, k + 1);
    assert(s.take(k) =~= a.take(k));
    if k == a.len() {
        assert(s.take(k) =~= a);
        assert(s.skip(k + 1) =~= b);
        assert(a.skip(a.len() as int) =~= Seq::<char>::empty());
    } else {
        let x = seq![','] + b;
        assert(s =~= a + x);
        lemma_ascii_prefix_cut(a, k);
        if k + 1 < a.len() {
            assert(is_ascii_chars(a.take(k + 1))) by {
                assert forall|i: int| 0 <= i < k + 1 implies '\0' <= #[trigger] a.take(k + 1)[i] <= '\u{7f}' by {
                    assert(a.take(k + 1)[i] == a[i]);
                }
            }
            lemma_ascii_prefix_cut(a, k + 1);
        } else {
            assert(is_ascii_chars(a.take(k + 1))) by {
                assert(a.take(k + 1) =~= a);
            }
            lemma_ascii_prefix_cut(a, k + 1);
        }
        assert(s.skip(k + 1) =~= a.skip(k + 1) + x);
        assert(is_suffix(a.skip(k + 1), a));
        if a[k] == ',' {
            assert(k + 1 < a.len());
        } else {
            let t = a.skip(k + 1);
            let j = choose|j: int| k < j < a.len() && #[trigger] a[j] == ']';
            assert(t[j - k - 1] == ']');
            lemma_brackets_extend(t, x);
            lemma_brackets_suffix(t);
            let (zs, rr) = spec_parse_brackets(t)->0;
            lemma_suffix_transitive(rr, t, a);
            if rr.len() > 0 {
                assert((rr + x)[0] == rr[0]);
                if rr[0] == ',' {
                    assert((rr + x).drop_first() =~= rr.drop_first() + x);
                    assert(rr.last() == a.last());
                    assert(rr.len() > 1);
                    assert(is_suffix(rr.drop_first(), a)) by {
                        assert(rr.drop_first() =~= a.skip(a.len() - (rr.len() - 1)));
                    }
                }
            } else {
                assert(rr + x =~= x);
                assert(x.drop_first() =~= b);
            }
        }
    }
}

/// Splitting a list at a `,` between an ASCII list `a`, that closes every bracket it
/// opens and does not end with `,`, and any text `b`: the names of `a` followed by the
/// names of `b`.
pub proof fn law_list_comma_concat(a: Seq<char>, b: Seq<char>)
    requires
        a.len() > 0,
        is_ascii_chars(a),
        a.last() != ',',
        brackets_closed(a),
        spec_parse_list(a) is Some,
    ensures
        spec_parse_list(a + seq![','] + b) == names_before(spec_parse_list(a)->0, spec_parse_list(b)),
    decreases a.len(),
{
    let s = a + seq![','] + b;
    lemma_node_extend(a, b);
    let (v, r) = spec_parse_node(a)->0;
    if r.len() == 0 {
        assert(spec_parse_list(r) == Some(Seq::<Seq<char>>::empty()));
        assert(v + Seq::<Seq<char>>::empty() =~= v);
    } else {
        lemma_suffix_inherits(r, a);
        law_list_comma_concat(r, b);
        let lr = spec_parse_list(r)->0;
        if let Some(lb) = spec_parse_list(b) {
            assert(v + (lr + lb) =~= (v + lr) + lb);
        }
    }
}

/// A range `a-b` stands for every number from `a` to `b`, each once and in increasing
/// order: `b - a + 1` numbers, the `i`-th being `a + i`; none when `a > b`.
pub proof fn law_span_every_number(a: u32, b: u32)
    ensures
        a <= b ==> span(a, b).len() == b - a + 1,
        a > b ==> span(a, b).len() == 0,
        forall|i: int| 0 <= i < span(a, b).len() ==> #[trigger] span(a, b)[i] == a + i,
        forall|x: u32| span(a, b).contains(x) <==> a <= x <= b,
{
    let sp = span(a, b);
    assert forall|x: u32| sp.contains(x) <==> a <= x <= b by {
        if a <= x <= b {
            assert(sp[x - a] == x);
        }
    }
}

/// A bracket holding the range `a-b`, such as `[1-16]`, lists every number from `a` to
/// `b` in increasing order, `b - a + 1` numbers in all, and leaves the text after the `]`.
pub proof fn law_bracket_range_lists_all(a: u32, b: u32, t: Seq<char>)
    requires
        a <= b,
    ensures
        spec_parse_brackets(decimal(a as nat) + seq!['-'] + decimal(b as nat) + seq![']'] + t) matches Some((l, r))
            && r == t
            && l.len() == b - a + 1
            && (forall|i: int| 0 <= i < l.len() ==> #[trigger] l[i] == a + i),
{
    let u = seq![']'] + t;
    assert(decimal(a as nat) + seq!['-'] + decimal(b as nat) + seq![']'] + t
        =~= decimal(a as nat) + seq!['-'] + decimal(b as nat) + u);
    assert(u[0] == ']');
    law_bracket_range(a, b, u);
    law_bracket_close(t);
    law_span_every_number(a, b);
    assert(span(a, b) + Seq::<u32>::empty() =~= span(a, b));
}

} // verus!
