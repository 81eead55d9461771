//! Small verified operations on text: searching, filtering and splitting.

use vstd::prelude::*;
use vstd::string::*;

verus! {

broadcast use vstd::string::group_string_axioms;

/// The characters of `s`.
pub fn char_vec(s: &str) -> (v: Vec<char>)
    ensures
        v@ == s@,
{
    let mut v: Vec<char> = Vec::new();
    for c in it: s.chars()
        invariant
            v@ == it.seq().take(it.index() as int),
    {
        v.push(c);
    }
    v
}

/// `needle` occurs in `hay` at some position.
pub open spec fn occurs_in(needle: Seq<char>, hay: Seq<char>) -> bool {
    exists|i: int| 0 <= i <= hay.len() - needle.len() && #[trigger] hay.subrange(i, i + needle.len()) == needle
}

/// Whether `needle` occurs in `hay`, as `str::contains` answers.
pub fn contains_text(hay: &str, needle: &str) -> (r: bool)
    ensures
        r == occurs_in(needle@, hay@),
{
    let h = char_vec(hay);
    let n = char_vec(needle);
    if n.len() > h.len() {
        return false;
    }
    let last = h.len() - n.len();
    let mut i: usize = 0;
    while i <= last
        invariant
            h@ == hay@,
            n@ == needle@,
            last == h.len() - n.len(),
            n.len() <= h.len(),
            0 <= i <= last + 1,
            forall|k: int| 0 <= k < i ==> #[trigger] h@.subrange(k, k + n@.len()) != n@,
        decreases last + 1 - i,
    {
        let mut j: usize = 0;
        let mut same = true;
        while j < n.len()
            invariant
                h@ == hay@,
                n@ == needle@,
                i + n.len() <= h.len(),
                0 <= j <= n.len(),
                same == (forall|m: int| 0 <= m < j ==> h@[i + m] == n@[m]),
            decreases n.len() - j,
        {
            if h[i + j] != n[j] {
                same = false;
            }
            j = j + 1;
        }
        if same {
            assert(h@.subrange(i as int, i + n@.len()) =~= n@);
            return true;
        }
        assert(h@.subrange(i as int, i + n@.len()) != n@) by {
            let m = choose|m: int| 0 <= m < n.len() && h@[i + m] != n@[m];
            assert(h@.subrange(i as int, i + n@.len())[m] == h@[i + m]);
        }
        i = i + 1;
    }
    false
}

/// Whether `c` occurs in `s`.
pub fn contains_char(s: &str, c: char) -> (r: bool)
    ensures
        r == s@.contains(c),
{
    let v = char_vec(s);
    let mut i: usize = 0;
    while i < v.len()
        invariant
            v@ == s@,
            0 <= i <= v.len(),
            forall|k: int| 0 <= k < i ==> v@[k] != c,
        decreases v.len() - i,
    {
        if v[i] == c {
            return true;
        }
        i = i + 1;
    }
    false
}

/// `s` with every `c` taken out.
pub open spec fn without(s: Seq<char>, c: char) -> Seq<char> {
    s.filter(|x: char| x != c)
}

/// A text without `c` is unchanged by taking `c` out.
proof fn lemma_without_absent(s: Seq<char>, c: char)
    requires
        !s.contains(c),
    ensures
        without(s, c) == s,
    decreases s.len(),
{
    reveal_with_fuel(Seq::filter, 1);
    if s.len() > 0 {
        lemma_without_absent(s.drop_last(), c);
        assert(s.drop_last().push(s.last()) =~= s);
    } else {
        assert(without(s, c) =~= s);
    }
}

/// Taking `c` out of a concatenation takes it out of each part.
proof fn lemma_without_concat(a: Seq<char>, b: Seq<char>, c: char)
    ensures
        without(a + b, c) == without(a, c) + without(b, c),
{
    Seq::filter_distributes_over_add(a, b, |x: char| x != c);
}

/// `s` with every `c` taken out, as `str::replace(c, "")` gives it.
pub fn remove_char(s: &str, c: char) -> (r: String)
    ensures
        r@ == without(s@, c),
{
    let v = char_vec(s);
    let len = v.len();
    let mut out = String::new();
    let mut start: usize = 0;
    let mut i: usize = 0;
    proof {
        reveal_with_fuel(Seq::filter, 1);
        assert(without(s@.take(0), c) =~= Seq::<char>::empty());
    }
    while i < len
        invariant
            v@ == s@,
            len == v.len(),
            0 <= start <= i <= len,
            out@ == without(s@.take(start as int), c),
            !s@.subrange(start as int, i as int).contains(c),
        decreases len - i,
    {
        if v[i] == c {
            let piece = s.substring_char(start, i);
            out.append(piece);
            proof {
                lemma_without_absent(piece@, c);
                assert(s@.take(i + 1) =~= s@.take(start as int) + piece@ + seq![c]);
                lemma_without_concat(s@.take(start as int) + piece@, seq![c], c);
                lemma_without_concat(s@.take(start as int), piece@, c);
                reveal_with_fuel(Seq::filter, 2);
                assert(without(seq![c], c) =~= Seq::<char>::empty());
            }
            start = i + 1;
            i = i + 1;
            proof {
                assert(s@.subrange(start as int, i as int) =~= Seq::<char>::empty());
            }
        } else {
            proof {
                assert(s@.subrange(start as int, i + 1) =~= s@.subrange(start as int, i as int).push(v@[i as int]));
            }
            i = i + 1;
        }
    }
    let piece = s.substring_char(start, len);
    out.append(piece);
    proof {
        lemma_without_absent(piece@, c);
        assert(s@ =~= s@.take(start as int) + piece@);
        lemma_without_concat(s@.take(start as int), piece@, c);
    }
    out
}

/// The index of the first `c` in `s`, or its length when there is none.
pub open spec fn index_of_char(s: Seq<char>, c: char) -> nat
    decreases s.len(),
{
    if s.len() == 0 || s[0] == c {
        0
    } else {
        1 + index_of_char(s.drop_first(), c)
    }
}

/// The pieces of `s` between the occurrences of `c`, as `str::split(c)` yields them.
pub open spec fn split_at_char(s: Seq<char>, c: char) -> Seq<Seq<char>>
    decreases s.len(),
{
    let i = index_of_char(s, c) as int;
    if i >= s.len() {
        seq![s]
    } else {
        proof {
            lemma_index_of_char(s, c);
        }
        seq![s.take(i)] + split_at_char(s.skip(i + 1), c)
    }
}

/// Facts about `index_of_char`.
pub proof fn lemma_index_of_char(s: Seq<char>, c: char)
    ensures
        index_of_char(s, c) <= s.len(),
        forall|j: int| 0 <= j < index_of_char(s, c) ==> #[trigger] s[j] != c,
        index_of_char(s, c) < s.len() ==> s[index_of_char(s, c) as int] == c,
    decreases s.len(),
{
    if s.len() > 0 && s[0] != c {
        lemma_index_of_char(s.drop_first(), c);
        assert forall|j: int| 0 <= j < index_of_char(s, c) implies #[trigger] s[j] != c by {
            if j > 0 {
                assert(s[j] == s.drop_first()[j - 1]);
            }
        }
    }
}

/// A scan that stops at `i` determines `index_of_char`.
proof fn lemma_index_of_char_at(s: Seq<char>, c: char, i: int)
    requires
        0 <= i <= s.len(),
        forall|j: int| 0 <= j < i ==> #[trigger] s[j] != c,
        i == s.len() || s[i] == c,
    ensures
        index_of_char(s, c) == i,
{
    lemma_index_of_char(s, c);
    if index_of_char(s, c) < i {
        assert(s[index_of_char(s, c) as int] == c);
    }
    if index_of_char(s, c) > i {
        assert(s[i] != c);
    }
}

/// The pieces of `s` between the occurrences of `c`.
pub fn split_char(s: &str, c: char) -> (pieces: Vec<String>)
    ensures
        pieces.deep_view() == split_at_char(s@, c),
{
    let v = char_vec(s);
    let len = v.len();
    let mut pieces: Vec<String> = Vec::new();
    let mut start: usize = 0;
    let mut i: usize = 0;
    assert(s@.skip(0) =~= s@);
    assert(pieces.deep_view() + split_at_char(s@, c) =~= split_at_char(s@, c));
    while i < len
        invariant
            v@ == s@,
            len == v.len(),
            0 <= start <= i <= len,
            split_at_char(s@, c) == pieces.deep_view() + split_at_char(s@.skip(start as int), c),
            forall|j: int| start <= j < i ==> #[trigger] s@[j] != c,
        decreases len - i,
    {
        if v[i] == c {
            let piece = s.substring_char(start, i);
            let ghost rest = s@.skip(start as int);
            proof {
                assert forall|j: int| 0 <= j < i - start implies #[trigger] rest[j] != c by {
                    assert(rest[j] == s@[start + j]);
                }
                lemma_index_of_char_at(rest, c, i - start);
                assert(rest.take(i - start) =~= piece@);
                assert(rest.skip(i - start + 1) =~= s@.skip(i + 1));
            }
            let ghost before = pieces.deep_view();
            pieces.push(String::from_str(piece));
            proof {
                assert(pieces.deep_view() =~= before + seq![piece@]);
                assert(before + (seq![piece@] + split_at_char(s@.skip(i + 1), c))
                    =~= pieces.deep_view() + split_at_char(s@.skip(i + 1), c));
            }
            start = i + 1;
        }
        i = i + 1;
    }
    let piece = s.substring_char(start, len);
    let ghost rest = s@.skip(start as int);
    proof {
        assert forall|j: int| 0 <= j < len - start implies #[trigger] rest[j] != c by {
            assert(rest[j] == s@[start + j]);
        }
        lemma_index_of_char_at(rest, c, len - start);
        assert(rest =~= piece@);
    }
    let ghost before = pieces.deep_view();
    pieces.push(String::from_str(piece));
    assert(pieces.deep_view() =~= before + seq![piece@]);
    pieces
}

} // verus!
