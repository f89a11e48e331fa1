//! Byte-string helpers shared by the parsers and writers of this crate.

use vstd::prelude::*;

verus! {

/// The index of the first `b` in `s`, or `s.len()` when `s` holds none.
pub open spec fn first_index_of(s: Seq<u8>, b: u8) -> nat
    decreases s.len(),
{
    if s.len() == 0 {
        0
    } else if s[0] == b {
        0
    } else {
        1 + first_index_of(s.drop_first(), b)
    }
}

/// `s` cut at every `b`: the pieces between the separators, in order
/// (what `str::split` yields for a one-byte separator).
pub open spec fn split_on(s: Seq<u8>, b: u8) -> Seq<Seq<u8>>
    decreases s.len(),
{
    let i = first_index_of(s, b);
    if i >= s.len() {
        seq![s]
    } else {
        seq![s.take(i as int)] + split_on(s.skip(i + 1 as int), b)
    }
}

/// The decimal digits of `n`, most significant first, without leading zeros.
pub open spec fn dec(n: nat) -> Seq<u8>
    decreases n,
{
    if n < 10 {
        seq![(48 + n) as u8]
    } else {
        dec(n / 10) + seq![(48 + n % 10) as u8]
    }
}

pub open spec fn is_ascii_digit(b: u8) -> bool {
    48 <= b <= 57
}

pub open spec fn all_ascii(s: Seq<u8>) -> bool {
    forall|i: int| 0 <= i < s.len() ==> #[trigger] s[i] < 128
}

/// The characters that the ASCII bytes `s` stand for.
pub open spec fn ascii_chars(s: Seq<u8>) -> Seq<char> {
    s.map_values(|b: u8| b as char)
}

/// `first_index_of` is the first position of `b`, or the length when there is none.
pub proof fn lemma_first_index_of(s: Seq<u8>, b: u8, i: int)
    requires
        0 <= i <= s.len(),
        forall|j: int| 0 <= j < i ==> s[j] != b,
        i == s.len() || s[i] == b,
    ensures
        first_index_of(s, b) == i,
    decreases s.len(),
{
    if s.len() > 0 && s[0] != b {
        lemma_first_index_of(s.drop_first(), b, i - 1);
    }
}

/// The first position of `b` is within `s`, and nothing before it is `b`.
pub proof fn lemma_first_index_of_bounds(s: Seq<u8>, b: u8)
    ensures
        first_index_of(s, b) <= s.len(),
        forall|j: int| 0 <= j < first_index_of(s, b) ==> s[j] != b,
        first_index_of(s, b) < s.len() ==> s[first_index_of(s, b) as int] == b,
    decreases s.len(),
{
    if s.len() > 0 && s[0] != b {
        lemma_first_index_of_bounds(s.drop_first(), b);
        assert forall|j: int| 0 <= j < first_index_of(s, b) implies s[j] != b by {
            if j > 0 {
                assert(s[j] == s.drop_first()[j - 1]);
            }
        }
    }
}

/// A splitting never yields an empty list of pieces.
pub proof fn lemma_split_on_nonempty(s: Seq<u8>, b: u8)
    ensures
        split_on(s, b).len() >= 1,
    decreases s.len(),
{
}

/// Every byte of `s` other than the separator lies in one of the pieces of its splitting.
pub proof fn lemma_split_on_covers(s: Seq<u8>, b: u8, j: int)
    requires
        0 <= j < s.len(),
        s[j] != b,
    ensures
        exists|p: int, k: int|
            0 <= p < split_on(s, b).len() && 0 <= k < split_on(s, b)[p].len() && split_on(
                s,
                b,
            )[p][k] == s[j],
    decreases s.len(),
{
    let i = first_index_of(s, b);
    lemma_first_index_of_bounds(s, b);
    let parts = split_on(s, b);
    if i >= s.len() {
        assert(parts[0][j] == s[j]);
    } else if j < i {
        assert(parts[0] == s.take(i as int));
        assert(parts[0][j] == s[j]);
    } else {
        let rest = s.skip(i + 1 as int);
        lemma_split_on_covers(rest, b, j - i - 1);
        let (p, k) = choose|p: int, k: int|
            0 <= p < split_on(rest, b).len() && 0 <= k < split_on(rest, b)[p].len() && split_on(
                rest,
                b,
            )[p][k] == rest[j - i - 1];
        assert(parts[p + 1] == split_on(rest, b)[p]);
        assert(parts[p + 1][k] == s[j]);
    }
}

/// `dec(n)` is a non-empty run of digits whose value is `n`.
pub proof fn lemma_dec_digits(n: nat)
    ensures
        dec(n).len() >= 1,
        forall|i: int| 0 <= i < dec(n).len() ==> is_ascii_digit(#[trigger] dec(n)[i]),
        dec(n).len() <= 1 || dec(n)[0] != 48u8,
        n < 10 <==> dec(n).len() == 1,
    decreases n,
{
    if n >= 10 {
        lemma_dec_digits(n / 10);
        let d = dec(n / 10);
        assert forall|i: int| 0 <= i < dec(n).len() implies is_ascii_digit(#[trigger] dec(n)[i]) by {
            if i < d.len() {
                assert(dec(n)[i] == d[i]);
            }
        }
        assert(dec(n)[0] == d[0]);
        assert(n / 10 >= 1);
        if d.len() == 1 {
            assert(d[0] == (48 + n / 10) as u8);
        }
    }
}

/// Appends `src[start..end]` to `out`.
pub fn push_range(out: &mut Vec<u8>, src: &[u8], start: usize, end: usize)
    requires
        start <= end <= src@.len(),
    ensures
        final(out)@ == old(out)@ + src@.subrange(start as int, end as int),
{
    let mut i = start;
    while i < end
        invariant
            start <= i <= end <= src@.len(),
            out@ == old(out)@ + src@.subrange(start as int, i as int),
        decreases end - i,
    {
        out.push(src[i]);
        i = i + 1;
        assert(out@ =~= old(out)@ + src@.subrange(start as int, i as int));
    }
}

/// Appends all of `src` to `out`.
pub fn push_all(out: &mut Vec<u8>, src: &[u8])
    ensures
        final(out)@ == old(out)@ + src@,
{
    push_range(out, src, 0, src.len());
    assert(src@.subrange(0, src@.len() as int) =~= src@);
}

/// Appends the decimal digits of `n` to `out`.
pub fn push_decimal(out: &mut Vec<u8>, n: u64)
    ensures
        final(out)@ == old(out)@ + dec(n as nat),
    decreases n,
{
    if n >= 10 {
        push_decimal(out, n / 10);
    }
    let ghost mid = out@;
    out.push((48 + n % 10) as u8);
    proof {
        if n >= 10 {
            assert(out@ =~= old(out)@ + dec(n as nat));
        } else {
            assert(out@ =~= old(out)@ + dec(n as nat));
        }
    }
}

/// Turns ASCII bytes into a `String` through `String::from_utf8`.
///
/// Trusted: ASCII bytes are valid UTF-8 and each stands for the character of
/// the same code, so `from_utf8` succeeds and the string holds those characters.
#[verifier::external_body]
pub(crate) fn ascii_string(bytes: Vec<u8>) -> (res: String)
    requires
        all_ascii(bytes@),
    ensures
        res@ == ascii_chars(bytes@),
{
    String::from_utf8(bytes).unwrap()
}

/// The index of the first `b` in `s[start..]`, counted from the start of `s`,
/// or `s.len()` when there is none.
pub fn find_byte_from(s: &[u8], start: usize, b: u8) -> (res: usize)
    requires
        start <= s@.len(),
    ensures
        start <= res <= s@.len(),
        res - start == first_index_of(s@.skip(start as int), b),
        forall|j: int| start <= j < res ==> s@[j] != b,
        res < s@.len() ==> s@[res as int] == b,
{
    let mut i = start;
    while i < s.len() && s[i] != b
        invariant
            start <= i <= s@.len(),
            forall|j: int| start <= j < i ==> s@[j] != b,
        decreases s@.len() - i,
    {
        i = i + 1;
    }
    proof {
        lemma_first_index_of(s@.skip(start as int), b, i - start);
    }
    i
}

/// `needle` stands in `hay` at position `i`.
pub open spec fn occurs_at(hay: Seq<u8>, needle: Seq<u8>, i: int) -> bool {
    0 <= i && i + needle.len() <= hay.len() && hay.subrange(i, i + needle.len()) == needle
}

/// `i` is the first position at which `needle` stands in `hay`.
pub open spec fn is_first_occurrence(hay: Seq<u8>, needle: Seq<u8>, i: int) -> bool {
    occurs_at(hay, needle, i) && forall|j: int| 0 <= j < i ==> !occurs_at(hay, needle, j)
}

/// The first position at which `needle` stands in `hay`, if it stands anywhere.
pub open spec fn spec_find(hay: Seq<u8>, needle: Seq<u8>) -> Option<int> {
    if exists|i: int| occurs_at(hay, needle, i) {
        Some(choose|i: int| is_first_occurrence(hay, needle, i))
    } else {
        None
    }
}

/// Where some position holds `needle`, there is a first such position.
pub proof fn lemma_first_occurrence_exists(hay: Seq<u8>, needle: Seq<u8>, i: int)
    requires
        occurs_at(hay, needle, i),
    ensures
        exists|k: int| is_first_occurrence(hay, needle, k),
    decreases i,
{
    if !is_first_occurrence(hay, needle, i) {
        let j = choose|j: int| 0 <= j < i && occurs_at(hay, needle, j);
        lemma_first_occurrence_exists(hay, needle, j);
    }
}

/// `spec_find` gives the first occurrence, and the first occurrence is unique.
pub proof fn lemma_spec_find(hay: Seq<u8>, needle: Seq<u8>, i: int)
    requires
        is_first_occurrence(hay, needle, i),
    ensures
        spec_find(hay, needle) == Some(i),
{
    lemma_first_occurrence_exists(hay, needle, i);
    let k = choose|k: int| is_first_occurrence(hay, needle, k);
    assert(k == i) by {
        if k < i {
            assert(!occurs_at(hay, needle, k));
        } else if i < k {
            assert(!occurs_at(hay, needle, i));
        }
    }
}

/// `spec_find` finds nothing exactly where `needle` stands nowhere.
pub proof fn lemma_spec_find_none(hay: Seq<u8>, needle: Seq<u8>)
    ensures
        spec_find(hay, needle) is None <==> forall|i: int| !occurs_at(hay, needle, i),
        spec_find(hay, needle) matches Some(i) ==> is_first_occurrence(hay, needle, i),
{
    if exists|i: int| occurs_at(hay, needle, i) {
        let i = choose|i: int| occurs_at(hay, needle, i);
        lemma_first_occurrence_exists(hay, needle, i);
    }
}

/// Whether `needle` stands in `hay` at position `i`.
fn occurs_at_exec(hay: &[u8], needle: &[u8], i: usize) -> (res: bool)
    requires
        i + needle@.len() <= hay@.len(),
    ensures
        res == occurs_at(hay@, needle@, i as int),
{
    let mut k: usize = 0;
    while k < needle.len()
        invariant
            i + needle@.len() <= hay@.len(),
            hay@.len() == hay.len(),
            0 <= k <= needle@.len(),
            forall|j: int| 0 <= j < k ==> hay@[i + j] == needle@[j],
        decreases needle@.len() - k,
    {
        if hay[i + k] != needle[k] {
            assert(hay@.subrange(i as int, i + needle@.len())[k as int] != needle@[k as int]);
            return false;
        }
        k = k + 1;
    }
    assert(hay@.subrange(i as int, i + needle@.len()) =~= needle@);
    true
}

/// The first position of `needle` in `hay`, searching from the start (what
/// `str::find` gives for a text pattern).
pub fn find_bytes(hay: &[u8], needle: &[u8]) -> (res: Option<usize>)
    ensures
        res is None <==> spec_find(hay@, needle@) is None,
        res matches Some(i) ==> spec_find(hay@, needle@) == Some(i as int),
{
    if needle.len() > hay.len() {
        proof {
            lemma_spec_find_none(hay@, needle@);
        }
        return None;
    }
    if needle.len() == 0 {
        assert(hay@.subrange(0, 0) =~= needle@);
        proof {
            lemma_spec_find(hay@, needle@, 0);
        }
        return Some(0);
    }
    let last = hay.len() - needle.len();
    let mut i: usize = 0;
    while i <= last
        invariant
            last + needle@.len() == hay@.len(),
            hay@.len() == hay.len(),
            needle@.len() >= 1,
            0 <= i <= last + 1,
            forall|j: int| 0 <= j < i ==> !occurs_at(hay@, needle@, j),
        decreases last + 1 - i,
    {
        if occurs_at_exec(hay, needle, i) {
            proof {
                lemma_spec_find(hay@, needle@, i as int);
            }
            return Some(i);
        }
        i = i + 1;
    }
    proof {
        lemma_spec_find_none(hay@, needle@);
    }
    None
}

/// Searches `hay` for `needle` with `bstr::ByteSlice::find`.
///
/// Trusted: as bstr documents, the result is the index of the first
/// occurrence of `needle`, or `None` when it occurs nowhere.
#[verifier::external_body]
pub(crate) fn bytes_find(hay: &[u8], needle: &[u8]) -> (res: Option<usize>)
    ensures
        res is None <==> spec_find(hay@, needle@) is None,
        res matches Some(i) ==> spec_find(hay@, needle@) == Some(i as int),
{
    bstr::ByteSlice::find(hay, needle)
}

/// Whether two byte strings are equal.
pub fn bytes_eq(a: &[u8], b: &[u8]) -> (res: bool)
    ensures
        res == (a@ == b@),
{
    if a.len() != b.len() {
        return false;
    }
    let mut i: usize = 0;
    while i < a.len()
        invariant
            a@.len() == b@.len(),
            0 <= i <= a@.len(),
            forall|j: int| 0 <= j < i ==> a@[j] == b@[j],
        decreases a@.len() - i,
    {
        if a[i] != b[i] {
            return false;
        }
        i = i + 1;
    }
    assert(a@ =~= b@);
    true
}

/// The pieces of `ls` joined end to end.
pub open spec fn concat_all(ls: Seq<Seq<u8>>) -> Seq<u8>
    decreases ls.len(),
{
    if ls.len() == 0 {
        Seq::empty()
    } else {
        ls[0] + concat_all(ls.drop_first())
    }
}

/// `s` cut into lines, each with its `\n` terminator; the last line has
/// none when `s` does not end in one. An empty `s` has no lines.
pub open spec fn spec_lines(s: Seq<u8>) -> Seq<Seq<u8>>
    decreases s.len(),
{
    if s.len() == 0 {
        Seq::empty()
    } else {
        let i = first_index_of(s, 10u8);
        if i >= s.len() {
            seq![s]
        } else {
            seq![s.take(i + 1 as int)] + spec_lines(s.skip(i + 1 as int))
        }
    }
}

/// `ls` is a cutting of `s` into lines: joined they give `s`, none is empty,
/// each holds a `\n` only as its last byte, and all but the last end in one.
pub open spec fn is_line_split(s: Seq<u8>, ls: Seq<Seq<u8>>) -> bool {
    &&& concat_all(ls) == s
    &&& forall|i: int| 0 <= i < ls.len() ==> (#[trigger] ls[i]).len() >= 1
    &&& forall|i: int, k: int|
        0 <= i < ls.len() && 0 <= k < ls[i].len() - 1 ==> (#[trigger] ls[i][k]) != 10u8
    &&& forall|i: int| 0 <= i < ls.len() - 1 ==> (#[trigger] ls[i]).last() == 10u8
}

/// Text that ends at the end of a line cuts into its own lines, and what
/// follows into the rest.
pub proof fn lemma_lines_append(a: Seq<u8>, b: Seq<u8>)
    requires
        a.len() == 0 || a.last() == 10u8,
    ensures
        spec_lines(a + b) == spec_lines(a) + spec_lines(b),
    decreases a.len(),
{
    if a.len() == 0 {
        assert(a + b =~= b);
        assert(spec_lines(a) =~= Seq::<Seq<u8>>::empty());
        assert(spec_lines(a) + spec_lines(b) =~= spec_lines(b));
    } else {
        let ab = a + b;
        let i = first_index_of(a, 10u8);
        lemma_first_index_of_bounds(a, 10u8);
        if i >= a.len() {
            assert(a[a.len() - 1] == 10u8);
        }
        assert(i < a.len());
        assert forall|j: int| 0 <= j < i implies ab[j] != 10u8 by {
            assert(ab[j] == a[j]);
        }
        assert(ab[i as int] == a[i as int]);
        lemma_first_index_of(ab, 10u8, i as int);
        assert(ab.take(i + 1 as int) =~= a.take(i + 1 as int));
        assert(ab.skip(i + 1 as int) =~= a.skip(i + 1 as int) + b);
        let rest = a.skip(i + 1 as int);
        if rest.len() > 0 {
            assert(rest.last() == a.last());
        }
        lemma_lines_append(rest, b);
        assert(spec_lines(ab) =~= seq![a.take(i + 1 as int)] + (spec_lines(rest) + spec_lines(b)));
        assert(spec_lines(a) =~= seq![a.take(i + 1 as int)] + spec_lines(rest));
        assert(spec_lines(ab) =~= spec_lines(a) + spec_lines(b));
    }
}

/// Joining the lines of `s` gives `s` back.
pub proof fn lemma_lines_concat(s: Seq<u8>)
    ensures
        concat_all(spec_lines(s)) == s,
    decreases s.len(),
{
    if s.len() > 0 {
        let i = first_index_of(s, 10u8);
        lemma_first_index_of_bounds(s, 10u8);
        if i >= s.len() {
            assert(concat_all(seq![s]) =~= s + concat_all(seq![s].drop_first()));
            assert(seq![s].drop_first() =~= Seq::<Seq<u8>>::empty());
            assert(concat_all(seq![s]) =~= s);
        } else {
            let rest = s.skip(i + 1 as int);
            lemma_lines_concat(rest);
            let ls = spec_lines(s);
            assert(ls[0] == s.take(i + 1 as int));
            assert(ls.drop_first() =~= spec_lines(rest));
            assert(s =~= s.take(i + 1 as int) + rest);
        }
    }
}

/// There is one way only to cut a byte string into lines: `spec_lines`.
pub proof fn lemma_line_split_unique(s: Seq<u8>, ls: Seq<Seq<u8>>)
    requires
        is_line_split(s, ls),
    ensures
        ls == spec_lines(s),
    decreases ls.len(),
{
    if ls.len() == 0 {
        assert(s.len() == 0);
        assert(ls =~= spec_lines(s));
    } else {
        let first = ls[0];
        let rest = ls.drop_first();
        assert(s =~= first + concat_all(rest));
        assert(s.len() >= 1);
        if ls.len() == 1 {
            assert(concat_all(rest) =~= Seq::<u8>::empty());
            assert(s =~= first);
            if s.last() == 10u8 {
                lemma_first_index_of(s, 10u8, s.len() - 1);
                assert(s.take(s.len() as int) =~= s);
                assert(s.skip(s.len() as int) =~= Seq::<u8>::empty());
                assert(spec_lines(s.skip(s.len() as int)) =~= Seq::<Seq<u8>>::empty());
                assert(spec_lines(s) =~= seq![s]);
            } else {
                lemma_first_index_of(s, 10u8, s.len() as int);
                assert(spec_lines(s) =~= seq![s]);
            }
            assert(ls =~= seq![s]);
        } else {
            let n = first.len() - 1;
            assert(first[n] == 10u8);
            assert forall|j: int| 0 <= j < n implies s[j] != 10u8 by {
                assert(s[j] == first[j]);
                assert(ls[0][j] != 10u8);
            }
            assert(s[n] == first[n]);
            lemma_first_index_of(s, 10u8, n);
            assert(s.take(n + 1) =~= first);
            assert(s.skip(n + 1) =~= concat_all(rest));
            assert(is_line_split(concat_all(rest), rest)) by {
                assert forall|i: int| 0 <= i < rest.len() implies (#[trigger] rest[i]).len() >= 1 by {
                    assert(rest[i] == ls[i + 1]);
                }
                assert forall|i: int, k: int|
                    0 <= i < rest.len() && 0 <= k < rest[i].len() - 1 implies (
                    #[trigger] rest[i][k]) != 10u8 by {
                    assert(rest[i] == ls[i + 1]);
                    assert(ls[i + 1][k] != 10u8);
                }
                assert forall|i: int| 0 <= i < rest.len() - 1 implies (#[trigger] rest[i]).last()
                    == 10u8 by {
                    assert(rest[i] == ls[i + 1]);
                }
            }
            lemma_line_split_unique(concat_all(rest), rest);
            assert(ls =~= seq![first] + rest);
            assert(spec_lines(s) =~= seq![first] + spec_lines(concat_all(rest)));
        }
    }
}

/// Cuts `data` into lines with `bstr::ByteSlice::lines_with_terminator`.
///
/// Trusted: as bstr documents, the lines keep their `\n` terminators, each
/// ends at the first `\n` after its start, and joined they give `data` back.
#[verifier::external_body]
pub(crate) fn lines_with_terminator(data: &[u8]) -> (res: Vec<&[u8]>)
    ensures
        is_line_split(data@, res@.map_values(|l: &[u8]| l@)),
{
    bstr::ByteSlice::lines_with_terminator(data).collect()
}

/// Whether `e` is the UTF-8 encoding of a character with the Unicode
/// `White_Space` property: U+0009 to U+000D, U+0020, U+0085, U+00A0, U+1680,
/// U+2000 to U+200A, U+2028, U+2029, U+202F, U+205F and U+3000.
pub open spec fn is_whitespace_encoding(e: Seq<u8>) -> bool {
    ||| e.len() == 1 && ((9 <= e[0] <= 13) || e[0] == 32)
    ||| e.len() == 2 && e[0] == 0xC2 && (e[1] == 0x85 || e[1] == 0xA0)
    ||| e.len() == 3 && e[0] == 0xE1 && e[1] == 0x9A && e[2] == 0x80
    ||| e.len() == 3 && e[0] == 0xE2 && e[1] == 0x80 && ((0x80 <= e[2] <= 0x8A) || e[2] == 0xA8
        || e[2] == 0xA9 || e[2] == 0xAF)
    ||| e.len() == 3 && e[0] == 0xE2 && e[1] == 0x81 && e[2] == 0x9F
    ||| e.len() == 3 && e[0] == 0xE3 && e[1] == 0x80 && e[2] == 0x80
}

/// `s` without its trailing whitespace: the longest suffix made of encoded
/// `White_Space` characters is dropped. (No such encoding ends another, so
/// taking them off one at a time from the end finds that suffix.)
pub open spec fn trimmed_end(s: Seq<u8>) -> Seq<u8>
    decreases s.len(),
{
    if s.len() >= 1 && is_whitespace_encoding(s.skip(s.len() - 1)) {
        trimmed_end(s.take(s.len() - 1))
    } else if s.len() >= 2 && is_whitespace_encoding(s.skip(s.len() - 2)) {
        trimmed_end(s.take(s.len() - 2))
    } else if s.len() >= 3 && is_whitespace_encoding(s.skip(s.len() - 3)) {
        trimmed_end(s.take(s.len() - 3))
    } else {
        s
    }
}

/// An ASCII byte at the end decides alone: trimming keeps a string that ends
/// in an ASCII byte other than whitespace, and drops a final ASCII
/// whitespace byte before trimming the rest.
pub proof fn lemma_trimmed_end_ascii(s: Seq<u8>)
    requires
        s.len() > 0,
        s.last() < 128,
    ensures
        (9 <= s.last() <= 13 || s.last() == 32) ==> trimmed_end(s) == trimmed_end(s.drop_last()),
        !(9 <= s.last() <= 13 || s.last() == 32) ==> trimmed_end(s) == s,
{
    assert(s.skip(s.len() - 1)[0] == s.last());
    assert(s.take(s.len() - 1) =~= s.drop_last());
    if s.len() >= 2 {
        assert(s.skip(s.len() - 2)[1] == s.last());
    }
    if s.len() >= 3 {
        assert(s.skip(s.len() - 3)[2] == s.last());
    }
}

/// Trims trailing whitespace with `bstr::ByteSlice::trim_end`.
///
/// Trusted: as bstr documents, trailing whitespace in the sense of the
/// Unicode `White_Space` property is removed (bstr matches `\s+` backwards
/// from the end and returns `&s[..end]`); that is `trimmed_end`, a prefix of `s`.
#[verifier::external_body]
pub(crate) fn trim_end(s: &[u8]) -> (res: &[u8])
    ensures
        res@ == trimmed_end(s@),
        res@.len() <= s@.len(),
        res@ == s@.take(res@.len() as int),
{
    bstr::ByteSlice::trim_end(s)
}

/// Splits `s` at the first `sep` with `bstr::ByteSlice::split_once_str`.
///
/// Trusted: as bstr documents, the parts are those before and after the
/// first occurrence of `sep`, and `None` comes back when there is none.
#[verifier::external_body]
pub(crate) fn split_once_str<'a>(s: &'a [u8], sep: &[u8]) -> (res: Option<(&'a [u8], &'a [u8])>)
    ensures
        res is None <==> spec_find(s@, sep@) is None,
        res matches Some((a, b)) ==> ({
            let i = spec_find(s@, sep@)->Some_0;
            a@ == s@.take(i) && b@ == s@.skip(i + sep@.len())
        }),
{
    bstr::ByteSlice::split_once_str(s, sep)
}

} // verus!
