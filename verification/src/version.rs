//! Package versions: parsing from text, writing back out, and ordering.

use vstd::prelude::*;
use vstd::string::StringSliceAdditionalSpecFns;
use crate::bytes::{
    all_ascii, ascii_chars, ascii_string, dec, find_byte_from, is_ascii_digit, lemma_dec_digits,
    lemma_first_index_of,
    lemma_split_on_nonempty, push_decimal, split_on,
};

verus! {

/// A four-part package version. Missing parts count as zero.
#[derive(Clone, Copy, Debug, PartialEq, Eq, Structural, PartialOrd, Ord, Hash)]
pub struct Version {
    pub major: u16,
    pub minor: u16,
    pub patch: u16,
    pub build: u16,
}

/// The value of a run of decimal digits.
pub open spec fn digits_value(s: Seq<u8>) -> nat
    decreases s.len(),
{
    if s.len() == 0 {
        0
    } else {
        digits_value(s.drop_last()) * 10 + (s.last() - 48) as nat
    }
}

pub open spec fn all_digits(s: Seq<u8>) -> bool {
    forall|i: int| 0 <= i < s.len() ==> is_ascii_digit(#[trigger] s[i])
}

/// What `u16::from_str` accepts: an optional `+`, then at least one decimal
/// digit, with a value that fits in 16 bits.
pub open spec fn spec_parse_u16(s: Seq<u8>) -> Option<u16> {
    let d = if s.len() > 0 && s[0] == 43u8 {
        s.drop_first()
    } else {
        s
    };
    if d.len() > 0 && all_digits(d) && digits_value(d) <= 65535 {
        Some(digits_value(d) as u16)
    } else {
        None
    }
}

/// `s` without one leading `v`.
pub open spec fn strip_v(s: Seq<u8>) -> Seq<u8> {
    if s.len() > 0 && s[0] == 118u8 {
        s.drop_first()
    } else {
        s
    }
}

/// The version that a text stands for: after an optional leading `v`, two to
/// four numbers separated by dots; missing numbers are zero. Any other text
/// stands for no version. (A fifth part would be left joined to the fourth,
/// which then fails to parse as a number.)
pub open spec fn spec_parse_version(s: Seq<u8>) -> Option<Version> {
    let parts = split_on(strip_v(s), 46u8);
    if 2 <= parts.len() <= 4 && forall|i: int|
        0 <= i < parts.len() ==> (#[trigger] spec_parse_u16(parts[i])) is Some {
        Some(
            Version {
                major: spec_parse_u16(parts[0]).unwrap(),
                minor: spec_parse_u16(parts[1]).unwrap(),
                patch: if parts.len() > 2 {
                    spec_parse_u16(parts[2]).unwrap()
                } else {
                    0
                },
                build: if parts.len() > 3 {
                    spec_parse_u16(parts[3]).unwrap()
                } else {
                    0
                },
            },
        )
    } else {
        None
    }
}

/// How a version is written: `major.minor`, then `.patch` when the patch is
/// set and the build is zero, or the patch and then `.build` (with no dot
/// before the patch) when the build is set.
pub open spec fn spec_display(v: Version) -> Seq<u8> {
    dec(v.major as nat) + seq![46u8] + dec(v.minor as nat) + if v.patch == 0 && v.build == 0 {
        Seq::<u8>::empty()
    } else if v.build == 0 {
        seq![46u8] + dec(v.patch as nat)
    } else {
        dec(v.patch as nat) + seq![46u8] + dec(v.build as nat)
    }
}

/// `a` is strictly newer than `b`: the parts compared in order, first difference decides.
pub open spec fn spec_newer(a: Version, b: Version) -> bool {
    ||| a.major > b.major
    ||| a.major == b.major && a.minor > b.minor
    ||| a.major == b.major && a.minor == b.minor && a.patch > b.patch
    ||| a.major == b.major && a.minor == b.minor && a.patch == b.patch && a.build > b.build
}

proof fn lemma_digits_value_prefix(d: Seq<u8>, k: int)
    requires
        0 <= k <= d.len(),
        all_digits(d),
    ensures
        digits_value(d.take(k)) <= digits_value(d),
    decreases d.len(),
{
    if k < d.len() {
        assert(all_digits(d.drop_last())) by {
            assert forall|i: int| 0 <= i < d.drop_last().len() implies is_ascii_digit(
                #[trigger] d.drop_last()[i],
            ) by {
                assert(d.drop_last()[i] == d[i]);
            }
        }
        lemma_digits_value_prefix(d.drop_last(), k);
        assert(d.drop_last().take(k) =~= d.take(k));
    } else {
        assert(d.take(k) =~= d);
    }
}

/// Parses `s[start..end]` as `u16::from_str` does.
pub fn parse_u16(s: &[u8], start: usize, end: usize) -> (res: Option<u16>)
    requires
        start <= end <= s@.len(),
    ensures
        res == spec_parse_u16(s@.subrange(start as int, end as int)),
{
    let ghost whole = s@.subrange(start as int, end as int);
    let mut i = start;
    if i < end && s[i] == 43u8 {
        i = i + 1;
    }
    let d0 = i;
    let ghost d = s@.subrange(d0 as int, end as int);
    assert(d == (if whole.len() > 0 && whole[0] == 43u8 {
        whole.drop_first()
    } else {
        whole
    }));
    if i == end {
        return None;
    }
    let mut acc: u32 = 0;
    while i < end
        invariant
            start <= d0 <= i <= end <= s@.len(),
            d == s@.subrange(d0 as int, end as int),
            whole == s@.subrange(start as int, end as int),
            d == (if whole.len() > 0 && whole[0] == 43u8 {
                whole.drop_first()
            } else {
                whole
            }),
            d.len() > 0,
            all_digits(s@.subrange(d0 as int, i as int)),
            acc as nat == digits_value(s@.subrange(d0 as int, i as int)),
            acc <= 65535,
        decreases end - i,
    {
        let b = s[i];
        if b < 48 || b > 57 {
            assert(!is_ascii_digit(d[i - d0]));
            return None;
        }
        let ghost prev = s@.subrange(d0 as int, i as int);
        acc = acc * 10 + (b - 48) as u32;
        i = i + 1;
        let ghost cur = s@.subrange(d0 as int, i as int);
        assert(cur.drop_last() =~= prev);
        assert(all_digits(cur)) by {
            assert forall|j: int| 0 <= j < cur.len() implies is_ascii_digit(#[trigger] cur[j]) by {
                if j < prev.len() {
                    assert(cur[j] == prev[j]);
                }
            }
        }
        if acc > 65535 {
            proof {
                if all_digits(d) {
                    lemma_digits_value_prefix(d, (i - d0) as int);
                    assert(d.take((i - d0) as int) =~= cur);
                }
            }
            return None;
        }
    }
    assert(s@.subrange(d0 as int, i as int) =~= d);
    Some(acc as u16)
}

impl Version {
    /// Parses a version from the bytes of a text (see `spec_parse_version`).
    pub fn parse_bytes(s: &[u8]) -> (res: Option<Version>)
        ensures
            res == spec_parse_version(s@),
    {
        let start: usize = if s.len() > 0 && s[0] == 118u8 {
            1
        } else {
            0
        };
        let ghost t = strip_v(s@);
        assert(t =~= s@.skip(start as int));
        let mut values: Vec<u16> = Vec::new();
        let mut pos: usize = start;
        let ghost mut done: Seq<Seq<u8>> = Seq::empty();
        loop
            invariant
                start <= pos <= s@.len(),
                t == s@.skip(start as int),
                t == strip_v(s@),
                values@.len() == done.len(),
                done.len() <= 3,
                split_on(t, 46u8) == done + split_on(s@.skip(pos as int), 46u8),
                forall|i: int|
                    0 <= i < done.len() ==> spec_parse_u16(#[trigger] done[i]) == Some(
                        values@[i],
                    ),
            decreases s@.len() - pos,
        {
            let end = find_byte_from(s, pos, 46u8);
            let ghost rest = s@.skip(pos as int);
            let ghost piece = s@.subrange(pos as int, end as int);
            assert(rest.take((end - pos) as int) =~= piece);
            proof {
                lemma_split_on_nonempty(rest, 46u8);
            }
            let parsed = parse_u16(s, pos, end);
            match parsed {
                None => {
                    proof {
                        let parts = split_on(t, 46u8);
                        assert(split_on(rest, 46u8)[0] == piece);
                        assert(parts[done.len() as int] == piece);
                    }
                    return None;
                },
                Some(v) => {
                    values.push(v);
                    proof {
                        assert(split_on(rest, 46u8)[0] == piece);
                        done = done.push(piece);
                        assert(spec_parse_u16(done[done.len() - 1]) == Some(values@[done.len() - 1]));
                    }
                    if end == s.len() {
                        proof {
                            assert(rest =~= piece);
                            assert(split_on(t, 46u8) =~= done);
                            assert(forall|i: int| 0 <= i < done.len() ==> spec_parse_u16(#[trigger] done[i]) == Some(values@[i]));
                        }
                        if values.len() < 2 {
                            return None;
                        }
                        let n = values.len();
                        let res = Version {
                            major: values[0],
                            minor: values[1],
                            patch: if n > 2 {
                                values[2]
                            } else {
                                0
                            },
                            build: if n > 3 {
                                values[3]
                            } else {
                                0
                            },
                        };
                        return Some(res);
                    }
                    let next = end + 1;
                    assert(rest.skip((end - pos) + 1) =~= s@.skip(next as int));
                    assert(split_on(t, 46u8) =~= done + split_on(s@.skip(next as int), 46u8));
                    if values.len() == 4 {
                        proof {
                            lemma_split_on_nonempty(s@.skip(next as int), 46u8);
                        }
                        return None;
                    }
                    pos = next;
                },
            }
        }
    }

    /// Parses a version from text, as `Version::from_str` does.
    pub fn parse(s: &str) -> (res: Option<Version>)
        ensures
            res == spec_parse_version(s.spec_bytes()),
    {
        Version::parse_bytes(s.as_bytes())
    }

    /// Appends the written form of this version to `out`.
    pub fn write_to(&self, out: &mut Vec<u8>)
        ensures
            final(out)@ == old(out)@ + spec_display(*self),
    {
        push_decimal(out, self.major as u64);
        out.push(46u8);
        push_decimal(out, self.minor as u64);
        if self.patch == 0 && self.build == 0 {
        } else if self.build == 0 {
            out.push(46u8);
            push_decimal(out, self.patch as u64);
        } else {
            push_decimal(out, self.patch as u64);
            out.push(46u8);
            push_decimal(out, self.build as u64);
        }
        assert(out@ =~= old(out)@ + spec_display(*self));
    }

    /// The written form of this version, as bytes.
    pub fn to_bytes(&self) -> (res: Vec<u8>)
        ensures
            res@ == spec_display(*self),
    {
        let mut out = Vec::new();
        self.write_to(&mut out);
        assert(out@ =~= spec_display(*self));
        out
    }

    /// The written form of this version, as the `Display` of the type writes it.
    pub fn to_string(&self) -> (res: String)
        ensures
            res@ == ascii_chars(spec_display(*self)),
    {
        let bytes = self.to_bytes();
        proof {
            lemma_display_ascii(*self);
        }
        ascii_string(bytes)
    }

    /// Whether this version is strictly newer than `other`.
    pub fn newer_than(&self, other: &Version) -> (res: bool)
        ensures
            res == spec_newer(*self, *other),
    {
        if self.major != other.major {
            self.major > other.major
        } else if self.minor != other.minor {
            self.minor > other.minor
        } else if self.patch != other.patch {
            self.patch > other.patch
        } else {
            self.build > other.build
        }
    }
}

proof fn lemma_digits_ascii(n: nat)
    ensures
        all_ascii(dec(n)),
        forall|i: int| 0 <= i < dec(n).len() ==> #[trigger] dec(n)[i] != 46u8,
{
    lemma_dec_digits(n);
    assert forall|i: int| 0 <= i < dec(n).len() implies #[trigger] dec(n)[i] < 128 by {
        assert(is_ascii_digit(dec(n)[i]));
    }
    assert forall|i: int| 0 <= i < dec(n).len() implies #[trigger] dec(n)[i] != 46u8 by {
        assert(is_ascii_digit(dec(n)[i]));
    }
}

proof fn lemma_digits_value_dec(n: nat)
    ensures
        digits_value(dec(n)) == n,
    decreases n,
{
    if n >= 10 {
        lemma_digits_value_dec(n / 10);
        assert(dec(n).drop_last() =~= dec(n / 10));
        assert(dec(n).last() == (48 + n % 10) as u8);
        assert(n == (n / 10) * 10 + n % 10);
        assert(digits_value(dec(n)) == digits_value(dec(n / 10)) * 10 + (dec(n).last() - 48) as nat);
    } else {
        assert(dec(n).drop_last() =~= Seq::<u8>::empty());
        assert(digits_value(dec(n).drop_last()) == 0);
        assert(dec(n).last() == (48 + n) as u8);
        assert(digits_value(dec(n)) == digits_value(dec(n).drop_last()) * 10 + (dec(n).last() - 48) as nat);
    }
}

proof fn lemma_parse_u16_dec(n: u16)
    ensures
        spec_parse_u16(dec(n as nat)) == Some(n),
{
    lemma_dec_digits(n as nat);
    lemma_digits_value_dec(n as nat);
    assert(is_ascii_digit(dec(n as nat)[0]));
}

/// Splitting `dec(n) + "." + rest` at dots yields `dec(n)`, then the pieces of `rest`.
proof fn lemma_split_dec_dot(n: nat, rest: Seq<u8>)
    ensures
        split_on(dec(n) + seq![46u8] + rest, 46u8) == seq![dec(n)] + split_on(rest, 46u8),
{
    let d = dec(n);
    let s = d + seq![46u8] + rest;
    lemma_digits_ascii(n);
    assert forall|j: int| 0 <= j < d.len() implies s[j] != 46u8 by {
        assert(s[j] == d[j]);
    }
    lemma_first_index_of(s, 46u8, d.len() as int);
    assert(s.take(d.len() as int) =~= d);
    assert(s.skip(d.len() + 1 as int) =~= rest);
}

/// Splitting `dec(n)` at dots yields `dec(n)` alone.
proof fn lemma_split_dec(n: nat)
    ensures
        split_on(dec(n), 46u8) == seq![dec(n)],
{
    let d = dec(n);
    lemma_digits_ascii(n);
    lemma_first_index_of(d, 46u8, d.len() as int);
}

/// Reading back what was written gives the same version, for every version
/// with a zero build number. (With a non-zero build the written form drops
/// the dot before the patch, so `1.2.3.4` is written `1.23.4` and read back
/// as `1.23.4.0`.)
pub proof fn lemma_parse_display_roundtrip(v: Version)
    requires
        v.build == 0,
    ensures
        spec_parse_version(spec_display(v)) == Some(v),
{
    let a = dec(v.major as nat);
    let b = dec(v.minor as nat);
    let s = spec_display(v);
    lemma_dec_digits(v.major as nat);
    assert(s[0] == a[0]);
    assert(is_ascii_digit(a[0]));
    assert(strip_v(s) == s);
    lemma_parse_u16_dec(v.major);
    lemma_parse_u16_dec(v.minor);
    lemma_parse_u16_dec(v.patch);
    if v.patch == 0 {
        assert(s =~= a + seq![46u8] + b);
        lemma_split_dec_dot(v.major as nat, b);
        lemma_split_dec(v.minor as nat);
        let parts = split_on(s, 46u8);
        assert(parts =~= seq![a, b]);
    } else {
        let c = dec(v.patch as nat);
        assert(s =~= a + seq![46u8] + (b + seq![46u8] + c));
        lemma_split_dec_dot(v.major as nat, b + seq![46u8] + c);
        lemma_split_dec_dot(v.minor as nat, c);
        lemma_split_dec(v.patch as nat);
        let parts = split_on(s, 46u8);
        assert(parts =~= seq![a, b, c]);
    }
}

/// Being newer is a strict total order on versions: no version is newer
/// than itself, it is transitive, and of two different versions one is newer.
pub proof fn lemma_newer_strict_total_order(a: Version, b: Version, c: Version)
    ensures
        !spec_newer(a, a),
        spec_newer(a, b) && spec_newer(b, c) ==> spec_newer(a, c),
        a != b ==> spec_newer(a, b) || spec_newer(b, a),
        !(spec_newer(a, b) && spec_newer(b, a)),
{
}

/// Versions are compared by their parts as numbers, in the order major,
/// minor, patch, build: a version is newer exactly when, at the first part
/// where the two differ, its number is the larger one. (So 1.10.0 is newer
/// than 1.9.0, and 2.0 is newer than 1.99.)
pub proof fn lemma_newer_by_parts(a: Version, b: Version)
    ensures
        a.major > b.major ==> spec_newer(a, b),
        a.major < b.major ==> !spec_newer(a, b),
        a.major == b.major && a.minor > b.minor ==> spec_newer(a, b),
        a.major == b.major && a.minor < b.minor ==> !spec_newer(a, b),
        a.major == b.major && a.minor == b.minor && a.patch > b.patch ==> spec_newer(a, b),
        a.major == b.major && a.minor == b.minor && a.patch < b.patch ==> !spec_newer(a, b),
        a.major == b.major && a.minor == b.minor && a.patch == b.patch && a.build > b.build
            ==> spec_newer(a, b),
        a.major == b.major && a.minor == b.minor && a.patch == b.patch && a.build <= b.build
            ==> !spec_newer(a, b),
{
}

/// A byte that may stand in the text of a version.
pub open spec fn version_char(b: u8) -> bool {
    is_ascii_digit(b) || b == 46u8 || b == 43u8 || b == 118u8
}

pub proof fn lemma_parse_u16_chars(p: Seq<u8>)
    requires
        spec_parse_u16(p) is Some,
    ensures
        forall|k: int| 0 <= k < p.len() ==> is_ascii_digit(#[trigger] p[k]) || p[k] == 43u8,
{
    assert forall|k: int| 0 <= k < p.len() implies is_ascii_digit(#[trigger] p[k]) || p[k] == 43u8 by {
        if p.len() > 0 && p[0] == 43u8 {
            if k > 0 {
                assert(p[k] == p.drop_first()[k - 1]);
            }
        }
    }
}

/// A text that stands for a version is non-empty and made of digits, dots,
/// plus signs and `v`s.
pub proof fn lemma_parsed_text_chars(t: Seq<u8>)
    requires
        spec_parse_version(t) is Some,
    ensures
        t.len() >= 1,
        forall|i: int| 0 <= i < t.len() ==> version_char(#[trigger] t[i]),
{
    let s = strip_v(t);
    let parts = split_on(s, 46u8);
    if s.len() == 0 {
        crate::bytes::lemma_first_index_of_bounds(s, 46u8);
        assert(parts.len() == 1);
    }
    assert forall|i: int| 0 <= i < t.len() implies version_char(#[trigger] t[i]) by {
        let off: int = if t.len() > 0 && t[0] == 118u8 { 1 } else { 0 };
        if !(i == 0 && off == 1) {
            let j = i - off;
            assert(s[j] == t[i]);
            if s[j] != 46u8 {
                crate::bytes::lemma_split_on_covers(s, 46u8, j);
                let (p, k) = choose|p: int, k: int|
                    0 <= p < parts.len() && 0 <= k < parts[p].len() && parts[p][k] == s[j];
                assert(spec_parse_u16(parts[p]) is Some);
                lemma_parse_u16_chars(parts[p]);
                assert(is_ascii_digit(parts[p][k]) || parts[p][k] == 43u8);
            }
        }
    }
}

/// The written form of a version is non-empty and made of digits and dots.
pub proof fn lemma_display_chars(v: Version)
    ensures
        spec_display(v).len() >= 1,
        forall|i: int|
            0 <= i < spec_display(v).len() ==> #[trigger] is_ascii_digit(spec_display(v)[i])
                || spec_display(v)[i] == 46u8,
{
    lemma_dec_digits(v.major as nat);
    lemma_dec_digits(v.minor as nat);
    lemma_dec_digits(v.patch as nat);
    lemma_dec_digits(v.build as nat);
    let s = spec_display(v);
    assert forall|i: int| 0 <= i < s.len() implies #[trigger] is_ascii_digit(s[i]) || s[i]
        == 46u8 by {
        let a = dec(v.major as nat);
        let b = dec(v.minor as nat);
        let c = dec(v.patch as nat);
        let e = dec(v.build as nat);
        if i < a.len() {
            assert(s[i] == a[i]);
        } else if i == a.len() {
        } else if i < a.len() + 1 + b.len() {
            assert(s[i] == b[i - a.len() - 1]);
        } else {
            let k = i - a.len() - 1 - b.len();
            if v.patch == 0 && v.build == 0 {
            } else if v.build == 0 {
                if k > 0 {
                    assert(s[i] == c[k - 1]);
                }
            } else {
                if k < c.len() {
                    assert(s[i] == c[k]);
                } else if k > c.len() {
                    assert(s[i] == e[k - c.len() - 1]);
                }
            }
        }
    }
}

/// The written form of a version is ASCII.
pub proof fn lemma_display_ascii(v: Version)
    ensures
        all_ascii(spec_display(v)),
{
    lemma_digits_ascii(v.major as nat);
    lemma_digits_ascii(v.minor as nat);
    lemma_digits_ascii(v.patch as nat);
    lemma_digits_ascii(v.build as nat);
    let s = spec_display(v);
    assert forall|i: int| 0 <= i < s.len() implies #[trigger] s[i] < 128 by {
        let a = dec(v.major as nat);
        let b = dec(v.minor as nat);
        let c = dec(v.patch as nat);
        let e = dec(v.build as nat);
        if i < a.len() {
            assert(s[i] == a[i]);
        } else if i == a.len() {
        } else if i < a.len() + 1 + b.len() {
            assert(s[i] == b[i - a.len() - 1]);
        } else {
            let k = i - a.len() - 1 - b.len();
            if v.patch == 0 && v.build == 0 {
            } else if v.build == 0 {
                if k > 0 {
                    assert(s[i] == c[k - 1]);
                }
            } else {
                if k < c.len() {
                    assert(s[i] == c[k]);
                } else if k > c.len() {
                    assert(s[i] == e[k - c.len() - 1]);
                }
            }
        }
    }
}

} // verus!
