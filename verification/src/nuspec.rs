//! Nuspec files: finding the version and description in one, and writing
//! an updated one.

use vstd::prelude::*;
use vstd::string::StringSliceAdditionalSpecFns;
use crate::bytes::{
    bytes_find, is_first_occurrence, is_ascii_digit, lemma_spec_find, lemma_spec_find_none, occurs_at,
    push_range, spec_find,
};
use crate::error::Error;
use crate::version::{
    lemma_display_chars, lemma_parsed_text_chars, spec_display, spec_parse_version, version_char,
    Version,
};

verus! {

/// `<version>`
pub open spec fn version_open() -> Seq<u8> {
    seq![60u8, 118, 101, 114, 115, 105, 111, 110, 62]
}

/// `</version>`
pub open spec fn version_close() -> Seq<u8> {
    seq![60u8, 47, 118, 101, 114, 115, 105, 111, 110, 62]
}

/// `<description>`
pub open spec fn desc_open() -> Seq<u8> {
    seq![60u8, 100, 101, 115, 99, 114, 105, 112, 116, 105, 111, 110, 62]
}

/// `</description>`
pub open spec fn desc_close() -> Seq<u8> {
    seq![60u8, 47, 100, 101, 115, 99, 114, 105, 112, 116, 105, 111, 110, 62]
}

/// The span between the first `open` tag of `d` and the first `close` tag
/// after it, if both are there.
pub open spec fn spec_locate(d: Seq<u8>, open: Seq<u8>, close: Seq<u8>) -> Option<(int, int)> {
    match spec_find(d, open) {
        None => None,
        Some(i) => {
            let s = i + open.len();
            match spec_find(d.skip(s), close) {
                None => None,
                Some(k) => Some((s, s + k)),
            }
        },
    }
}

/// What reading a nuspec file gives: the spans of the version text and of the
/// description text, and the version, or the error that reading ends in.
/// The version text must be a version (text that is not UTF-8 is none).
pub open spec fn spec_parse_nuspec(d: Seq<u8>) -> Result<(int, int, int, int, Version), Error> {
    match spec_locate(d, version_open(), version_close()) {
        None => Err(Error::NuspecNoVersion),
        Some((vs, ve)) => match spec_parse_version(d.subrange(vs, ve)) {
            None => Err(Error::NuspecNoVersion),
            Some(v) => match spec_locate(d, desc_open(), desc_close()) {
                None => Err(Error::NuspecNoDesc),
                Some((ds, de)) => Ok((vs, ve, ds, de, v)),
            },
        },
    }
}

/// The contents of an updated nuspec file: the version text replaced by the
/// written form of `v`, and the description text by `desc` when one is given.
pub open spec fn spec_updated(
    d: Seq<u8>,
    vs: int,
    ve: int,
    ds: int,
    de: int,
    v: Version,
    desc: Option<Seq<u8>>,
) -> Seq<u8> {
    match desc {
        None => d.take(vs) + spec_display(v) + d.skip(ve),
        Some(t) => if vs < ds {
            d.take(vs) + spec_display(v) + d.subrange(ve, ds) + t + d.skip(de)
        } else {
            d.take(ds) + t + d.subrange(de, vs) + spec_display(v) + d.skip(ve)
        },
    }
}

/// A loaded nuspec file: its contents, where its version and description
/// texts stand, and the version.
pub struct File {
    data: Vec<u8>,
    version_start: usize,
    version_end: usize,
    desc_start: usize,
    desc_end: usize,
    version: Version,
}

fn tag_bytes(which: u8) -> (res: Vec<u8>)
    ensures
        which == 0 ==> res@ == version_open(),
        which == 1 ==> res@ == version_close(),
        which == 2 ==> res@ == desc_open(),
        which >= 3 ==> res@ == desc_close(),
{
    let mut v: Vec<u8> = Vec::new();
    v.push(60u8);
    if which == 1 || which >= 3 {
        v.push(47u8);
    }
    if which < 2 {
        v.push(118u8);
        v.push(101u8);
        v.push(114u8);
        v.push(115u8);
        v.push(105u8);
        v.push(111u8);
        v.push(110u8);
    } else {
        v.push(100u8);
        v.push(101u8);
        v.push(115u8);
        v.push(99u8);
        v.push(114u8);
        v.push(105u8);
        v.push(112u8);
        v.push(116u8);
        v.push(105u8);
        v.push(111u8);
        v.push(110u8);
    }
    v.push(62u8);
    proof {
        if which == 0 {
            assert(v@ =~= version_open());
        } else if which == 1 {
            assert(v@ =~= version_close());
        } else if which == 2 {
            assert(v@ =~= desc_open());
        } else {
            assert(v@ =~= desc_close());
        }
    }
    v
}

fn locate(d: &[u8], open: &[u8], close: &[u8]) -> (res: Option<(usize, usize)>)
    ensures
        res is None <==> spec_locate(d@, open@, close@) is None,
        res matches Some((s, e)) ==> spec_locate(d@, open@, close@) == Some((s as int, e as int)),
        res matches Some((s, e)) ==> s <= e <= d@.len(),
{
    match bytes_find(d, open) {
        None => None,
        Some(i) => {
            proof {
                crate::bytes::lemma_spec_find_none(d@, open@);
                assert(crate::bytes::is_first_occurrence(d@, open@, i as int));
                assert(i + open@.len() <= d@.len());
                assert(d@.len() == d.len());
            }
            let s = i + open.len();
            let rest = vstd::slice::slice_subrange(d, s, d.len());
            assert(rest@ =~= d@.skip(s as int));
            match bytes_find(rest, close) {
                None => None,
                Some(k) => {
                    proof {
                        crate::bytes::lemma_spec_find_none(rest@, close@);
                        assert(crate::bytes::is_first_occurrence(rest@, close@, k as int));
                    }
                    Some((s, s + k))
                },
            }
        },
    }
}

impl File {
    /// The whole contents of the file.
    pub closed spec fn contents(&self) -> Seq<u8> {
        self.data@
    }

    /// Where the version text starts and ends.
    pub closed spec fn version_span(&self) -> (int, int) {
        (self.version_start as int, self.version_end as int)
    }

    /// Where the description text starts and ends.
    pub closed spec fn desc_span(&self) -> (int, int) {
        (self.desc_start as int, self.desc_end as int)
    }

    /// The version that was read from the file.
    pub closed spec fn read_version(&self) -> Version {
        self.version
    }

    /// The file was read from its contents (see `spec_parse_nuspec`).
    pub open spec fn wf(&self) -> bool {
        spec_parse_nuspec(self.contents()) == Ok::<(int, int, int, int, Version), Error>(
            (
                self.version_span().0,
                self.version_span().1,
                self.desc_span().0,
                self.desc_span().1,
                self.read_version(),
            ),
        )
    }

    /// Reads a nuspec file from its contents: finds the first `<version>` tag
    /// and the first `</version>` after it, parses the text between them as
    /// a version, then finds the description between `<description>` and
    /// `</description>` in the same way.
    pub fn parse(data: Vec<u8>) -> (res: Result<File, Error>)
        ensures
            spec_parse_nuspec(data@) is Err ==> res == Err::<File, Error>(
                spec_parse_nuspec(data@)->Err_0,
            ),
            res matches Ok(f) ==> f.wf() && f.contents() == data@,
            spec_parse_nuspec(data@) is Ok ==> res is Ok,
    {
        let vo = tag_bytes(0);
        let vc = tag_bytes(1);
        let (vs, ve) = match locate(data.as_slice(), vo.as_slice(), vc.as_slice()) {
            Some(span) => span,
            None => {
                return Err(Error::NuspecNoVersion);
            },
        };
        let text = vstd::slice::slice_subrange(data.as_slice(), vs, ve);
        let version = match Version::parse_bytes(text) {
            Some(v) => v,
            None => {
                return Err(Error::NuspecNoVersion);
            },
        };
        let dopen = tag_bytes(2);
        let dclose = tag_bytes(3);
        let (ds, de) = match locate(data.as_slice(), dopen.as_slice(), dclose.as_slice()) {
            Some(span) => span,
            None => {
                return Err(Error::NuspecNoDesc);
            },
        };
        let f = File {
            data,
            version_start: vs,
            version_end: ve,
            desc_start: ds,
            desc_end: de,
            version,
        };
        Ok(f)
    }

    /// The version that was read from the file.
    pub fn version(&self) -> (res: Version)
        ensures
            res == self.read_version(),
    {
        self.version
    }

    /// Whether the description can be replaced along with the version: the
    /// two texts do not overlap.
    pub fn can_replace_description(&self) -> (res: bool)
        ensures
            res == (if self.version_span().0 < self.desc_span().0 {
                self.version_span().1 <= self.desc_span().0
            } else {
                self.desc_span().1 <= self.version_span().0
            }),
    {
        if self.version_start < self.desc_start {
            self.version_end <= self.desc_start
        } else {
            self.desc_end <= self.version_start
        }
    }

    /// The contents of this file with the version text replaced by the
    /// written form of `version`, and the description text by `description`
    /// when one is given.
    pub fn updated_contents(&self, version: Version, description: Option<&str>) -> (res: Vec<u8>)
        requires
            self.wf(),
            description is Some ==> (if self.version_span().0 < self.desc_span().0 {
                self.version_span().1 <= self.desc_span().0
            } else {
                self.desc_span().1 <= self.version_span().0
            }),
        ensures
            res@ == spec_updated(
                self.contents(),
                self.version_span().0,
                self.version_span().1,
                self.desc_span().0,
                self.desc_span().1,
                version,
                match description {
                    Some(t) => Some(t.spec_bytes()),
                    None => None,
                },
            ),
    {
        proof {
            lemma_parse_spans(self.data@);
        }
        let d = self.data.as_slice();
        let mut buf: Vec<u8> = Vec::new();
        match description {
            Some(text) => {
                let t = text.as_bytes();
                if self.version_start < self.desc_start {
                    push_range(&mut buf, d, 0, self.version_start);
                    version.write_to(&mut buf);
                    push_range(&mut buf, d, self.version_end, self.desc_start);
                    push_range(&mut buf, t, 0, t.len());
                    push_range(&mut buf, d, self.desc_end, d.len());
                } else {
                    push_range(&mut buf, d, 0, self.desc_start);
                    push_range(&mut buf, t, 0, t.len());
                    push_range(&mut buf, d, self.desc_end, self.version_start);
                    version.write_to(&mut buf);
                    push_range(&mut buf, d, self.version_end, d.len());
                }
                assert(t@.subrange(0, t@.len() as int) =~= t@);
            },
            None => {
                push_range(&mut buf, d, 0, self.version_start);
                version.write_to(&mut buf);
                push_range(&mut buf, d, self.version_end, d.len());
            },
        }
        assert(d@.subrange(0, self.version_start as int) =~= d@.take(self.version_start as int));
        assert(d@.subrange(0, self.desc_start as int) =~= d@.take(self.desc_start as int));
        assert(d@.subrange(self.version_end as int, d@.len() as int) =~= d@.skip(
            self.version_end as int,
        ));
        assert(d@.subrange(self.desc_end as int, d@.len() as int) =~= d@.skip(
            self.desc_end as int,
        ));
        buf
    }
}

/// Where position `p` of `a + r + b` moves to in `a + s + b`, for `r.len() == rl`
/// and `s.len() == sl`.
pub open spec fn shifted(p: int, al: int, rl: int, sl: int) -> int {
    if p <= al {
        p
    } else {
        p - rl + sl
    }
}

/// No byte of `n` may stand in the text of a version.
pub open spec fn free_of_version_chars(n: Seq<u8>) -> bool {
    forall|k: int| 0 <= k < n.len() ==> !version_char(#[trigger] n[k])
}

pub open spec fn all_version_chars(r: Seq<u8>) -> bool {
    forall|k: int| 0 <= k < r.len() ==> version_char(#[trigger] r[k])
}

proof fn lemma_no_overlap(a: Seq<u8>, r: Seq<u8>, b: Seq<u8>, n: Seq<u8>, p: int)
    requires
        r.len() >= 1,
        n.len() >= 1,
        all_version_chars(r),
        free_of_version_chars(n),
        occurs_at(a + r + b, n, p),
    ensures
        p + n.len() <= a.len() || p >= a.len() + r.len(),
{
    let x = a + r + b;
    if !(p + n.len() <= a.len() || p >= a.len() + r.len()) {
        let q = if p >= a.len() {
            p
        } else {
            a.len() as int
        };
        assert(x[q] == r[q - a.len()]);
        assert(x.subrange(p, p + n.len())[q - p] == x[q]);
        assert(version_char(n[q - p]));
    }
}

proof fn lemma_transfer(a: Seq<u8>, r: Seq<u8>, s: Seq<u8>, b: Seq<u8>, n: Seq<u8>, p: int)
    requires
        r.len() >= 1,
        all_version_chars(r),
        free_of_version_chars(n),
        n.len() >= 1,
        occurs_at(a + r + b, n, p),
    ensures
        occurs_at(a + s + b, n, shifted(p, a.len() as int, r.len() as int, s.len() as int)),
        p + n.len() <= a.len() || p >= a.len() + r.len(),
{
    lemma_no_overlap(a, r, b, n, p);
    let x = a + r + b;
    let y = a + s + b;
    let q = shifted(p, a.len() as int, r.len() as int, s.len() as int);
    if p + n.len() <= a.len() {
        assert(y.subrange(q, q + n.len()) =~= x.subrange(p, p + n.len()));
    } else {
        assert forall|k: int| 0 <= k < n.len() implies #[trigger] y.subrange(q, q + n.len())[k] == x.subrange(
            p,
            p + n.len(),
        )[k] by {
            assert(y[q + k] == b[p + k - a.len() - r.len()]);
            assert(x[p + k] == b[p + k - a.len() - r.len()]);
        }
        assert(y.subrange(q, q + n.len()) =~= x.subrange(p, p + n.len()));
    }
}

/// Replacing a stretch of version text by another leaves the first
/// occurrence of a tag without version bytes where it was, moved only by the
/// change in length when it came after the stretch.
proof fn lemma_first_occurrence_replaced(
    a: Seq<u8>,
    r: Seq<u8>,
    s: Seq<u8>,
    b: Seq<u8>,
    n: Seq<u8>,
    j: int,
)
    requires
        r.len() >= 1,
        s.len() >= 1,
        all_version_chars(r),
        all_version_chars(s),
        free_of_version_chars(n),
        n.len() >= 1,
        is_first_occurrence(a + r + b, n, j),
    ensures
        is_first_occurrence(a + s + b, n, shifted(j, a.len() as int, r.len() as int, s.len() as int)),
        j + n.len() <= a.len() || j >= a.len() + r.len(),
{
    let al = a.len() as int;
    let fj = shifted(j, al, r.len() as int, s.len() as int);
    lemma_transfer(a, r, s, b, n, j);
    assert forall|q: int| 0 <= q < fj implies !occurs_at(a + s + b, n, q) by {
        if occurs_at(a + s + b, n, q) {
            lemma_transfer(a, s, r, b, n, q);
            let g = shifted(q, al, s.len() as int, r.len() as int);
            assert(occurs_at(a + r + b, n, g));
            assert(0 <= g < j);
        }
    }
}

proof fn lemma_version_tags_after_update(d: Seq<u8>, v: Version)
    requires
        spec_parse_nuspec(d) is Ok,
    ensures
        ({
            let (vs, ve, ds, de, _) = spec_parse_nuspec(d)->Ok_0;
            let n = spec_updated(d, vs, ve, ds, de, v, None);
            &&& spec_locate(n, version_open(), version_close()) == Some(
                (vs, vs + spec_display(v).len()),
            )
            &&& n.subrange(vs, vs + spec_display(v).len()) == spec_display(v)
        }),
{
    let (vs, ve, ds, de, old_v) = spec_parse_nuspec(d)->Ok_0;
    lemma_parse_spans(d);
    lemma_locate_span(d, version_open(), version_close());
    let a = d.take(vs);
    let b = d.skip(ve);
    let s = spec_display(v);
    let n = spec_updated(d, vs, ve, ds, de, v, None);
    lemma_display_chars(v);
    let vo = version_open();
    let vc = version_close();
    lemma_spec_find_none(d, vo);
    let i = spec_find(d, vo)->Some_0;
    assert(i == vs - 9);
    assert(is_first_occurrence(n, vo, i)) by {
        assert(n.subrange(i, i + 9) =~= d.subrange(i, i + 9));
        assert forall|q: int| 0 <= q < i implies !occurs_at(n, vo, q) by {
            assert(!occurs_at(d, vo, q));
            assert(n.subrange(q, q + 9) =~= d.subrange(q, q + 9));
        }
    }
    lemma_spec_find(n, vo, i);
    let rest = n.skip(vs);
    assert(rest =~= s + b);
    assert(occurs_at(d, vc, ve));
    assert(is_first_occurrence(rest, vc, s.len() as int)) by {
        assert(rest.subrange(s.len() as int, s.len() + 10 as int) =~= d.subrange(ve, ve + 10));
        assert forall|q: int| 0 <= q < s.len() implies !occurs_at(rest, vc, q) by {
            if occurs_at(rest, vc, q) {
                assert(rest.subrange(q, q + 10)[0] == rest[q]);
                assert(rest[q] == s[q]);
                assert(is_ascii_digit(s[q]) || s[q] == 46u8);
                assert(vc[0] == 60u8);
            }
        }
    }
    lemma_spec_find(rest, vc, s.len() as int);
    assert(n.subrange(vs, vs + s.len()) =~= s);
}

proof fn lemma_desc_tags_free()
    ensures
        free_of_version_chars(desc_open()),
        free_of_version_chars(desc_close()),
        desc_open().len() == 13,
{
}

/// The search for the closing tag after the opening one, on the contents
/// after the opening tag.
proof fn lemma_close_after_replaced(
    a: Seq<u8>,
    r: Seq<u8>,
    s: Seq<u8>,
    b: Seq<u8>,
    start: int,
)
    requires
        r.len() >= 1,
        s.len() >= 1,
        all_version_chars(r),
        all_version_chars(s),
        0 <= start <= a.len() + r.len() + b.len(),
        start <= a.len() || start >= a.len() + r.len(),
        spec_find((a + r + b).skip(start), desc_close()) is Some,
    ensures
        spec_find(
            (a + s + b).skip(shifted(start, a.len() as int, r.len() as int, s.len() as int)),
            desc_close(),
        ) is Some,
{
    lemma_desc_tags_free();
    let dclose = desc_close();
    let d_rest = (a + r + b).skip(start);
    lemma_spec_find_none(d_rest, dclose);
    let m = spec_find(d_rest, dclose)->Some_0;
    let fs = shifted(start, a.len() as int, r.len() as int, s.len() as int);
    let n_rest = (a + s + b).skip(fs);
    if start >= a.len() + r.len() {
        assert(n_rest =~= d_rest);
    } else {
        let a2 = a.skip(start);
        assert(d_rest =~= a2 + r + b);
        assert(n_rest =~= a2 + s + b);
        lemma_first_occurrence_replaced(a2, r, s, b, dclose, m);
        lemma_spec_find(
            a2 + s + b,
            dclose,
            shifted(m, a2.len() as int, r.len() as int, s.len() as int),
        );
    }
}

proof fn lemma_desc_tags_after_update(
    d: Seq<u8>,
    vs: int,
    ve: int,
    ds: int,
    de: int,
    s: Seq<u8>,
)
    requires
        0 <= vs < ve <= d.len(),
        all_version_chars(d.subrange(vs, ve)),
        all_version_chars(s),
        s.len() >= 1,
        spec_locate(d, desc_open(), desc_close()) == Some((ds, de)),
    ensures
        spec_locate(d.take(vs) + s + d.skip(ve), desc_open(), desc_close()) is Some,
{
    lemma_desc_tags_free();
    let a = d.take(vs);
    let r = d.subrange(vs, ve);
    let b = d.skip(ve);
    let n = a + s + b;
    assert(d =~= a + r + b);
    let dopen = desc_open();
    lemma_spec_find_none(d, dopen);
    let j = spec_find(d, dopen)->Some_0;
    lemma_first_occurrence_replaced(a, r, s, b, dopen, j);
    let fj = shifted(j, a.len() as int, r.len() as int, s.len() as int);
    lemma_spec_find(n, dopen, fj);
    assert(shifted(j + 13, a.len() as int, r.len() as int, s.len() as int) == fj + 13);
    lemma_close_after_replaced(a, r, s, b, j + 13);
}

/// Reading back an updated nuspec file gives the version it was updated to,
/// for every version with a zero build number (see
/// `lemma_parse_display_roundtrip` for why the build must be zero).
pub proof fn lemma_reopen_after_update(d: Seq<u8>, v: Version)
    requires
        spec_parse_nuspec(d) is Ok,
        v.build == 0,
    ensures
        ({
            let (vs, ve, ds, de, _) = spec_parse_nuspec(d)->Ok_0;
            let n = spec_updated(d, vs, ve, ds, de, v, None);
            spec_parse_nuspec(n) matches Ok((_, _, _, _, w)) && w == v
        }),
{
    let (vs, ve, ds, de, old_v) = spec_parse_nuspec(d)->Ok_0;
    lemma_parse_spans(d);
    lemma_version_tags_after_update(d, v);
    let r = d.subrange(vs, ve);
    let s = spec_display(v);
    lemma_parsed_text_chars(r);
    lemma_display_chars(v);
    assert(all_version_chars(s)) by {
        assert forall|k: int| 0 <= k < s.len() implies version_char(#[trigger] s[k]) by {
            assert(is_ascii_digit(s[k]) || s[k] == 46u8);
        }
    }
    lemma_desc_tags_after_update(d, vs, ve, ds, de, s);
    crate::version::lemma_parse_display_roundtrip(v);
}

/// The spans that reading finds lie within the contents, each in order.
pub proof fn lemma_parse_spans(d: Seq<u8>)
    ensures
        spec_parse_nuspec(d) matches Ok((vs, ve, ds, de, v)) ==> 0 <= vs <= ve <= d.len() && 0
            <= ds <= de <= d.len(),
{
    lemma_locate_span(d, version_open(), version_close());
    lemma_locate_span(d, desc_open(), desc_close());
}

proof fn lemma_locate_span(d: Seq<u8>, open: Seq<u8>, close: Seq<u8>)
    ensures
        spec_locate(d, open, close) matches Some((s, e)) ==> 0 <= s <= e <= d.len()
            && crate::bytes::occurs_at(d, open, s - open.len())
            && crate::bytes::occurs_at(d, close, e),
{
    crate::bytes::lemma_spec_find_none(d, open);
    if let Some(i) = spec_find(d, open) {
        let s = i + open.len();
        crate::bytes::lemma_spec_find_none(d.skip(s), close);
        if let Some(k) = spec_find(d.skip(s), close) {
            assert(d.subrange(s + k, s + k + close.len()) =~= d.skip(s).subrange(
                k,
                k + close.len(),
            ));
        }
    }
}

} // verus!
