//! Install scripts: setting the download urls and checksums that a
//! Chocolatey install script assigns.

use vstd::prelude::*;
use vstd::string::StringSliceAdditionalSpecFns;
use crate::bytes::{
    bytes_eq, lemma_line_split_unique, lines_with_terminator, push_all, spec_find, spec_lines,
    split_once_str, trim_end, trimmed_end,
};
use crate::download::{spec_to_hex, Sha1};
use crate::error::Error;

verus! {

/// The variables to set in an install script. Each one that is `Some` must
/// be assigned in the script, once.
pub struct Replacements<'a> {
    pub url32: Option<&'a str>,
    pub checksum32: Option<Sha1>,
    pub url64: Option<&'a str>,
    pub checksum64: Option<Sha1>,
}

/// The first variable still waiting for its assignment, in the order url32,
/// url64, checksum32, checksum64, as the error that reports it.
pub open spec fn spec_missing_var(r: Replacements) -> Option<Error> {
    if r.url32 is Some {
        Some(Error::ScriptMissingVar("url32"))
    } else if r.url64 is Some {
        Some(Error::ScriptMissingVar("url64"))
    } else if r.checksum32 is Some {
        Some(Error::ScriptMissingVar("checksum32"))
    } else if r.checksum64 is Some {
        Some(Error::ScriptMissingVar("checksum64"))
    } else {
        None
    }
}

/// The assignment line for a variable that is still waiting, and what is
/// left waiting after it; `None` when `var` is no such variable.
pub open spec fn spec_write_replacement<'a>(r: Replacements<'a>, var: Seq<u8>) -> Option<
    (Seq<u8>, Replacements<'a>),
> {
    if var == "url32".spec_bytes() && r.url32 is Some {
        Some(
            (
                "$url32      = '".spec_bytes() + r.url32.unwrap().spec_bytes() + "'\n".spec_bytes(),
                Replacements { url32: None, ..r },
            ),
        )
    } else if var == "url64".spec_bytes() && r.url64 is Some {
        Some(
            (
                "$url64      = '".spec_bytes() + r.url64.unwrap().spec_bytes() + "'\n".spec_bytes(),
                Replacements { url64: None, ..r },
            ),
        )
    } else if var == "checksum32".spec_bytes() && r.checksum32 is Some {
        Some(
            (
                "$checksum32 = '".spec_bytes() + spec_to_hex(r.checksum32.unwrap()@)
                    + "'\n".spec_bytes(),
                Replacements { checksum32: None, ..r },
            ),
        )
    } else if var == "checksum64".spec_bytes() && r.checksum64 is Some {
        Some(
            (
                "$checksum64 = '".spec_bytes() + spec_to_hex(r.checksum64.unwrap()@)
                    + "'\n".spec_bytes(),
                Replacements { checksum64: None, ..r },
            ),
        )
    } else {
        None
    }
}

/// The variable that a script line assigns: for a line `$name ... = ...`,
/// the text between the `$` and the first `=`, with trailing whitespace trimmed.
pub open spec fn spec_line_var(line: Seq<u8>) -> Option<Seq<u8>> {
    match spec_find(line, "=".spec_bytes()) {
        None => None,
        Some(i) => {
            let before = line.take(i);
            if before.len() > 0 && before[0] == 36u8 {
                Some(trimmed_end(before.drop_first()))
            } else {
                None
            }
        },
    }
}

/// One line of the rewritten script: the assignment of a waiting variable
/// in place of the line that assigned it, or the line as it was.
pub open spec fn spec_rewrite_line<'a>(line: Seq<u8>, r: Replacements<'a>) -> (
    Seq<u8>,
    Replacements<'a>,
) {
    match spec_line_var(line) {
        Some(var) => match spec_write_replacement(r, var) {
            Some((text, r2)) => (text, r2),
            None => (line, r),
        },
        None => (line, r),
    }
}

/// The rewritten lines, and what is left waiting after them.
pub open spec fn spec_rewrite_lines<'a>(ls: Seq<Seq<u8>>, r: Replacements<'a>) -> (
    Seq<u8>,
    Replacements<'a>,
)
    decreases ls.len(),
{
    if ls.len() == 0 {
        (Seq::empty(), r)
    } else {
        let (first, r1) = spec_rewrite_line(ls[0], r);
        let (rest, r2) = spec_rewrite_lines(ls.drop_first(), r1);
        (first + rest, r2)
    }
}

/// What rewriting a script gives: the rewritten text, or the error for a
/// variable that no line assigned.
pub open spec fn spec_rewrite<'a>(r: Replacements<'a>, data: Seq<u8>) -> Result<Seq<u8>, Error> {
    let (out, left) = spec_rewrite_lines(spec_lines(data), r);
    match spec_missing_var(left) {
        Some(e) => Err(e),
        None => Ok(out),
    }
}

fn strip_dollar(s: &[u8]) -> (res: Option<&[u8]>)
    ensures
        res is Some <==> s@.len() > 0 && s@[0] == 36u8,
        res matches Some(t) ==> t@ == s@.drop_first(),
{
    if s.len() > 0 && s[0] == 36u8 {
        let t = vstd::slice::slice_subrange(s, 1, s.len());
        assert(t@ =~= s@.drop_first());
        Some(t)
    } else {
        None
    }
}

impl<'a> Replacements<'a> {
    /// Nothing to set.
    pub fn new() -> (res: Replacements<'a>)
        ensures
            res.url32 is None && res.checksum32 is None && res.url64 is None
                && res.checksum64 is None,
    {
        Replacements { url32: None, checksum32: None, url64: None, checksum64: None }
    }

    /// Succeeds when every variable has been assigned; otherwise reports the
    /// first one still waiting.
    pub fn ensure_empty(&self) -> (res: Result<(), Error>)
        ensures
            match spec_missing_var(*self) {
                Some(e) => res == Err::<(), Error>(e),
                None => res is Ok,
            },
    {
        if self.url32.is_some() {
            Err(Error::ScriptMissingVar("url32"))
        } else if self.url64.is_some() {
            Err(Error::ScriptMissingVar("url64"))
        } else if self.checksum32.is_some() {
            Err(Error::ScriptMissingVar("checksum32"))
        } else if self.checksum64.is_some() {
            Err(Error::ScriptMissingVar("checksum64"))
        } else {
            Ok(())
        }
    }

    /// Writes the assignment of `var` to `dst` if `var` is a variable still
    /// waiting, and marks it done; returns whether it did.
    pub fn write_replacement(&mut self, var: &[u8], dst: &mut Vec<u8>) -> (res: bool)
        ensures
            match spec_write_replacement(*old(self), var@) {
                Some((text, r2)) => res && final(dst)@ == old(dst)@ + text && *final(self) == r2,
                None => !res && final(dst)@ == old(dst)@ && *final(self) == *old(self),
            },
    {
        if bytes_eq(var, "url32".as_bytes()) && self.url32.is_some() {
            let x = self.url32.unwrap();
            push_all(dst, "$url32      = '".as_bytes());
            push_all(dst, x.as_bytes());
            push_all(dst, "'\n".as_bytes());
            self.url32 = None;
            true
        } else if bytes_eq(var, "url64".as_bytes()) && self.url64.is_some() {
            let x = self.url64.unwrap();
            push_all(dst, "$url64      = '".as_bytes());
            push_all(dst, x.as_bytes());
            push_all(dst, "'\n".as_bytes());
            self.url64 = None;
            true
        } else if bytes_eq(var, "checksum32".as_bytes()) && self.checksum32.is_some() {
            let x = self.checksum32.unwrap();
            push_all(dst, "$checksum32 = '".as_bytes());
            let hex = x.to_hex_bytes();
            push_all(dst, hex.as_slice());
            push_all(dst, "'\n".as_bytes());
            self.checksum32 = None;
            true
        } else if bytes_eq(var, "checksum64".as_bytes()) && self.checksum64.is_some() {
            let x = self.checksum64.unwrap();
            push_all(dst, "$checksum64 = '".as_bytes());
            let hex = x.to_hex_bytes();
            push_all(dst, hex.as_slice());
            push_all(dst, "'\n".as_bytes());
            self.checksum64 = None;
            true
        } else {
            false
        }
    }

    /// The variable that `line` assigns, if it is one still waiting: writes
    /// its assignment to `dst` in place of the line. Otherwise copies the line.
    fn rewrite_line(&mut self, line: &[u8], dst: &mut Vec<u8>)
        ensures
            spec_rewrite_line(line@, *old(self)) == (final(dst)@.skip(old(dst)@.len() as int), *final(self)),
            final(dst)@.take(old(dst)@.len() as int) == old(dst)@,
            final(dst)@.len() >= old(dst)@.len(),
    {
        let ghost d0 = dst@;
        let updated = match split_once_str(line, "=".as_bytes()) {
            Some((var, _)) => match strip_dollar(var) {
                Some(name) => {
                    let name = trim_end(name);
                    self.write_replacement(name, dst)
                },
                None => false,
            },
            None => false,
        };
        if !updated {
            push_all(dst, line);
        }
        assert(dst@.skip(d0.len() as int) =~= dst@.subrange(d0.len() as int, dst@.len() as int));
        assert(dst@.take(d0.len() as int) =~= d0);
    }

    /// Rewrites an install script: every line `$name = ...` that assigns a
    /// variable still waiting is replaced by its assignment (each variable
    /// once, at its first such line), and all other lines are kept. Fails if
    /// a variable was not assigned anywhere.
    pub fn rewrite(self, data: &[u8]) -> (res: Result<Vec<u8>, Error>)
        ensures
            match spec_rewrite(self, data@) {
                Ok(out) => res matches Ok(v) && v@ == out,
                Err(e) => res matches Err(e2) && e2 == e,
            },
    {
        let mut this = self;
        let lines = lines_with_terminator(data);
        proof {
            lemma_line_split_unique(data@, lines@.map_values(|l: &[u8]| l@));
        }
        let ghost ls = spec_lines(data@);
        let mut out: Vec<u8> = Vec::new();
        let mut k: usize = 0;
        proof {
            assert(ls.skip(0) =~= ls);
            let (rest, fin) = spec_rewrite_lines(ls, this);
            assert(out@ + rest =~= rest);
        }
        while k < lines.len()
            invariant
                0 <= k <= lines@.len(),
                ls == lines@.map_values(|l: &[u8]| l@),
                ls == spec_lines(data@),
                spec_rewrite_lines(ls, self) == ({
                    let (rest, fin) = spec_rewrite_lines(ls.skip(k as int), this);
                    (out@ + rest, fin)
                }),
            decreases lines@.len() - k,
        {
            let ghost before = out@;
            let ghost r_before = this;
            this.rewrite_line(lines[k], &mut out);
            proof {
                let tail = ls.skip(k as int);
                assert(tail[0] == lines@[k as int]@);
                assert(tail.drop_first() =~= ls.skip(k + 1));
                let piece = out@.skip(before.len() as int);
                assert(out@ =~= out@.take(before.len() as int) + piece);
                assert(out@ =~= before + piece);
                let (rest2, fin2) = spec_rewrite_lines(ls.skip(k + 1), this);
                assert(spec_rewrite_lines(tail, r_before) == (piece + rest2, fin2));
                assert(before + (piece + rest2) =~= out@ + rest2);
            }
            k = k + 1;
        }
        proof {
            assert(ls.skip(k as int) =~= Seq::<Seq<u8>>::empty());
            assert(out@ + Seq::<u8>::empty() =~= out@);
        }
        match this.ensure_empty() {
            Ok(()) => Ok(out),
            Err(e) => Err(e),
        }
    }
}

/// Nothing is waiting to be set.
pub open spec fn nothing_to_set(r: Replacements) -> bool {
    r.url32 is None && r.checksum32 is None && r.url64 is None && r.checksum64 is None
}

proof fn lemma_rewrite_lines_nothing<'a>(ls: Seq<Seq<u8>>, r: Replacements<'a>)
    requires
        nothing_to_set(r),
    ensures
        spec_rewrite_lines(ls, r) == (crate::bytes::concat_all(ls), r),
    decreases ls.len(),
{
    if ls.len() > 0 {
        lemma_rewrite_lines_nothing(ls.drop_first(), r);
    }
}

/// With nothing to set, rewriting a script leaves it as it was.
pub proof fn lemma_rewrite_nothing_is_identity<'a>(r: Replacements<'a>, data: Seq<u8>)
    requires
        nothing_to_set(r),
    ensures
        spec_rewrite(r, data) == Ok::<Seq<u8>, Error>(data),
{
    lemma_rewrite_lines_nothing(spec_lines(data), r);
    crate::bytes::lemma_lines_concat(data);
}

/// The assignment line for variable `k` (url32, url64, checksum32,
/// checksum64 for `k` from 0 to 3), while it is still waiting to be set.
pub open spec fn assignment(r: Replacements, k: int) -> Option<Seq<u8>> {
    if k == 0 {
        match r.url32 {
            Some(x) => Some("$url32      = '".spec_bytes() + x.spec_bytes() + "'\n".spec_bytes()),
            None => None,
        }
    } else if k == 1 {
        match r.url64 {
            Some(x) => Some("$url64      = '".spec_bytes() + x.spec_bytes() + "'\n".spec_bytes()),
            None => None,
        }
    } else if k == 2 {
        match r.checksum32 {
            Some(x) => Some("$checksum32 = '".spec_bytes() + spec_to_hex(x@) + "'\n".spec_bytes()),
            None => None,
        }
    } else {
        match r.checksum64 {
            Some(x) => Some("$checksum64 = '".spec_bytes() + spec_to_hex(x@) + "'\n".spec_bytes()),
            None => None,
        }
    }
}

proof fn lemma_step_assignment<'a>(line: Seq<u8>, r: Replacements<'a>, k: int)
    requires
        0 <= k < 4,
    ensures
        ({
            let (text, r1) = spec_rewrite_line(line, r);
            ||| assignment(r1, k) == assignment(r, k)
            ||| assignment(r1, k) is None && assignment(r, k) == Some(text)
        }),
{
}

proof fn lemma_lines_assignment<'a>(ls: Seq<Seq<u8>>, r: Replacements<'a>, k: int)
    requires
        0 <= k < 4,
        assignment(r, k) is Some,
        assignment(spec_rewrite_lines(ls, r).1, k) is None,
    ensures
        exists|p: int|
            crate::bytes::occurs_at(spec_rewrite_lines(ls, r).0, assignment(r, k)->Some_0, p),
    decreases ls.len(),
{
    let line = assignment(r, k)->Some_0;
    if ls.len() > 0 {
        let (first, r1) = spec_rewrite_line(ls[0], r);
        let (rest, r2) = spec_rewrite_lines(ls.drop_first(), r1);
        let out = first + rest;
        assert(spec_rewrite_lines(ls, r) == (out, r2));
        lemma_step_assignment(ls[0], r, k);
        if assignment(r1, k) is None && assignment(r, k) == Some(first) {
            assert(out.subrange(0, first.len() as int) =~= first);
            assert(crate::bytes::occurs_at(out, line, 0));
            assert(crate::bytes::occurs_at(spec_rewrite_lines(ls, r).0, line, 0));
        } else {
            lemma_lines_assignment(ls.drop_first(), r1, k);
            let p = choose|p: int| crate::bytes::occurs_at(rest, line, p);
            assert(out.subrange(first.len() + p, first.len() + p + line.len()) =~= rest.subrange(
                p,
                p + line.len(),
            ));
            assert(crate::bytes::occurs_at(out, line, first.len() + p));
            assert(crate::bytes::occurs_at(spec_rewrite_lines(ls, r).0, line, first.len() + p));
        }
    } else {
        assert(spec_rewrite_lines(ls, r).1 == r);
    }
}

/// A rewrite that succeeds has written the assignment line of every
/// variable it was given somewhere in the new script.
pub proof fn lemma_rewrite_assigns_each<'a>(r: Replacements<'a>, data: Seq<u8>, k: int)
    requires
        0 <= k < 4,
        spec_rewrite(r, data) is Ok,
        assignment(r, k) is Some,
    ensures
        exists|p: int|
            crate::bytes::occurs_at(
                spec_rewrite(r, data)->Ok_0,
                assignment(r, k)->Some_0,
                p,
            ),
{
    let (out, left) = spec_rewrite_lines(spec_lines(data), r);
    assert(spec_missing_var(left) is None);
    assert(assignment(left, k) is None);
    lemma_lines_assignment(spec_lines(data), r, k);
    assert(spec_rewrite(r, data)->Ok_0 == out);
}

impl<'a> Default for Replacements<'a> {
    fn default() -> (res: Replacements<'a>)
        ensures
            res.url32 is None && res.checksum32 is None && res.url64 is None
                && res.checksum64 is None,
    {
        Replacements::new()
    }
}

} // verus!
