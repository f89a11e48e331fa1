//! Checksums of downloaded files and the checks that a download must pass.

use vstd::prelude::*;
use vstd::string::StringSliceAdditionalSpecFns;
use crate::bytes::{all_ascii, ascii_chars, ascii_string};
use crate::error::Error;

verus! {

/// The SHA-256 digest of `data`, as `ring::digest::digest` computes it.
pub uninterp spec fn sha256(data: Seq<u8>) -> Seq<u8>;

/// Hashes `data` with `ring::digest::digest(&SHA256, ..)`.
///
/// Trusted: the bytes returned are the digest of `data`, and a SHA-256 digest
/// is 32 bytes long.
#[verifier::external_body]
fn sha256_digest(data: &[u8]) -> (res: Vec<u8>)
    ensures
        res@ == sha256(data@),
        res@.len() == 32,
{
    ring::digest::digest(&ring::digest::SHA256, data).as_ref().to_vec()
}

/// A 32-byte checksum of a file (the SHA-256 digest; the name is historical).
#[derive(Clone, Copy, Debug)]
pub struct Sha1(pub(crate) [u8; 32]);

impl View for Sha1 {
    type V = Seq<u8>;

    closed spec fn view(&self) -> Seq<u8> {
        self.0@
    }
}

/// The value of one hexadecimal digit, either case.
pub open spec fn hex_value(b: u8) -> Option<u8> {
    if 97 <= b <= 102 {
        Some((b - 87) as u8)
    } else if 65 <= b <= 70 {
        Some((b - 55) as u8)
    } else if 48 <= b <= 57 {
        Some((b - 48) as u8)
    } else {
        None
    }
}

/// The bytes that 64 hexadecimal digits stand for, two digits a byte, high
/// digit first; any other text stands for none.
pub open spec fn spec_parse_hex(s: Seq<u8>) -> Option<Seq<u8>> {
    if s.len() == 64 && forall|i: int| 0 <= i < 64 ==> (#[trigger] hex_value(s[i])) is Some {
        Some(
            Seq::new(
                32,
                |i: int|
                    (hex_value(s[2 * i]).unwrap() * 16 + hex_value(s[2 * i + 1]).unwrap()) as u8,
            ),
        )
    } else {
        None
    }
}

/// The lower-case hexadecimal digit for `n < 16`.
pub open spec fn hex_digit(n: u8) -> u8 {
    if n < 10 {
        (48 + n) as u8
    } else {
        (87 + n) as u8
    }
}

/// `b` written in lower-case hexadecimal, two digits a byte, high digit first.
pub open spec fn spec_to_hex(b: Seq<u8>) -> Seq<u8> {
    Seq::new(
        2 * b.len(),
        |i: int|
            if i % 2 == 0 {
                hex_digit(b[i / 2] / 16)
            } else {
                hex_digit(b[i / 2] % 16)
            },
    )
}

/// `s` with its ASCII capitals made small.
pub open spec fn ascii_lower(s: Seq<u8>) -> Seq<u8> {
    s.map_values(|c: u8| if 65 <= c <= 90 { (c + 32) as u8 } else { c })
}

fn read_digit(x: u8) -> (res: Option<u8>)
    ensures
        res == hex_value(x),
{
    if 97 <= x && x <= 102 {
        Some(x - 87)
    } else if 65 <= x && x <= 70 {
        Some(x - 55)
    } else if 48 <= x && x <= 57 {
        Some(x - 48)
    } else {
        None
    }
}

fn write_digit(n: u8) -> (res: u8)
    requires
        n < 16,
    ensures
        res == hex_digit(n),
{
    if n < 10 {
        48 + n
    } else {
        87 + n
    }
}

impl Sha1 {
    /// A checksum from exactly 32 bytes; `None` for a slice of any other length.
    pub fn try_from_slice(slice: &[u8]) -> (res: Option<Sha1>)
        ensures
            res is Some <==> slice@.len() == 32,
            res matches Some(h) ==> h@ == slice@,
    {
        if slice.len() != 32 {
            return None;
        }
        let mut buf = [0u8; 32];
        let mut i: usize = 0;
        while i < 32
            invariant
                slice@.len() == 32,
                0 <= i <= 32,
                forall|j: int| 0 <= j < i ==> buf@[j] == slice@[j],
            decreases 32 - i,
        {
            buf[i] = slice[i];
            i = i + 1;
        }
        let res = Sha1(buf);
        assert(res@ =~= slice@);
        Some(res)
    }

    /// The checksum of `data`.
    pub fn calculate(data: &[u8]) -> (res: Sha1)
        ensures
            res@ == sha256(data@),
    {
        let digest = sha256_digest(data);
        match Sha1::try_from_slice(digest.as_slice()) {
            Some(h) => h,
            None => {
                assert(false);
                Sha1([0u8; 32])
            },
        }
    }

    /// Parses the bytes of 64 hexadecimal digits (see `spec_parse_hex`).
    pub fn parse_hex(s: &[u8]) -> (res: Option<Sha1>)
        ensures
            res is Some <==> spec_parse_hex(s@) is Some,
            res matches Some(h) ==> Some(h@) == spec_parse_hex(s@),
    {
        if s.len() != 64 {
            return None;
        }
        let mut buf = [0u8; 32];
        let mut i: usize = 0;
        while i < 32
            invariant
                s@.len() == 64,
                0 <= i <= 32,
                forall|j: int| 0 <= j < 2 * i ==> (#[trigger] hex_value(s@[j])) is Some,
                forall|j: int|
                    0 <= j < i ==> buf@[j] == (hex_value(s@[2 * j]).unwrap() * 16 + hex_value(
                        s@[2 * j + 1],
                    ).unwrap()) as u8,
            decreases 32 - i,
        {
            let hi = match read_digit(s[2 * i]) {
                Some(d) => d,
                None => {
                    return None;
                },
            };
            let lo = match read_digit(s[2 * i + 1]) {
                Some(d) => d,
                None => {
                    return None;
                },
            };
            buf[i] = hi * 16 + lo;
            i = i + 1;
        }
        let res = Sha1(buf);
        assert(res@ =~= spec_parse_hex(s@).unwrap());
        Some(res)
    }

    /// Parses 64 hexadecimal digits, as `Sha1::from_str` does.
    pub fn from_hex(s: &str) -> (res: Option<Sha1>)
        ensures
            res is Some <==> spec_parse_hex(s.spec_bytes()) is Some,
            res matches Some(h) ==> Some(h@) == spec_parse_hex(s.spec_bytes()),
    {
        Sha1::parse_hex(s.as_bytes())
    }

    /// This checksum in lower-case hexadecimal.
    pub fn to_hex_bytes(&self) -> (res: Vec<u8>)
        ensures
            res@ == spec_to_hex(self@),
    {
        let mut out: Vec<u8> = Vec::new();
        let mut i: usize = 0;
        while i < 32
            invariant
                0 <= i <= 32,
                self@.len() == 32,
                out@.len() == 2 * i,
                forall|j: int| 0 <= j < 2 * i ==> out@[j] == spec_to_hex(self@)[j],
            decreases 32 - i,
        {
            let x = self.0[i];
            out.push(write_digit(x / 16));
            out.push(write_digit(x % 16));
            i = i + 1;
        }
        assert(out@ =~= spec_to_hex(self@));
        out
    }

    /// This checksum in lower-case hexadecimal, as the `Display` of the type writes it.
    pub fn to_string(&self) -> (res: String)
        ensures
            res@ == ascii_chars(spec_to_hex(self@)),
    {
        let bytes = self.to_hex_bytes();
        proof {
            lemma_hex_ascii(self@);
        }
        ascii_string(bytes)
    }

    /// Whether two checksums are the same.
    pub fn same_as(&self, other: &Sha1) -> (res: bool)
        ensures
            res == (self@ == other@),
    {
        let mut i: usize = 0;
        while i < 32
            invariant
                0 <= i <= 32,
                self@.len() == 32,
                other@.len() == 32,
                forall|j: int| 0 <= j < i ==> self@[j] == other@[j],
            decreases 32 - i,
        {
            if self.0[i] != other.0[i] {
                return false;
            }
            i = i + 1;
        }
        assert(self@ =~= other@);
        true
    }
}

/// The written form of a checksum is ASCII.
pub proof fn lemma_hex_ascii(b: Seq<u8>)
    ensures
        all_ascii(spec_to_hex(b)),
{
    let h = spec_to_hex(b);
    assert forall|i: int| 0 <= i < h.len() implies #[trigger] h[i] < 128 by {
        assert(b[i / 2] / 16 < 16);
        assert(b[i / 2] % 16 < 16);
    }
}

/// Every checksum is 32 bytes long.
pub proof fn lemma_sha1_len(h: Sha1)
    ensures
        h@.len() == 32,
{
}

/// Reading back the written form of a checksum gives the same checksum.
pub proof fn lemma_parse_to_hex_roundtrip(h: Sha1)
    ensures
        spec_parse_hex(spec_to_hex(h@)) == Some(h@),
{
    let b = h@;
    let s = spec_to_hex(b);
    assert forall|i: int| 0 <= i < 64 implies (#[trigger] hex_value(s[i])) is Some by {
        assert(b[i / 2] / 16 < 16);
        assert(b[i / 2] % 16 < 16);
    }
    let p = spec_parse_hex(s).unwrap();
    assert forall|i: int| 0 <= i < 32 implies p[i] == b[i] by {
        assert((2 * i) % 2 == 0);
        assert((2 * i + 1) % 2 == 1);
        assert((2 * i) / 2 == i);
        assert((2 * i + 1) / 2 == i);
        assert(hex_value(s[2 * i]).unwrap() == b[i] / 16);
        assert(hex_value(s[2 * i + 1]).unwrap() == b[i] % 16);
    }
    assert(p =~= b);
}

/// Writing out a parsed checksum gives the text it was parsed from, in lower case.
pub proof fn lemma_to_hex_parse_roundtrip(s: Seq<u8>)
    requires
        spec_parse_hex(s) is Some,
    ensures
        spec_to_hex(spec_parse_hex(s).unwrap()) == ascii_lower(s),
{
    let b = spec_parse_hex(s).unwrap();
    let t = spec_to_hex(b);
    assert forall|i: int| 0 <= i < 64 implies t[i] == ascii_lower(s)[i] by {
        let k = i / 2;
        assert(0 <= k < 32);
        assert(hex_value(s[2 * k]) is Some);
        assert(hex_value(s[2 * k + 1]) is Some);
        let hi = hex_value(s[2 * k]).unwrap();
        let lo = hex_value(s[2 * k + 1]).unwrap();
        assert(b[k] == (hi * 16 + lo) as u8);
        assert(b[k] / 16 == hi) by (nonlinear_arith)
            requires
                b[k] == hi * 16 + lo,
                hi < 16,
                lo < 16,
        ;
        assert(b[k] % 16 == lo) by (nonlinear_arith)
            requires
                b[k] == hi * 16 + lo,
                hi < 16,
                lo < 16,
        ;
        if i % 2 == 0 {
            assert(i == 2 * k);
        } else {
            assert(i == 2 * k + 1);
        }
    }
    assert(t =~= ascii_lower(s));
}

#[verifier::external_type_specification]
#[verifier::external_body]
pub struct ExSignedPublicKey(pgp::SignedPublicKey);

#[verifier::external_type_specification]
#[verifier::external_body]
pub struct ExSignedPublicSubKey(pgp::SignedPublicSubKey);

#[verifier::external_type_specification]
#[verifier::external_body]
pub struct ExStandaloneSignature(pgp::StandaloneSignature);

/// Whether the primary key's algorithm can sign, as
/// `PublicKeyTrait::is_signing_key` reports it.
pub uninterp spec fn primary_can_sign(key: pgp::SignedPublicKey) -> bool;

/// Whether a subkey's algorithm can sign, as `PublicKeyTrait::is_signing_key`
/// reports it.
pub uninterp spec fn subkey_can_sign(key: pgp::SignedPublicSubKey) -> bool;

/// The subkeys that a key holds, in the order of its field `public_subkeys`.
pub uninterp spec fn subkeys_of(key: pgp::SignedPublicKey) -> Seq<pgp::SignedPublicSubKey>;

/// Whether `StandaloneSignature::verify` accepts `content` under a primary key.
pub uninterp spec fn verifies_with_primary(
    sig: pgp::StandaloneSignature,
    key: pgp::SignedPublicKey,
    content: Seq<u8>,
) -> bool;

/// Whether `StandaloneSignature::verify` accepts `content` under a subkey.
pub uninterp spec fn verifies_with_subkey(
    sig: pgp::StandaloneSignature,
    key: pgp::SignedPublicSubKey,
    content: Seq<u8>,
) -> bool;

/// Calls `PublicKeyTrait::is_signing_key` on the primary key.
///
/// Trusted: the answer is `primary_can_sign` of the key; the method only
/// looks at the key's algorithm, so the same key gives the same answer.
/// Which algorithms can sign is left unstated.
#[verifier::external_body]
fn primary_is_signing_key(key: &pgp::SignedPublicKey) -> (res: bool)
    ensures
        res == primary_can_sign(*key),
{
    pgp::types::PublicKeyTrait::is_signing_key(key)
}

/// Calls `PublicKeyTrait::is_signing_key` on a subkey.
///
/// Trusted: the answer is `subkey_can_sign` of the subkey; which algorithms
/// can sign is left unstated.
#[verifier::external_body]
fn subkey_is_signing_key(key: &pgp::SignedPublicSubKey) -> (res: bool)
    ensures
        res == subkey_can_sign(*key),
{
    pgp::types::PublicKeyTrait::is_signing_key(key)
}

/// Reads the field `SignedPublicKey::public_subkeys`.
///
/// Trusted: the slice is `subkeys_of` the key; which subkeys a key holds is
/// left unstated.
#[verifier::external_body]
fn public_subkeys(key: &pgp::SignedPublicKey) -> (res: &[pgp::SignedPublicSubKey])
    ensures
        res@ == subkeys_of(*key),
{
    key.public_subkeys.as_slice()
}

/// Whether `StandaloneSignature::verify` accepts `content` under the primary key.
///
/// Trusted: the answer is `verifies_with_primary` of the three arguments (the
/// check is a computation on them alone); its outcome is left unstated.
#[verifier::external_body]
fn verify_with_primary(
    sig: &pgp::StandaloneSignature,
    key: &pgp::SignedPublicKey,
    content: &[u8],
) -> (res: bool)
    ensures
        res == verifies_with_primary(*sig, *key, content@),
{
    sig.verify(key, content).is_ok()
}

/// Whether `StandaloneSignature::verify` accepts `content` under a subkey.
///
/// Trusted: the answer is `verifies_with_subkey` of the three arguments; its
/// outcome is left unstated.
#[verifier::external_body]
fn verify_with_subkey(
    sig: &pgp::StandaloneSignature,
    key: &pgp::SignedPublicSubKey,
    content: &[u8],
) -> (res: bool)
    ensures
        res == verifies_with_subkey(*sig, *key, content@),
{
    sig.verify(key, content).is_ok()
}

/// Whether `Deserializable::from_bytes` reads a detached signature from `bytes`.
pub uninterp spec fn signature_parses(bytes: Seq<u8>) -> bool;

/// The signature that `Deserializable::from_bytes` reads from `bytes`.
pub uninterp spec fn parsed_signature(bytes: Seq<u8>) -> pgp::StandaloneSignature;

/// The description of the error that `Deserializable::from_bytes` gives for `bytes`.
pub uninterp spec fn signature_error_text(bytes: Seq<u8>) -> Seq<char>;

/// Parses a detached signature with `Deserializable::from_bytes`; a parse
/// error comes back as its description.
///
/// Trusted: the parse depends on the bytes alone, so whether it succeeds,
/// the signature read and the error's description are named results of
/// them. Which byte strings are signatures is left unstated.
#[verifier::external_body]
pub(crate) fn parse_signature(bytes: &[u8]) -> (res: Result<pgp::StandaloneSignature, String>)
    ensures
        res is Ok <==> signature_parses(bytes@),
        res matches Ok(s) ==> s == parsed_signature(bytes@),
        res matches Err(m) ==> m@ == signature_error_text(bytes@),
{
    match <pgp::StandaloneSignature as pgp::Deserializable>::from_bytes(bytes) {
        Ok(sig) => Ok(sig),
        Err(e) => Err(e.to_string()),
    }
}

/// A subkey that can sign and under which the signature verifies.
pub open spec fn subkey_accepts(
    sig: pgp::StandaloneSignature,
    sub: pgp::SignedPublicSubKey,
    content: Seq<u8>,
) -> bool {
    subkey_can_sign(sub) && verifies_with_subkey(sig, sub, content)
}

/// A signature is accepted when the primary key can sign and it verifies
/// under it, or some subkey that can sign verifies it.
pub open spec fn spec_signature_accepted(
    key: pgp::SignedPublicKey,
    sig: pgp::StandaloneSignature,
    content: Seq<u8>,
) -> bool {
    ||| primary_can_sign(key) && verifies_with_primary(sig, key, content)
    ||| exists|i: int|
        0 <= i < subkeys_of(key).len() && #[trigger] subkey_accepts(
            sig,
            subkeys_of(key)[i],
            content,
        )
}

/// Which signatures are accepted: one that verifies under the primary key,
/// when that key can sign, or under any subkey that can sign; and no other.
pub proof fn lemma_signature_accepted_by_any_signing_key(
    key: pgp::SignedPublicKey,
    sig: pgp::StandaloneSignature,
    content: Seq<u8>,
)
    ensures
        primary_can_sign(key) && verifies_with_primary(sig, key, content)
            ==> spec_signature_accepted(key, sig, content),
        forall|i: int|
            0 <= i < subkeys_of(key).len() && subkey_can_sign(#[trigger] subkeys_of(key)[i])
                && verifies_with_subkey(sig, subkeys_of(key)[i], content)
                ==> spec_signature_accepted(key, sig, content),
        spec_signature_accepted(key, sig, content) ==> (primary_can_sign(key)
            && verifies_with_primary(sig, key, content)) || exists|i: int|
            0 <= i < subkeys_of(key).len() && subkey_can_sign(#[trigger] subkeys_of(key)[i])
                && verifies_with_subkey(sig, subkeys_of(key)[i], content),
{
    assert forall|i: int|
        0 <= i < subkeys_of(key).len() && subkey_can_sign(#[trigger] subkeys_of(key)[i])
            && verifies_with_subkey(sig, subkeys_of(key)[i], content) implies spec_signature_accepted(
        key,
        sig,
        content,
    ) by {
        assert(subkey_accepts(sig, subkeys_of(key)[i], content));
    }
    if spec_signature_accepted(key, sig, content) && !(primary_can_sign(key)
        && verifies_with_primary(sig, key, content)) {
        let i = choose|i: int|
            0 <= i < subkeys_of(key).len() && #[trigger] subkey_accepts(
                sig,
                subkeys_of(key)[i],
                content,
            );
        assert(subkey_can_sign(subkeys_of(key)[i]));
    }
}

/// Whether `sig` is a valid signature of `content` by the key: by its primary
/// key if that can sign, or else by any of its subkeys that can sign.
fn signature_accepted(
    key: &pgp::SignedPublicKey,
    sig: &pgp::StandaloneSignature,
    content: &[u8],
) -> (res: bool)
    ensures
        res == spec_signature_accepted(*key, *sig, content@),
{
    if primary_is_signing_key(key) && verify_with_primary(sig, key, content) {
        return true;
    }
    let subkeys = public_subkeys(key);
    let mut i: usize = 0;
    while i < subkeys.len()
        invariant
            0 <= i <= subkeys@.len(),
            subkeys@ == subkeys_of(*key),
            !(primary_can_sign(*key) && verifies_with_primary(*sig, *key, content@)),
            forall|j: int| 0 <= j < i ==> !#[trigger] subkey_accepts(*sig, subkeys@[j], content@),
        decreases subkeys.len() - i,
    {
        if subkey_is_signing_key(&subkeys[i]) && verify_with_subkey(sig, &subkeys[i], content) {
            assert(subkey_accepts(*sig, subkeys@[i as int], content@));
            return true;
        }
        i = i + 1;
    }
    false
}

/// Checks a downloaded file: its pgp signature when one is given, then its
/// checksum against the expected one when one is given. Returns the checksum
/// of the content.
///
/// A signature that is not accepted (see `spec_signature_accepted`) fails the
/// download with `AssetSigFailed`; otherwise the checksum is checked as
/// `check_download` does.
pub fn checksum_and_verify(
    name: &'static str,
    content: &[u8],
    expected: Option<&Sha1>,
    pgp_sig: Option<(&pgp::SignedPublicKey, &pgp::StandaloneSignature)>,
) -> (res: Result<Sha1, Error>)
    ensures
        pgp_sig matches Some((k, s)) && !spec_signature_accepted(*k, *s, content@) ==> res
            == Err::<Sha1, Error>(Error::AssetSigFailed(name)),
        (pgp_sig matches Some((k, s)) ==> spec_signature_accepted(*k, *s, content@)) ==> (
        expected is Some && expected.unwrap()@ != sha256(content@) ==> res == Err::<Sha1, Error>(
            Error::AssetChecksumMismatch(name),
        )),
        (pgp_sig matches Some((k, s)) ==> spec_signature_accepted(*k, *s, content@)) ==> (
        expected is None || expected.unwrap()@ == sha256(content@) ==> (res matches Ok(h) && h@
            == sha256(content@))),
        res matches Ok(h) ==> h@ == sha256(content@) && (expected matches Some(e) ==> e@ == h@),
        res matches Err(e) ==> (e == Error::AssetSigFailed(name) && pgp_sig is Some) || e
            == Error::AssetChecksumMismatch(name),
{
    let verdict = match pgp_sig {
        Some((key, sig)) => Some(signature_accepted(key, sig, content)),
        None => None,
    };
    check_download(name, content, expected, verdict)
}

/// The checks that a downloaded file must pass, once the outcome of its
/// signature check (if it has one) is known: `signature` is `Some(ok)` when a
/// signature was checked, with `ok` its outcome.
///
/// A failed signature fails the download; otherwise the checksum of the
/// content is returned, unless an expected checksum was given and differs.
pub fn check_download(
    name: &'static str,
    content: &[u8],
    expected: Option<&Sha1>,
    signature: Option<bool>,
) -> (res: Result<Sha1, Error>)
    ensures
        signature == Some(false) ==> res == Err::<Sha1, Error>(Error::AssetSigFailed(name)),
        signature != Some(false) && expected is Some && expected.unwrap()@ != sha256(content@)
            ==> res == Err::<Sha1, Error>(Error::AssetChecksumMismatch(name)),
        signature != Some(false) && (expected is None || expected.unwrap()@ == sha256(content@))
            ==> (res matches Ok(h) && h@ == sha256(content@)),
{
    if signature == Some(false) {
        return Err(Error::AssetSigFailed(name));
    }
    let sha = Sha1::calculate(content);
    if let Some(expected) = expected {
        if !expected.same_as(&sha) {
            return Err(Error::AssetChecksumMismatch(name));
        }
    }
    Ok(sha)
}

} // verus!
