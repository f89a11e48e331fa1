//! GitHub releases: picking the stable release, and finding the download
//! urls of the assets a package needs.

use vstd::prelude::*;
use vstd::string::StringSliceAdditionalSpecFns;
use crate::bytes::bytes_eq;
use vstd::utf8::encode_utf8;
use crate::error::Error;

verus! {

/// A file attached to a release.
pub struct Asset {
    pub name: String,
    pub url: String,
}

/// A release: its tag and its assets.
pub struct Release {
    pub tag: String,
    pub assets: Vec<Asset>,
}

/// One entry of a repository's list of releases.
pub struct ReleaseEntry {
    pub tag: String,
    pub assets: Vec<Asset>,
    pub prerelease: bool,
}

impl ReleaseEntry {
    /// The release of this entry, unless it is a pre-release.
    pub fn into_stable(self) -> (res: Option<Release>)
        ensures
            self.prerelease ==> res is None,
            !self.prerelease ==> (res matches Some(r) && r.tag == self.tag && r.assets
                == self.assets),
    {
        if self.prerelease {
            None
        } else {
            Some(Release { tag: self.tag, assets: self.assets })
        }
    }
}

/// A test on an asset's name.
pub enum NameMatcher {
    /// The name ends with the text.
    EndsWith(&'static str),
    /// The name is the text.
    Equals(&'static str),
    /// The name starts with the first text and ends with the second.
    StartsAndEndsWith(&'static str, &'static str),
}

pub open spec fn is_suffix(s: Seq<u8>, t: Seq<u8>) -> bool {
    t.len() <= s.len() && s.skip(s.len() - t.len()) == t
}

pub open spec fn is_prefix(s: Seq<u8>, t: Seq<u8>) -> bool {
    t.len() <= s.len() && s.take(t.len() as int) == t
}

/// Whether the matcher accepts a name, given as bytes.
pub open spec fn spec_accepts(m: NameMatcher, name: Seq<u8>) -> bool {
    match m {
        NameMatcher::EndsWith(t) => is_suffix(name, t.spec_bytes()),
        NameMatcher::Equals(t) => name == t.spec_bytes(),
        NameMatcher::StartsAndEndsWith(p, t) => is_prefix(name, p.spec_bytes()) && is_suffix(
            name,
            t.spec_bytes(),
        ),
    }
}

fn ends_with(s: &[u8], t: &[u8]) -> (res: bool)
    ensures
        res == is_suffix(s@, t@),
{
    if t.len() > s.len() {
        return false;
    }
    let tail = vstd::slice::slice_subrange(s, s.len() - t.len(), s.len());
    assert(tail@ =~= s@.skip(s@.len() - t@.len()));
    bytes_eq(tail, t)
}

fn starts_with(s: &[u8], t: &[u8]) -> (res: bool)
    ensures
        res == is_prefix(s@, t@),
{
    if t.len() > s.len() {
        return false;
    }
    let head = vstd::slice::slice_subrange(s, 0, t.len());
    assert(head@ =~= s@.take(t@.len() as int));
    bytes_eq(head, t)
}

impl NameMatcher {
    /// Whether this matcher accepts `name`.
    pub fn accepts(&self, name: &str) -> (res: bool)
        ensures
            res == spec_accepts(*self, name.spec_bytes()),
    {
        let n = name.as_bytes();
        match self {
            NameMatcher::EndsWith(t) => ends_with(n, t.as_bytes()),
            NameMatcher::Equals(t) => bytes_eq(n, t.as_bytes()),
            NameMatcher::StartsAndEndsWith(p, t) => starts_with(n, p.as_bytes()) && ends_with(
                n,
                t.as_bytes(),
            ),
        }
    }
}

/// Sorts asset names into the assets that a package needs: the `i`th needed
/// asset is the one whose name the extractor sorts to `i`.
pub trait AssetExtractor {
    /// How many assets are needed.
    spec fn spec_count(&self) -> nat;

    /// Which needed asset a name is, if any.
    spec fn spec_classify(&self, name: Seq<u8>) -> Option<nat>;

    /// A name is sorted to one of the needed assets, if to any.
    proof fn lemma_classify_bound(&self, name: Seq<u8>)
        ensures
            self.spec_classify(name) matches Some(i) ==> i < self.spec_count(),
    ;

    /// How many assets are needed.
    fn count(&self) -> (res: usize)
        ensures
            res == self.spec_count(),
    ;

    /// Which needed asset `name` is, if any.
    fn classify(&self, name: &str) -> (res: Option<usize>)
        ensures
            res is None <==> self.spec_classify(name.spec_bytes()) is None,
            res matches Some(i) ==> self.spec_classify(name.spec_bytes()) == Some(i as nat) && i
                < self.spec_count(),
    ;
}

/// The first matcher in `ms` that accepts `name`, counted from `from`.
pub open spec fn first_accepting(ms: Seq<NameMatcher>, name: Seq<u8>, from: int) -> Option<nat>
    decreases ms.len() - from,
{
    if from < 0 || from >= ms.len() {
        None
    } else if spec_accepts(ms[from], name) {
        Some(from as nat)
    } else {
        first_accepting(ms, name, from + 1)
    }
}

pub proof fn lemma_first_accepting_bound(ms: Seq<NameMatcher>, name: Seq<u8>, from: int)
    ensures
        first_accepting(ms, name, from) matches Some(i) ==> from <= i < ms.len(),
    decreases ms.len() - from,
{
    if 0 <= from < ms.len() && !spec_accepts(ms[from], name) {
        lemma_first_accepting_bound(ms, name, from + 1);
    }
}

/// A list of matchers sorts a name to the first matcher that accepts it.
impl AssetExtractor for Vec<NameMatcher> {
    open spec fn spec_count(&self) -> nat {
        self@.len()
    }

    open spec fn spec_classify(&self, name: Seq<u8>) -> Option<nat> {
        first_accepting(self@, name, 0)
    }

    proof fn lemma_classify_bound(&self, name: Seq<u8>) {
        lemma_first_accepting_bound(self@, name, 0);
    }

    fn count(&self) -> (res: usize) {
        self.len()
    }

    fn classify(&self, name: &str) -> (res: Option<usize>) {
        let mut i: usize = 0;
        while i < self.len()
            invariant
                0 <= i <= self@.len(),
                first_accepting(self@, name.spec_bytes(), 0) == first_accepting(
                    self@,
                    name.spec_bytes(),
                    i as int,
                ),
            decreases self@.len() - i,
        {
            if self[i].accepts(name) {
                return Some(i);
            }
            i = i + 1;
        }
        None
    }
}

/// The bytes of an asset's name.
pub open spec fn name_bytes(a: Asset) -> Seq<u8> {
    encode_utf8(a.name@)
}

/// Going through `assets` in order, starting from what was found before:
/// each asset that is a needed one has its url recorded, and one of a kind
/// already recorded is a duplicate, which ends the search.
pub open spec fn spec_collect(
    classify: spec_fn(Seq<u8>) -> Option<nat>,
    names: Seq<&'static str>,
    assets: Seq<Asset>,
    found: Seq<Option<String>>,
) -> Result<Seq<Option<String>>, Error>
    decreases assets.len(),
{
    if assets.len() == 0 {
        Ok(found)
    } else {
        match classify(name_bytes(assets[0])) {
            None => spec_collect(classify, names, assets.drop_first(), found),
            Some(i) => if found[i as int] is Some {
                Err(Error::AssetDuplicate(names[i as int]))
            } else {
                spec_collect(
                    classify,
                    names,
                    assets.drop_first(),
                    found.update(i as int, Some(assets[0].url)),
                )
            },
        }
    }
}

/// The first needed asset that was not found, from `from` on.
pub open spec fn first_missing(found: Seq<Option<String>>, from: int) -> Option<nat>
    decreases found.len() - from,
{
    if from < 0 || from >= found.len() {
        None
    } else if found[from] is None {
        Some(from as nat)
    } else {
        first_missing(found, from + 1)
    }
}

/// What extracting gives, for `count` needed assets that `classify` sorts
/// names into: the url of each needed asset, in order; or the first
/// duplicate met; or the first needed asset that is missing.
pub open spec fn spec_extract(
    classify: spec_fn(Seq<u8>) -> Option<nat>,
    count: nat,
    names: Seq<&'static str>,
    assets: Seq<Asset>,
) -> Result<Seq<String>, Error> {
    match spec_collect(classify, names, assets, Seq::new(count, |i: int| None)) {
        Err(err) => Err(err),
        Ok(found) => match first_missing(found, 0) {
            Some(i) => Err(Error::AssetMissing(names[i as int])),
            None => Ok(found.map_values(|o: Option<String>| o.unwrap())),
        },
    }
}

/// Asset `j` of `assets` is sorted to needed asset `i`.
pub open spec fn sorted_to(
    classify: spec_fn(Seq<u8>) -> Option<nat>,
    assets: Seq<Asset>,
    j: int,
    i: nat,
) -> bool {
    0 <= j < assets.len() && classify(name_bytes(assets[j])) == Some(i)
}

/// No asset is sorted to `i`.
pub open spec fn none_sorted_to(
    classify: spec_fn(Seq<u8>) -> Option<nat>,
    assets: Seq<Asset>,
    i: nat,
) -> bool {
    forall|j: int| !#[trigger] sorted_to(classify, assets, j, i)
}

/// At most one asset is sorted to `i`.
pub open spec fn at_most_one_sorted_to(
    classify: spec_fn(Seq<u8>) -> Option<nat>,
    assets: Seq<Asset>,
    i: nat,
) -> bool {
    forall|j: int, k: int|
        #[trigger] sorted_to(classify, assets, j, i) && #[trigger] sorted_to(classify, assets, k, i)
            ==> j == k
}

/// Asset `j` is the one asset sorted to `i`.
pub open spec fn only_sorted_to(
    classify: spec_fn(Seq<u8>) -> Option<nat>,
    assets: Seq<Asset>,
    j: int,
    i: nat,
) -> bool {
    sorted_to(classify, assets, j, i) && at_most_one_sorted_to(classify, assets, i)
}

/// Exactly one asset is sorted to `i`.
pub open spec fn has_unique_match(
    classify: spec_fn(Seq<u8>) -> Option<nat>,
    assets: Seq<Asset>,
    i: nat,
) -> bool {
    exists|j: int| only_sorted_to(classify, assets, j, i)
}

/// `classify` sorts every name to one of the `count` needed assets, or to none.
pub open spec fn classify_in_range(classify: spec_fn(Seq<u8>) -> Option<nat>, count: nat) -> bool {
    forall|n: Seq<u8>| (#[trigger] classify(n)) matches Some(i) ==> i < count
}

proof fn lemma_sorted_to_shift(
    classify: spec_fn(Seq<u8>) -> Option<nat>,
    assets: Seq<Asset>,
    j: int,
    i: nat,
)
    requires
        assets.len() > 0,
    ensures
        sorted_to(classify, assets.drop_first(), j, i) == (0 <= j && sorted_to(
            classify,
            assets,
            j + 1,
            i,
        )),
{
    if 0 <= j < assets.drop_first().len() {
        assert(assets.drop_first()[j] == assets[j + 1]);
    }
}

/// The condition under which collecting from `found` on succeeds: a needed
/// asset already found is matched by no asset, any other by at most one.
pub open spec fn collect_ok_cond(
    classify: spec_fn(Seq<u8>) -> Option<nat>,
    assets: Seq<Asset>,
    found: Seq<Option<String>>,
) -> bool {
    forall|i: nat|
        i < found.len() ==> #[trigger] slot_ok(classify, assets, found[i as int], i)
}

pub open spec fn slot_ok(
    classify: spec_fn(Seq<u8>) -> Option<nat>,
    assets: Seq<Asset>,
    slot: Option<String>,
    i: nat,
) -> bool {
    &&& slot is Some ==> none_sorted_to(classify, assets, i)
    &&& slot is None ==> at_most_one_sorted_to(classify, assets, i)
}

/// What collecting records for needed asset `i`: what was found before, or
/// nothing when no asset matches, or the url of the one asset that matches.
pub open spec fn slot_result(
    classify: spec_fn(Seq<u8>) -> Option<nat>,
    assets: Seq<Asset>,
    slot: Option<String>,
    result: Option<String>,
    i: nat,
) -> bool {
    &&& slot is Some ==> result == slot
    &&& slot is None ==> ((none_sorted_to(classify, assets, i) && result is None) || exists|j: int|
        only_sorted_to(classify, assets, j, i) && result == Some(assets[j].url))
}

proof fn lemma_shift_other(classify: spec_fn(Seq<u8>) -> Option<nat>, assets: Seq<Asset>, i: nat)
    requires
        assets.len() > 0,
        classify(name_bytes(assets[0])) != Some(i),
    ensures
        none_sorted_to(classify, assets, i) == none_sorted_to(classify, assets.drop_first(), i),
        at_most_one_sorted_to(classify, assets, i) == at_most_one_sorted_to(
            classify,
            assets.drop_first(),
            i,
        ),
        forall|j: int|
            #[trigger] only_sorted_to(classify, assets.drop_first(), j, i) ==> only_sorted_to(
                classify,
                assets,
                j + 1,
                i,
            ) && assets.drop_first()[j] == assets[j + 1],
{
    let rest = assets.drop_first();
    assert forall|j: int| #[trigger]
        sorted_to(classify, rest, j, i) == (0 <= j && sorted_to(classify, assets, j + 1, i)) by {
        lemma_sorted_to_shift(classify, assets, j, i);
    }
    if none_sorted_to(classify, rest, i) {
        assert forall|j: int| !#[trigger] sorted_to(classify, assets, j, i) by {
            if j > 0 {
                assert(!sorted_to(classify, rest, j - 1, i));
            }
        }
    }
    if at_most_one_sorted_to(classify, rest, i) {
        assert forall|j: int, k: int|
            #[trigger] sorted_to(classify, assets, j, i) && #[trigger] sorted_to(classify, assets, k, i)
                implies j == k by {
            assert(sorted_to(classify, rest, j - 1, i));
            assert(sorted_to(classify, rest, k - 1, i));
        }
    }
}

proof fn lemma_shift_head(classify: spec_fn(Seq<u8>) -> Option<nat>, assets: Seq<Asset>, c: nat)
    requires
        assets.len() > 0,
        classify(name_bytes(assets[0])) == Some(c),
    ensures
        !none_sorted_to(classify, assets, c),
        at_most_one_sorted_to(classify, assets, c) == none_sorted_to(
            classify,
            assets.drop_first(),
            c,
        ),
        none_sorted_to(classify, assets.drop_first(), c) ==> only_sorted_to(classify, assets, 0, c),
{
    let rest = assets.drop_first();
    assert(sorted_to(classify, assets, 0, c));
    assert forall|j: int| #[trigger]
        sorted_to(classify, rest, j, c) == (0 <= j && sorted_to(classify, assets, j + 1, c)) by {
        lemma_sorted_to_shift(classify, assets, j, c);
    }
    if none_sorted_to(classify, rest, c) {
        assert forall|j: int, k: int|
            #[trigger] sorted_to(classify, assets, j, c) && #[trigger] sorted_to(classify, assets, k, c)
                implies j == k by {
            if j > 0 {
                assert(!sorted_to(classify, rest, j - 1, c));
            }
            if k > 0 {
                assert(!sorted_to(classify, rest, k - 1, c));
            }
        }
    } else {
        let j = choose|j: int| #[trigger] sorted_to(classify, rest, j, c);
        assert(sorted_to(classify, assets, j + 1, c));
    }
}

proof fn lemma_collect_exact(
    classify: spec_fn(Seq<u8>) -> Option<nat>,
    names: Seq<&'static str>,
    assets: Seq<Asset>,
    found: Seq<Option<String>>,
)
    requires
        classify_in_range(classify, found.len()),
    ensures
        spec_collect(classify, names, assets, found) is Ok <==> collect_ok_cond(
            classify,
            assets,
            found,
        ),
        spec_collect(classify, names, assets, found) matches Ok(f) ==> f.len() == found.len()
            && forall|i: nat|
            i < found.len() ==> #[trigger] slot_result(
                classify,
                assets,
                found[i as int],
                f[i as int],
                i,
            ),
    decreases assets.len(),
{
    if assets.len() == 0 {
        assert forall|i: nat| i < found.len() implies #[trigger] slot_ok(
            classify,
            assets,
            found[i as int],
            i,
        ) by {}
        assert forall|i: nat| i < found.len() implies #[trigger] slot_result(
            classify,
            assets,
            found[i as int],
            found[i as int],
            i,
        ) by {}
    } else {
        let rest = assets.drop_first();
        let head = classify(name_bytes(assets[0]));
        if head is Some && found[head->Some_0 as int] is Some {
            let c = head->Some_0;
            lemma_shift_head(classify, assets, c);
            assert(c < found.len());
            assert(!slot_ok(classify, assets, found[c as int], c));
            assert(!collect_ok_cond(classify, assets, found));
        } else {
            let found2 = match head {
                None => found,
                Some(c) => found.update(c as int, Some(assets[0].url)),
            };
            lemma_collect_exact(classify, names, rest, found2);
            assert forall|i: nat| i < found.len() implies #[trigger] slot_ok(
                classify,
                assets,
                found[i as int],
                i,
            ) == slot_ok(classify, rest, found2[i as int], i) by {
                if head == Some(i) {
                    lemma_shift_head(classify, assets, i);
                } else {
                    lemma_shift_other(classify, assets, i);
                }
            }
            assert(spec_collect(classify, names, assets, found) == spec_collect(
                classify,
                names,
                rest,
                found2,
            ));
            if collect_ok_cond(classify, rest, found2) {
                assert forall|i: nat| i < found.len() implies #[trigger] slot_ok(
                    classify,
                    assets,
                    found[i as int],
                    i,
                ) by {
                    assert(slot_ok(classify, rest, found2[i as int], i));
                }
            } else {
                let i = choose|i: nat|
                    i < found2.len() && !#[trigger] slot_ok(classify, rest, found2[i as int], i);
                assert(!slot_ok(classify, assets, found[i as int], i));
            }
            if let Ok(f) = spec_collect(classify, names, assets, found) {
                assert forall|i: nat| i < found.len() implies #[trigger] slot_result(
                    classify,
                    assets,
                    found[i as int],
                    f[i as int],
                    i,
                ) by {
                    assert(slot_result(classify, rest, found2[i as int], f[i as int], i));
                    assert(slot_ok(classify, rest, found2[i as int], i));
                    if head == Some(i) {
                        lemma_shift_head(classify, assets, i);
                    } else {
                        lemma_shift_other(classify, assets, i);
                        if found[i as int] is None && !(none_sorted_to(classify, rest, i)
                            && f[i as int] is None) {
                            let j = choose|j: int|
                                only_sorted_to(classify, rest, j, i) && f[i as int] == Some(
                                    rest[j].url,
                                );
                            assert(only_sorted_to(classify, assets, j + 1, i));
                        }
                    }
                }
            }
        }
    }
}

/// Extracting succeeds exactly when each needed asset is matched by exactly
/// one asset of the release, and then gives, for each needed asset, the url
/// of the asset that matches it.
pub proof fn lemma_extract_exact(
    classify: spec_fn(Seq<u8>) -> Option<nat>,
    count: nat,
    names: Seq<&'static str>,
    assets: Seq<Asset>,
)
    requires
        classify_in_range(classify, count),
    ensures
        spec_extract(classify, count, names, assets) is Ok <==> forall|i: nat|
            i < count ==> #[trigger] has_unique_match(classify, assets, i),
        spec_extract(classify, count, names, assets) matches Ok(urls) ==> urls.len() == count
            && forall|i: nat, j: int|
            i < count && only_sorted_to(classify, assets, j, i) ==> urls[i as int]
                == assets[j].url,
{
    let start = Seq::new(count, |i: int| None::<String>);
    lemma_collect_exact(classify, names, assets, start);
    assert forall|i: nat| i < count implies start[i as int] is None by {}
    if spec_extract(classify, count, names, assets) is Ok {
        let f = spec_collect(classify, names, assets, start)->Ok_0;
        lemma_first_missing_none(f, 0);
        assert forall|i: nat| i < count implies #[trigger] has_unique_match(classify, assets, i) by {
            assert(f[i as int] is Some);
            assert(slot_result(classify, assets, start[i as int], f[i as int], i));
        }
        let urls = f.map_values(|o: Option<String>| o.unwrap());
        assert forall|i: nat, j: int| i < count && only_sorted_to(classify, assets, j, i) implies urls[i as int]
            == assets[j].url by {
            assert(f[i as int] is Some);
            assert(slot_result(classify, assets, start[i as int], f[i as int], i));
            let j2 = choose|j2: int|
                only_sorted_to(classify, assets, j2, i) && f[i as int] == Some(assets[j2].url);
            assert(j2 == j);
        }
    }
    if forall|i: nat| i < count ==> #[trigger] has_unique_match(classify, assets, i) {
        assert forall|i: nat| i < count implies #[trigger] slot_ok(
            classify,
            assets,
            start[i as int],
            i,
        ) by {
            assert(has_unique_match(classify, assets, i));
            let j = choose|j: int| only_sorted_to(classify, assets, j, i);
        }
        let f = spec_collect(classify, names, assets, start)->Ok_0;
        assert forall|i: int| 0 <= i < f.len() implies f[i] is Some by {
            let k: nat = i as nat;
            assert(has_unique_match(classify, assets, k));
            let j = choose|j: int| only_sorted_to(classify, assets, j, k);
            assert(sorted_to(classify, assets, j, k));
            assert(slot_result(classify, assets, start[i], f[i], k));
        }
        lemma_first_missing_all_some(f, 0);
    }
}

/// `perm` holds the assets of `assets` in another order: `p` takes each
/// position of `perm` to the position of the same asset in `assets`, and `q`
/// is its inverse.
pub open spec fn reorders(
    perm: Seq<Asset>,
    assets: Seq<Asset>,
    p: spec_fn(int) -> int,
    q: spec_fn(int) -> int,
) -> bool {
    &&& perm.len() == assets.len()
    &&& forall|j: int|
        0 <= j < perm.len() ==> 0 <= #[trigger] p(j) < assets.len() && q(p(j)) == j && perm[j]
            == assets[p(j)]
    &&& forall|k: int| 0 <= k < assets.len() ==> 0 <= #[trigger] q(k) < perm.len() && p(q(k)) == k
}

proof fn lemma_unique_match_reordered(
    classify: spec_fn(Seq<u8>) -> Option<nat>,
    perm: Seq<Asset>,
    assets: Seq<Asset>,
    p: spec_fn(int) -> int,
    q: spec_fn(int) -> int,
    i: nat,
)
    requires
        reorders(perm, assets, p, q),
    ensures
        has_unique_match(classify, perm, i) <==> has_unique_match(classify, assets, i),
        forall|j: int|
            only_sorted_to(classify, perm, j, i) ==> #[trigger] only_sorted_to(
                classify,
                assets,
                p(j),
                i,
            ),
{
    assert forall|j: int| sorted_to(classify, perm, j, i) implies #[trigger] sorted_to(
        classify,
        assets,
        p(j),
        i,
    ) by {}
    assert forall|k: int| sorted_to(classify, assets, k, i) implies #[trigger] sorted_to(
        classify,
        perm,
        q(k),
        i,
    ) by {
        assert(perm[q(k)] == assets[p(q(k))]);
    }
    if at_most_one_sorted_to(classify, perm, i) {
        assert forall|a: int, b: int|
            #[trigger] sorted_to(classify, assets, a, i) && #[trigger] sorted_to(
                classify,
                assets,
                b,
                i,
            ) implies a == b by {
            assert(sorted_to(classify, perm, q(a), i));
            assert(sorted_to(classify, perm, q(b), i));
        }
    }
    if at_most_one_sorted_to(classify, assets, i) {
        assert forall|a: int, b: int|
            #[trigger] sorted_to(classify, perm, a, i) && #[trigger] sorted_to(classify, perm, b, i)
                implies a == b by {
            assert(sorted_to(classify, assets, p(a), i));
            assert(sorted_to(classify, assets, p(b), i));
        }
    }
    if has_unique_match(classify, perm, i) {
        let j = choose|j: int| only_sorted_to(classify, perm, j, i);
        assert(only_sorted_to(classify, assets, p(j), i));
    }
    if has_unique_match(classify, assets, i) {
        let k = choose|k: int| only_sorted_to(classify, assets, k, i);
        assert(only_sorted_to(classify, perm, q(k), i));
    }
}

/// The order of a release's assets does not matter: extracting from the
/// same assets in any other order succeeds exactly when it succeeds from
/// them in the first order, and then gives the same urls.
pub proof fn lemma_extract_order_independent(
    classify: spec_fn(Seq<u8>) -> Option<nat>,
    count: nat,
    names: Seq<&'static str>,
    assets: Seq<Asset>,
    perm: Seq<Asset>,
    p: spec_fn(int) -> int,
    q: spec_fn(int) -> int,
)
    requires
        classify_in_range(classify, count),
        reorders(perm, assets, p, q),
    ensures
        spec_extract(classify, count, names, perm) is Ok <==> spec_extract(
            classify,
            count,
            names,
            assets,
        ) is Ok,
        spec_extract(classify, count, names, perm) is Ok ==> spec_extract(
            classify,
            count,
            names,
            perm,
        ) == spec_extract(classify, count, names, assets),
{
    lemma_extract_exact(classify, count, names, assets);
    lemma_extract_exact(classify, count, names, perm);
    assert forall|i: nat| i < count implies (#[trigger] has_unique_match(classify, perm, i)
        <==> has_unique_match(classify, assets, i)) by {
        lemma_unique_match_reordered(classify, perm, assets, p, q, i);
    }
    if spec_extract(classify, count, names, perm) is Ok {
        let u = spec_extract(classify, count, names, perm)->Ok_0;
        assert forall|i: nat| i < count implies #[trigger] has_unique_match(classify, assets, i) by {
            assert(has_unique_match(classify, perm, i));
        }
        let w = spec_extract(classify, count, names, assets)->Ok_0;
        assert(u.len() == count && w.len() == count);
        assert forall|k: int| 0 <= k < u.len() implies u[k] == w[k] by {
            let i: nat = k as nat;
            assert(has_unique_match(classify, perm, i));
            lemma_unique_match_reordered(classify, perm, assets, p, q, i);
            let j = choose|j: int| only_sorted_to(classify, perm, j, i);
            assert(only_sorted_to(classify, assets, p(j), i));
            assert(perm[j] == assets[p(j)]);
            assert(u[i as int] == perm[j].url);
            assert(w[i as int] == assets[p(j)].url);
        }
        assert(u =~= w);
    }
}

proof fn lemma_first_missing_none(found: Seq<Option<String>>, from: int)
    requires
        0 <= from,
        first_missing(found, from) is None,
    ensures
        forall|i: int| from <= i < found.len() ==> found[i] is Some,
    decreases found.len() - from,
{
    if from < found.len() {
        lemma_first_missing_none(found, from + 1);
    }
}

proof fn lemma_first_missing_all_some(found: Seq<Option<String>>, from: int)
    requires
        0 <= from,
        forall|i: int| from <= i < found.len() ==> found[i] is Some,
    ensures
        first_missing(found, from) is None,
    decreases found.len() - from,
{
    if from < found.len() {
        lemma_first_missing_all_some(found, from + 1);
    }
}

/// Finds the download urls of the assets a package needs, in the order of
/// `names`. Fails on the first asset of a kind already found, or else on the
/// first needed asset that no asset is.
pub fn extract_assets<E: AssetExtractor>(
    assets: Vec<Asset>,
    names: &[&'static str],
    extractor: E,
) -> (res: Result<Vec<String>, Error>)
    requires
        names@.len() == extractor.spec_count(),
    ensures
        match spec_extract(
            |n: Seq<u8>| extractor.spec_classify(n),
            extractor.spec_count(),
            names@,
            assets@,
        ) {
            Ok(urls) => res matches Ok(v) && v@ == urls,
            Err(err) => res matches Err(e2) && e2 == err,
        },
{
    let n = extractor.count();
    let mut found: Vec<Option<String>> = Vec::new();
    let mut j: usize = 0;
    while j < n
        invariant
            0 <= j <= n,
            found@.len() == j,
            forall|k: int| 0 <= k < j ==> found@[k] is None,
        decreases n - j,
    {
        found.push(None);
        j = j + 1;
    }
    let ghost start = found@;
    assert(start =~= Seq::new(extractor.spec_count(), |i: int| None::<String>));
    let mut k: usize = 0;
    assert(assets@.skip(0) =~= assets@);
    while k < assets.len()
        invariant
            start == Seq::new(extractor.spec_count(), |i: int| None::<String>),
            0 <= k <= assets@.len(),
            found@.len() == n,
            n == extractor.spec_count(),
            names@.len() == n,
            spec_collect(|n: Seq<u8>| extractor.spec_classify(n), names@, assets@, start) == spec_collect(
                |n: Seq<u8>| extractor.spec_classify(n),
                names@,
                assets@.skip(k as int),
                found@,
            ),
        decreases assets@.len() - k,
    {
        let ghost tail = assets@.skip(k as int);
        assert(tail[0] == assets@[k as int]);
        assert(tail.drop_first() =~= assets@.skip(k + 1));
        let asset = &assets[k];
        match extractor.classify(asset.name.as_str()) {
            None => {},
            Some(i) => {
                if found[i].is_some() {
                    return Err(Error::AssetDuplicate(names[i]));
                }
                let url = asset.url.clone();
                found.set(i, Some(url));
            },
        }
        k = k + 1;
    }
    assert(assets@.skip(k as int) =~= Seq::<Asset>::empty());
    let mut urls: Vec<String> = Vec::new();
    let mut i: usize = 0;
    while i < n
        invariant
            start == Seq::new(extractor.spec_count(), |i: int| None::<String>),
            0 <= i <= n,
            found@.len() == n,
            names@.len() == n,
            spec_collect(|n: Seq<u8>| extractor.spec_classify(n), names@, assets@, start) == Ok::<Seq<Option<String>>, Error>(found@),
            first_missing(found@, 0) == first_missing(found@, i as int),
            urls@.len() == i,
            forall|m: int| 0 <= m < i ==> found@[m] == Some(#[trigger] urls@[m]),
        decreases n - i,
    {
        match &found[i] {
            None => {
                return Err(Error::AssetMissing(names[i]));
            },
            Some(u) => {
                urls.push(u.clone());
            },
        }
        i = i + 1;
    }
    assert(urls@ =~= found@.map_values(|o: Option<String>| o.unwrap()));
    Ok(urls)
}

} // verus!
