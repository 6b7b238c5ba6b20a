//! The codecs configuration and its hash.

use vstd::prelude::*;

use crate::error::{ErrorView, RzError};
use crate::model::{lemma_listing, listing};
use crate::names::{law_listing_is_sorted_and_complete, lemma_prefix_set, lists, Duplicate, NameList};
use crate::order::before;
use crate::text::{decimal, decimal_text};

verus! {

/// The most rate features that a configuration may have.
pub const MAX_RATE_FEATURES: usize = 24;

/// The number of bytes from which on their number of bits needs more than 64
/// bits.
pub const DIGEST_LIMIT: u64 = 0x2000_0000_0000_0000;

/// The rate features of the platform and the hash by which components tell
/// whether they agree on them.
#[derive(Debug, PartialEq, Eq)]
pub struct Codecs {
    pub rate_features: Vec<String>,
    pub hash: u64,
}

/// What a codecs configuration holds.
#[verifier::ext_equal]
pub struct CodecsView {
    pub rate_features: Seq<Seq<char>>,
    pub hash: u64,
}

impl View for Codecs {
    type V = CodecsView;

    open spec fn view(&self) -> CodecsView {
        CodecsView { rate_features: self.rate_features.deep_view(), hash: self.hash }
    }
}

impl Default for Codecs {
    /// No features, and the hash zero.
    fn default() -> (r: Self)
        ensures
            r@ == (CodecsView { rate_features: Seq::empty(), hash: 0 }),
    {
        let rate_features: Vec<String> = Vec::new();
        assert(rate_features.deep_view() =~= Seq::<Seq<char>>::empty());
        Codecs { rate_features, hash: 0 }
    }
}

impl Clone for Codecs {
    fn clone(&self) -> (r: Self)
        ensures
            r@ == self@,
    {
        Codecs { rate_features: self.rate_features.duplicate(), hash: self.hash }
    }
}

// ----------------------------------------------------------------------------
// What the configuration rests on
// ----------------------------------------------------------------------------

/// The lowercase form of a text, as `str::to_lowercase` gives it.
pub uninterp spec fn lowercase(text: Seq<char>) -> Seq<char>;

/// The SHA-256 digest of some bytes, as the crate `sha2` computes it.
pub uninterp spec fn sha256(data: Seq<u8>) -> Seq<u8>;

/// `str::to_lowercase` of std: the result depends on the text alone. Which
/// characters it maps to which is not stated.
#[verifier::external_body]
fn to_lowercase(text: &str) -> (r: String)
    ensures
        r@ == lowercase(text@),
{
    text.to_lowercase()
}

/// `sha2::Sha256::digest`: the result depends on the bytes alone and is 32
/// bytes long. The digest algorithm counts the bits of its input in 64 bits,
/// so the input stays below that many.
#[verifier::external_body]
fn digest(data: &Vec<u8>) -> (r: Vec<u8>)
    requires
        data@.len() < DIGEST_LIMIT,
    ensures
        r@ == sha256(data@),
        r@.len() == 32,
{
    <sha2::Sha256 as sha2::Digest>::digest(data.as_slice()).to_vec()
}

// ----------------------------------------------------------------------------
// Validation
// ----------------------------------------------------------------------------

/// The feature at `i` repeats one before it but for the case of its letters.
pub open spec fn repeats(lowered: Seq<Seq<char>>, i: int) -> bool {
    exists|j: int| 0 <= j < i && #[trigger] lowered[j] == lowered[i]
}

/// What is wrong with the rate features `features`, if anything; `lowered`
/// holds their lowercase forms. The first repetition is reported in its own
/// spelling.
pub open spec fn features_fault(features: Seq<Seq<char>>, lowered: Seq<Seq<char>>) -> Option<ErrorView> {
    if features.len() == 0 || features.len() > MAX_RATE_FEATURES {
        Some(ErrorView::Config("Rate features must have 1 to 24 items, got "@ + decimal(features.len())))
    } else if exists|i: int| 0 <= i < features.len() && #[trigger] repeats(lowered, i) {
        Some(ErrorView::Config("Duplicate rate_feature: "@ + features[first_repetition(lowered)]))
    } else {
        None
    }
}

/// The place of the first feature that repeats one before it.
pub open spec fn first_repetition(lowered: Seq<Seq<char>>) -> int {
    choose|i: int|
        0 <= i < lowered.len() && #[trigger] repeats(lowered, i) && forall|k: int|
            0 <= k < i ==> !#[trigger] repeats(lowered, k)
}

/// Checks the rate features, given with their lowercase forms; gives the set
/// of these.
pub fn check_features(features: &Vec<String>, lowered: &Vec<String>) -> (r: Result<NameList, RzError>)
    requires
        features@.len() == lowered@.len(),
    ensures
        match features_fault(features.deep_view(), lowered.deep_view()) {
            Some(fault) => r is Err && r->Err_0@ == fault,
            None => r is Ok && lists(r->Ok_0@, lowered.deep_view().to_set()),
        },
        r is Ok <==> 1 <= features@.len() <= 24 && forall|i: int, j: int|
            0 <= i < j < lowered@.len() ==> #[trigger] lowered.deep_view()[i] != #[trigger] lowered.deep_view()[j],
        r matches Ok(names) ==> {
            &&& forall|n: Seq<char>| #[trigger] names@.contains(n) <==> lowered.deep_view().contains(n)
            &&& forall|i: int, j: int| 0 <= i < j < names@.len() ==> before(#[trigger] names@[i], #[trigger] names@[j])
        },
        features@.len() == 0 || features@.len() > 24 ==> (r matches Err(RzError::Config(text)) && text@
            == "Rate features must have 1 to 24 items, got "@ + decimal(features@.len())),
        1 <= features@.len() <= 24 && r is Err ==> exists|k: int|
            #![trigger features@[k]]
            {
                &&& 0 <= k < features@.len()
                &&& lowered.deep_view().take(k).contains(lowered.deep_view()[k])
                &&& lowered.deep_view().take(k).no_duplicates()
                &&& r matches Err(RzError::Config(text)) && text@ == "Duplicate rate_feature: "@ + features@[k]@
            },
{
    let n: usize = features.len();
    if n == 0 || n > MAX_RATE_FEATURES {
        return Err(
            RzError::Config(
                "Rate features must have 1 to 24 items, got ".to_owned().concat(decimal_text(n as u64).as_str()),
            ),
        );
    }
    let ghost q = lowered.deep_view();
    let mut unique = NameList::new();
    assert(q.take(0).to_set() =~= Set::<Seq<char>>::empty());
    for i in 0..n
        invariant
            n == q.len(),
            n == features@.len(),
            n == lowered@.len(),
            0 < n <= MAX_RATE_FEATURES,
            q == lowered.deep_view(),
            lists(unique@, q.take(i as int).to_set()),
            forall|k: int| 0 <= k < i ==> !#[trigger] repeats(q, k),
    {
        let ghost before = unique@;
        let fresh = unique.insert(lowered[i].clone());
        proof {
            lemma_prefix_set(q, i as int);
            assert(before.contains(q[i as int]) <==> repeats(q, i as int)) by {
                assert(before.to_set().contains(q[i as int]) <==> q.take(i as int).contains(q[i as int]));
                if before.contains(q[i as int]) {
                    let j = choose|j: int| 0 <= j < q.take(i as int).len() && q.take(i as int)[j] == q[i as int];
                    assert(q[j] == q[i as int]);
                }
                if repeats(q, i as int) {
                    let j = choose|j: int| 0 <= j < i && #[trigger] q[j] == q[i as int];
                    assert(q.take(i as int)[j] == q[i as int]);
                }
            }
        }
        if !fresh {
            proof {
                assert(q.take(i as int).contains(q[i as int])) by {
                    let j = choose|j: int| 0 <= j < i && #[trigger] q[j] == q[i as int];
                    assert(q.take(i as int)[j] == q[i as int]);
                }
                assert(q.take(i as int).no_duplicates()) by {
                    assert forall|a: int, b: int| 0 <= a < i && 0 <= b < i && a != b implies q[a] != q[b] by {
                        if q[a] == q[b] {
                            let later = if a < b {
                                b
                            } else {
                                a
                            };
                            assert(!repeats(q, later));
                        }
                    }
                }
                let earlier = choose|j: int| 0 <= j < i && #[trigger] q[j] == q[i as int];
                assert(q[earlier] == q[i as int]);
                assert(features@[i as int]@ == features.deep_view()[i as int]);
                let first = first_repetition(q);
                assert(repeats(q, i as int));
                assert(0 <= first < q.len() && repeats(q, first) && forall|k: int|
                    0 <= k < first ==> !#[trigger] repeats(q, k));
                assert(first == i);
                assert(features.deep_view()[i as int] == features@[i as int]@);
            }
            return Err(RzError::Config("Duplicate rate_feature: ".to_owned().concat(features[i].as_str())));
        }
    }
    assert(q.take(n as int) =~= q);
    proof {
        law_listing_is_sorted_and_complete(unique@, q.to_set());
        assert forall|i: int, j: int| 0 <= i < j < q.len() implies #[trigger] q[i] != #[trigger] q[j] by {
            assert(!repeats(q, j));
        }
        assert forall|name: Seq<char>| #[trigger] unique@.contains(name) <==> q.contains(name) by {
            assert(q.to_set().contains(name) == q.contains(name));
        }
    }
    Ok(unique)
}

// ----------------------------------------------------------------------------
// Hash
// ----------------------------------------------------------------------------

/// The UTF-8 bytes of the names, one after the other.
pub open spec fn bytes_of(names: Seq<Seq<char>>) -> Seq<u8>
    decreases names.len(),
{
    if names.len() == 0 {
        Seq::empty()
    } else {
        bytes_of(names.drop_last()) + vstd::utf8::encode_utf8(names.last())
    }
}

/// The bytes of a single name are its UTF-8 encoding, and no name has none.
pub proof fn law_bytes_of_one_name(name: Seq<char>)
    ensures
        bytes_of(seq![name]) == vstd::utf8::encode_utf8(name),
        bytes_of(Seq::empty()) == Seq::<u8>::empty(),
{
    let names = seq![name];
    assert(names.drop_last() =~= Seq::<Seq<char>>::empty());
    assert(bytes_of(names.drop_last()) =~= Seq::<u8>::empty());
    assert(bytes_of(names) =~= vstd::utf8::encode_utf8(name));
}

/// The bytes of two lists together are those of the first and then those of
/// the second: every name counts, wherever it stands.
pub proof fn law_bytes_of_both_lists(a: Seq<Seq<char>>, b: Seq<Seq<char>>)
    ensures
        bytes_of(a + b) == bytes_of(a) + bytes_of(b),
    decreases b.len(),
{
    if b.len() == 0 {
        assert(a + b =~= a);
        assert(bytes_of(a) + bytes_of(b) =~= bytes_of(a));
    } else {
        assert((a + b).drop_last() =~= a + b.drop_last());
        law_bytes_of_both_lists(a, b.drop_last());
        assert(bytes_of(a + b) =~= bytes_of(a) + bytes_of(b));
    }
}

/// The number that bytes make with the least significant first.
pub open spec fn little_endian(bytes: Seq<u8>) -> nat
    decreases bytes.len(),
{
    if bytes.len() == 0 {
        0
    } else {
        bytes[0] as nat + 256 * little_endian(bytes.drop_first())
    }
}

/// The bytes that the hash is taken of: those of the features in lowercase, in
/// ascending order.
pub open spec fn hashed_bytes(lowered: Seq<Seq<char>>) -> Seq<u8> {
    bytes_of(listing(lowered.to_set()))
}

/// The hash of a feature list whose lowercase forms are `lowered`.
pub open spec fn features_hash(lowered: Seq<Seq<char>>) -> nat {
    little_endian(sha256(hashed_bytes(lowered)).take(8))
}

/// Puts the bytes of the names one after the other.
pub fn join_bytes(names: &NameList) -> (r: Vec<u8>)
    ensures
        r@ == bytes_of(names@),
{
    let mut bytes: Vec<u8> = Vec::new();
    let n: usize = names.len();
    for i in 0..n
        invariant
            n == names@.len(),
            bytes@ == bytes_of(names@.take(i as int)),
    {
        assert(names@.take(i + 1).drop_last() =~= names@.take(i as int));
        bytes.extend_from_slice(names.at(i).as_str().as_bytes());
        assert(bytes@ =~= bytes_of(names@.take(i + 1)));
    }
    assert(names@.take(n as int) =~= names@);
    bytes
}

/// The number that the first eight bytes make with the least significant
/// first.
pub fn leading_u64(bytes: &Vec<u8>) -> (r: u64)
    requires
        bytes@.len() >= 8,
    ensures
        r == little_endian(bytes@.take(8)),
        r == bytes@[0] + 0x100 * bytes@[1] + 0x1_0000 * bytes@[2] + 0x100_0000 * bytes@[3] + 0x1_0000_0000 * bytes@[4]
            + 0x100_0000_0000 * bytes@[5] + 0x1_0000_0000_0000 * bytes@[6] + 0x100_0000_0000_0000 * bytes@[7],
{
    let ghost b = bytes@.take(8);
    let b7: u64 = bytes[7] as u64;
    let b6: u64 = 256 * b7 + bytes[6] as u64;
    let b5: u64 = 256 * b6 + bytes[5] as u64;
    let b4: u64 = 256 * b5 + bytes[4] as u64;
    let b3: u64 = 256 * b4 + bytes[3] as u64;
    let b2: u64 = 256 * b3 + bytes[2] as u64;
    let b1: u64 = 256 * b2 + bytes[1] as u64;
    let b0: u64 = 256 * b1 + bytes[0] as u64;
    proof {
        assert(b.skip(8) =~= Seq::<u8>::empty());
        assert(b.skip(7).drop_first() =~= b.skip(8));
        assert(b.skip(6).drop_first() =~= b.skip(7));
        assert(b.skip(5).drop_first() =~= b.skip(6));
        assert(b.skip(4).drop_first() =~= b.skip(5));
        assert(b.skip(3).drop_first() =~= b.skip(4));
        assert(b.skip(2).drop_first() =~= b.skip(3));
        assert(b.skip(1).drop_first() =~= b.skip(2));
        assert(b.drop_first() =~= b.skip(1));
        assert(little_endian(b.skip(8)) == 0);
        assert(little_endian(b.skip(7)) == b7);
        assert(little_endian(b.skip(6)) == b6);
        assert(little_endian(b.skip(5)) == b5);
        assert(little_endian(b.skip(4)) == b4);
        assert(little_endian(b.skip(3)) == b3);
        assert(little_endian(b.skip(2)) == b2);
        assert(little_endian(b.skip(1)) == b1);
    }
    b0
}

// ----------------------------------------------------------------------------
// Loading
// ----------------------------------------------------------------------------

/// The lowercase forms of the texts.
pub open spec fn lowered(texts: Seq<Seq<char>>) -> Seq<Seq<char>> {
    texts.map_values(|text: Seq<char>| lowercase(text))
}

/// The lowercase forms of the texts.
fn lower_all(texts: &Vec<String>) -> (r: Vec<String>)
    ensures
        r@.len() == texts@.len(),
        r.deep_view() == lowered(texts.deep_view()),
{
    let mut r: Vec<String> = Vec::new();
    for i in 0..texts.len()
        invariant
            r@.len() == i,
            forall|k: int| 0 <= k < i ==> (#[trigger] r@[k])@ == lowercase(texts@[k]@),
    {
        r.push(to_lowercase(texts[i].as_str()));
    }
    assert(r.deep_view() =~= lowered(texts.deep_view()));
    r
}

/// The features can be hashed.
pub open spec fn hashable(lowered: Seq<Seq<char>>) -> bool {
    hashed_bytes(lowered).len() < DIGEST_LIMIT
}

/// What is made of the rate features `features`, whose lowercase forms are
/// `lowered`.
pub open spec fn loaded(r: Result<Codecs, RzError>, features: Seq<Seq<char>>, lowered: Seq<Seq<char>>) -> bool {
    match features_fault(features, lowered) {
        Some(fault) => r is Err && r->Err_0@ == fault,
        None => {
            &&& r is Ok
            &&& r->Ok_0@.rate_features == features
            &&& r->Ok_0@.hash == features_hash(lowered)
        },
    }
}

/// A sorted list with the names of another is the listing of these.
proof fn lemma_is_the_listing(q: Seq<Seq<char>>, names: Seq<Seq<char>>)
    requires
        forall|i: int, j: int| 0 <= i < j < q.len() ==> before(#[trigger] q[i], #[trigger] q[j]),
        forall|n: Seq<char>| #[trigger] q.contains(n) <==> names.contains(n),
    ensures
        q == listing(names.to_set()),
{
    assert forall|n: Seq<char>| #[trigger] q.contains(n) <==> names.to_set().contains(n) by {}
    law_listing_is_sorted_and_complete(q, names.to_set());
    lemma_listing(q, names.to_set());
}

/// The lower-case forms of some names differ exactly if no two of the names
/// have the same one.
proof fn lemma_lowered_differ(texts: Seq<Seq<char>>)
    ensures
        (forall|i: int, j: int|
            0 <= i < j < lowered(texts).len() ==> #[trigger] lowered(texts)[i] != #[trigger] lowered(texts)[j])
            <==> (forall|i: int, j: int|
            0 <= i < j < texts.len() ==> lowercase(#[trigger] texts[i]) != lowercase(#[trigger] texts[j])),
{
    let q = lowered(texts);
    assert(forall|i: int| 0 <= i < texts.len() ==> #[trigger] q[i] == lowercase(texts[i]));
    assert(forall|i: int| 0 <= i < texts.len() ==> lowercase(#[trigger] texts[i]) == q[i]);
}

/// Checks the rate features of a codecs file and computes their hash.
pub fn load_codecs_yaml(rate_features: Vec<String>) -> (r: Result<Codecs, RzError>)
    requires
        features_fault(rate_features.deep_view(), lowered(rate_features.deep_view())) is None ==> hashable(
            lowered(rate_features.deep_view()),
        ),
    ensures
        loaded(r, rate_features.deep_view(), lowered(rate_features.deep_view())),
        r is Ok <==> 1 <= rate_features@.len() <= 24 && forall|i: int, j: int|
            0 <= i < j < rate_features@.len() ==> lowercase(#[trigger] rate_features.deep_view()[i]) != lowercase(
                #[trigger] rate_features.deep_view()[j],
            ),
        r matches Ok(codecs) ==> codecs.rate_features.deep_view() == rate_features.deep_view(),
        r matches Ok(codecs) ==> forall|q: Seq<Seq<char>>|
            (forall|i: int, j: int| 0 <= i < j < q.len() ==> before(#[trigger] q[i], #[trigger] q[j])) && (forall|
                n: Seq<char>,
            | #[trigger] q.contains(n) <==> lowered(rate_features.deep_view()).contains(n)) ==> codecs.hash
                == little_endian(sha256(#[trigger] bytes_of(q)).take(8)),
        lowered(rate_features.deep_view()).len() == rate_features@.len(),
        forall|i: int|
            0 <= i < rate_features@.len() ==> #[trigger] lowered(rate_features.deep_view())[i] == lowercase(
                rate_features@[i]@,
            ),
        rate_features@.len() == 0 || rate_features@.len() > 24 ==> (r matches Err(RzError::Config(text)) && text@
            == "Rate features must have 1 to 24 items, got "@ + decimal(rate_features@.len())),
        1 <= rate_features@.len() <= 24 && r is Err ==> exists|k: int|
            #![trigger rate_features@[k]]
            {
                &&& 0 <= k < rate_features@.len()
                &&& lowered(rate_features.deep_view()).take(k).contains(lowercase(rate_features@[k]@))
                &&& lowered(rate_features.deep_view()).take(k).no_duplicates()
                &&& r matches Err(RzError::Config(text)) && text@ == "Duplicate rate_feature: "@ + rate_features@[k]@
            },
{
    let lower = lower_all(&rate_features);
    proof {
        lemma_lowered_differ(rate_features.deep_view());
    }
    match check_features(&rate_features, &lower) {
        Ok(names) => {
            proof {
                lemma_listing(names@, lower.deep_view().to_set());
            }
            let hash: u64 = leading_u64(&digest(&join_bytes(&names)));
            proof {
                assert forall|q: Seq<Seq<char>>|
                    (forall|i: int, j: int| 0 <= i < j < q.len() ==> before(#[trigger] q[i], #[trigger] q[j])) && (forall|
                        n: Seq<char>,
                    | #[trigger] q.contains(n) <==> lowered(rate_features.deep_view()).contains(n)) implies hash
                    == little_endian(sha256(#[trigger] bytes_of(q)).take(8)) by {
                    lemma_is_the_listing(q, lower.deep_view());
                }
            }
            Ok(Codecs { rate_features, hash })
        },
        Err(error) => Err(error),
    }
}

/// As [`load_codecs_yaml`], for features of any size; `None` where they are
/// too large to be hashed.
pub fn try_load_codecs(rate_features: Vec<String>) -> (r: Option<Result<Codecs, RzError>>)
    ensures
        r is None <==> features_fault(rate_features.deep_view(), lowered(rate_features.deep_view())) is None
            && !hashable(lowered(rate_features.deep_view())),
        r is Some ==> loaded(r->0, rate_features.deep_view(), lowered(rate_features.deep_view())),
        r is None ==> 1 <= rate_features@.len() <= 24,
        (r is None || r->0 is Ok) <==> 1 <= rate_features@.len() <= 24 && forall|i: int, j: int|
            0 <= i < j < rate_features@.len() ==> lowercase(#[trigger] rate_features.deep_view()[i]) != lowercase(
                #[trigger] rate_features.deep_view()[j],
            ),
        forall|q: Seq<Seq<char>>|
            (forall|i: int, j: int| 0 <= i < j < q.len() ==> before(#[trigger] q[i], #[trigger] q[j])) && (forall|
                n: Seq<char>,
            | #[trigger] q.contains(n) <==> lowered(rate_features.deep_view()).contains(n)) ==> {
                &&& r is None ==> (#[trigger] bytes_of(q)).len() >= 0x2000_0000_0000_0000
                &&& r is Some && r->0 is Ok ==> {
                    &&& bytes_of(q).len() < 0x2000_0000_0000_0000
                    &&& r->0->Ok_0.hash == little_endian(sha256(bytes_of(q)).take(8))
                    &&& r->0->Ok_0.rate_features.deep_view() == rate_features.deep_view()
                }
            },
{
    let lower = lower_all(&rate_features);
    proof {
        lemma_lowered_differ(rate_features.deep_view());
    }
    match check_features(&rate_features, &lower) {
        Ok(names) => {
            proof {
                lemma_listing(names@, lower.deep_view().to_set());
            }
            proof {
                assert forall|q: Seq<Seq<char>>|
                    (forall|i: int, j: int| 0 <= i < j < q.len() ==> before(#[trigger] q[i], #[trigger] q[j])) && (forall|
                        n: Seq<char>,
                    | #[trigger] q.contains(n) <==> lowered(rate_features.deep_view()).contains(n)) implies #[trigger] bytes_of(
                    q,
                ) == bytes_of(names@) by {
                    lemma_is_the_listing(q, lower.deep_view());
                }
            }
            if join_bytes(&names).len() as u64 >= DIGEST_LIMIT {
                return None;
            }
            Some(load_codecs_yaml(rate_features))
        },
        Err(error) => Some(Err(error)),
    }
}

} // verus!
