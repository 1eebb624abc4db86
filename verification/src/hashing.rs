//! How keys are hashed and compared.
use std::borrow::Borrow;
use std::hash::{BuildHasher, Hash, Hasher};
use vstd::prelude::*;
use vstd::std_specs::cmp::PartialEqSpec;

verus! {

/// Keys of type `K` are hashed and compared lawfully, with hashers built by `H`: equal keys are
/// identical, and hash alike every time.
pub open spec fn lawful<K, H>() -> bool {
    &&& vstd::std_specs::hash::obeys_key_model::<K>()
    &&& vstd::std_specs::hash::builds_valid_hashers::<H>()
}

/// Whether `query` is a borrowed form of `key`: a map that holds `key` alone contains `query`.
pub open spec fn key_matches<K, Q: ?Sized>(key: K, query: &Q) -> bool {
    vstd::std_specs::hash::contains_borrowed_key::<K, (), Q>(
        Map::<K, ()>::empty().insert(key, ()),
        query,
    )
}

/// Whether `key`, and no other key, has `query` as a borrowed form.
pub open spec fn sole_match<K, Q: ?Sized>(key: K, query: &Q) -> bool {
    &&& key_matches(key, query)
    &&& forall|other: K| #[trigger] key_matches(other, query) ==> other == key
}

/// A key, borrowed as itself, matches no other key.
pub proof fn lemma_key_matches_itself<K>(key: K, query: K)
    ensures
        key_matches::<K, K>(key, &query) <==> key == query,
        sole_match::<K, K>(key, &query) <==> key == query,
{
}

/// Whether two keys are equal, as `==` has it.
pub open spec fn equality<K: Eq>() -> spec_fn(K, K) -> bool {
    |a: K, b: K| a.eq_spec(&b)
}

/// Keys of type `K` are compared by an equivalence, which may be coarser than identity.
pub open spec fn compares_lawfully<K: Eq>() -> bool {
    &&& K::obeys_eq_spec()
    &&& forall|a: K| #[trigger] a.eq_spec(&a)
    &&& forall|a: K, b: K| #[trigger] a.eq_spec(&b) ==> b.eq_spec(&a)
    &&& forall|a: K, b: K, c: K| #[trigger]
        a.eq_spec(&b) && #[trigger] b.eq_spec(&c) ==> a.eq_spec(&c)
}

/// Equal keys hash alike every time.
pub closed spec fn hashes_equals_alike<K: Hash + Eq, H: BuildHasher>(hasher: H) -> bool {
    forall|a: K, b: K, hash_a: u64, hash_b: u64|
        a.eq_spec(&b) && #[trigger] hashes_to(hasher, a, hash_a) && #[trigger] hashes_to(
            hasher,
            b,
            hash_b,
        ) ==> hash_a == hash_b
}

/// What the documentation of `Eq` and of `Hash` asks of a key type: keys are compared by an
/// equivalence, and equal keys hash alike. Equal keys may still be told apart by other means.
pub open spec fn congruent<K: Hash + Eq, H: BuildHasher>(hasher: H) -> bool {
    &&& compares_lawfully::<K>()
    &&& hashes_equals_alike::<K, H>(hasher)
}

/// Builds a hasher.
///
/// Calls [`BuildHasher::build_hasher`]. Nothing is claimed of the result.
#[verifier::external_body]
pub(crate) fn build_hasher<H: BuildHasher>(hasher: &H) -> (state: H::Hasher) {
    hasher.build_hasher()
}

/// Feeds a key to a hasher.
///
/// Calls [`Hash::hash`]. Nothing is claimed of the result.
#[verifier::external_body]
pub(crate) fn feed<K: Hash + ?Sized, S: Hasher>(key: &K, state: S) -> (fed: S) {
    let mut fed = state;
    key.hash(&mut fed);
    fed
}

/// Finishes the hash of a key that is about to be stored.
///
/// Calls [`Hasher::finish`]. Nothing is claimed of the result by itself; what it was can be said with
/// [`hashes_to`], and [`finish_query`] relates later results to it.
#[verifier::external_body]
pub(crate) fn finish_key<S: Hasher>(state: &S) -> (hash: u64) {
    state.finish()
}

/// Whether a hasher that `hasher` builds may be in `state` once it has been fed `key`.
pub(crate) open spec fn feeds_to<K: Hash + ?Sized, H: BuildHasher>(
    hasher: H,
    key: &K,
    state: H::Hasher,
) -> bool {
    exists|built: H::Hasher| #[trigger]
        call_ensures(build_hasher::<H>, (&hasher,), built) && call_ensures(
            feed::<K, H::Hasher>,
            (key, built),
            state,
        )
}

/// Whether hashing `key` may give `hash`.
pub closed spec fn hashes_to<K: Hash, H: BuildHasher>(hasher: H, key: K, hash: u64) -> bool {
    exists|state: H::Hasher| #[trigger]
        feeds_to(hasher, &key, state) && call_ensures(finish_key::<H::Hasher>, (&state,), hash)
}

/// What a hasher finishes with, once it has been built and fed a key, is a hash of that key; and a key
/// has no other hashes.
pub(crate) proof fn law_hash<K: Hash, H: BuildHasher>(hasher: H, key: K, hash: u64)
    ensures
        forall|built: H::Hasher, state: H::Hasher|
            #[trigger] call_ensures(build_hasher::<H>, (&hasher,), built)
                && #[trigger] call_ensures(feed::<K, H::Hasher>, (&key, built), state)
                && call_ensures(finish_key::<H::Hasher>, (&state,), hash) ==> hashes_to(
                hasher,
                key,
                hash,
            ),
        hashes_to(hasher, key, hash) ==> exists|built: H::Hasher, state: H::Hasher|
            #[trigger] call_ensures(build_hasher::<H>, (&hasher,), built)
                && #[trigger] call_ensures(feed::<K, H::Hasher>, (&key, built), state)
                && call_ensures(finish_key::<H::Hasher>, (&state,), hash),
{
    assert forall|built: H::Hasher, state: H::Hasher|
        #[trigger] call_ensures(build_hasher::<H>, (&hasher,), built)
            && #[trigger] call_ensures(feed::<K, H::Hasher>, (&key, built), state)
            && call_ensures(finish_key::<H::Hasher>, (&state,), hash) implies hashes_to(
        hasher,
        key,
        hash,
    ) by {
        assert(feeds_to(hasher, &key, state));
    }
}

/// Finishes the hash of what a key is looked up with.
///
/// Calls [`Hasher::finish`]. The claims are about hashers that were fed a query. First, hashing a key
/// and hashing its borrowed form give the same, which is what the documentation of `Borrow` asks.
/// Second, a lawful key hashes alike every time: whatever hashing a matching key gave, this gives too.
/// That is what the documentation asks of `Hash` and of `BuildHasher`.
#[verifier::external_body]
pub(crate) fn finish_query<K: Hash + Borrow<Q>, Q: Hash + ?Sized, H: BuildHasher>(
    state: &H::Hasher,
) -> (hash: u64)
    ensures
        (forall|hasher: H, query: &Q, key: K|
            #[trigger] feeds_to(hasher, query, *state) && #[trigger] key_matches(key, query)
                ==> hashes_to(hasher, key, hash)),
        (lawful::<K, H>() ==> forall|hasher: H, query: &Q, key: K, other: u64|
            #[trigger] feeds_to(hasher, query, *state) && key_matches(key, query)
                && #[trigger] hashes_to(hasher, key, other) ==> other == hash),
{
    state.finish()
}

/// Lends a key in a borrowed form.
///
/// Calls [`Borrow::borrow`]. Nothing is claimed of the result.
#[verifier::external_body]
pub(crate) fn lend<K: Borrow<Q>, Q: ?Sized>(key: &K) -> (form: &Q) {
    key.borrow()
}

/// Whether `form` may be what `key` is lent as.
pub(crate) open spec fn lends<K: Borrow<Q>, Q: ?Sized>(key: K, form: &Q) -> bool {
    call_ensures(lend::<K, Q>, (&key,), form)
}

/// Compares the borrowed form of a key with what the key is looked up with.
///
/// Calls [`PartialEq::eq`]. The claims are what the documentation of `Borrow` asks: borrowed forms are
/// equal exactly if the keys are. So for a key with a lawful notion of equality, the comparison tells
/// whether the key equals one that has the query as its borrowed form; and for a lawful key it tells
/// whether the key matches the query, which then no other key does.
#[verifier::external_body]
pub(crate) fn compare<K: Borrow<Q> + Eq, Q: Eq + ?Sized>(form: &Q, query: &Q) -> (equal: bool)
    ensures
        (vstd::std_specs::hash::obeys_key_model::<K>() ==> forall|key: K| #[trigger]
            lends(key, form) ==> equal == key_matches(key, query)),
        (vstd::std_specs::hash::obeys_key_model::<K>() && equal ==> forall|key: K| #[trigger]
            lends(key, form) ==> sole_match(key, query)),
        (K::obeys_eq_spec() ==> forall|key: K, other: K| #[trigger]
            lends(key, form) && #[trigger] key_matches(other, query) ==> equal == key.eq_spec(
                &other,
            )),
{
    form == query
}

/// Compares a key with what it is looked up with.
pub(crate) fn matches_query<K: Borrow<Q> + Eq, Q: Eq + ?Sized>(key: &K, query: &Q) -> (equal: bool)
    ensures
        vstd::std_specs::hash::obeys_key_model::<K>() ==> equal == key_matches(*key, query),
        vstd::std_specs::hash::obeys_key_model::<K>() && equal ==> sole_match(*key, query),
        K::obeys_eq_spec() ==> forall|other: K| #[trigger]
            key_matches(other, query) ==> equal == key.eq_spec(&other),
{
    let borrow = lend::<K, Q>;
    let form: &Q = borrow(key);
    assert(lends(*key, form));
    compare::<K, Q>(form, query)
}

/// Whether `key` may hash to the bucket `home` of a table of `len` buckets.
pub closed spec fn is_home<K: Hash, H: BuildHasher>(
    hasher: H,
    key: K,
    len: int,
    home: int,
) -> bool {
    exists|hash: u64| #[trigger] hashes_to(hasher, key, hash) && home == (hash as usize) as int % len
}

/// A key may hash to a bucket exactly if it may have a hash that is the bucket's number and a whole
/// number of turns around the table.
pub proof fn lemma_home_of_hash<K: Hash, H: BuildHasher>(
    hasher: H,
    key: K,
    len: int,
    home: int,
)
    requires
        0 < len,
    ensures
        is_home(hasher, key, len, home) <==> 0 <= home < len && exists|hash: u64, turns: int|
            (hash as usize) == #[trigger] wound(turns, len, home) && #[trigger] hashes_to(
                hasher,
                key,
                hash,
            ),
{
    if is_home(hasher, key, len, home) {
        let hash = choose|hash: u64| #[trigger]
            hashes_to(hasher, key, hash) && home == (hash as usize) as int % len;
        let turns = (hash as usize) as int / len;
        vstd::arithmetic::div_mod::lemma_fundamental_div_mod((hash as usize) as int, len);
        vstd::arithmetic::mul::lemma_mul_is_commutative(turns, len);
        assert((hash as usize) == wound(turns, len, home));
    }
    if 0 <= home < len && exists|hash: u64, turns: int|
        (hash as usize) == #[trigger] wound(turns, len, home) && #[trigger] hashes_to(
            hasher,
            key,
            hash,
        ) {
        let (hash, turns) = choose|hash: u64, turns: int|
            (hash as usize) == #[trigger] wound(turns, len, home) && #[trigger] hashes_to(
                hasher,
                key,
                hash,
            );
        vstd::arithmetic::div_mod::lemma_fundamental_div_mod_converse(
            (hash as usize) as int,
            len,
            turns,
            home,
        );
        assert(hashes_to(hasher, key, hash));
    }
}

/// Keys are congruent where `==` is an equivalence and no two equal keys may have different hashes.
pub proof fn lemma_congruent<K: Hash + Eq, H: BuildHasher>(hasher: H)
    requires
        K::obeys_eq_spec(),
        forall|a: K| #[trigger] a.eq_spec(&a),
        forall|a: K, b: K| #[trigger] a.eq_spec(&b) ==> b.eq_spec(&a),
        forall|a: K, b: K, c: K| #[trigger]
            a.eq_spec(&b) && #[trigger] b.eq_spec(&c) ==> a.eq_spec(&c),
        forall|a: K, b: K, hash_a: u64, hash_b: u64|
            a.eq_spec(&b) && #[trigger] hashes_to(hasher, a, hash_a) && #[trigger] hashes_to(
                hasher,
                b,
                hash_b,
            ) ==> hash_a == hash_b,
    ensures
        congruent::<K, H>(hasher),
{
}

/// So many turns around a ring of `len` places, and `home` places more.
pub open spec fn wound(turns: int, len: int, home: int) -> int {
    turns * len + home
}

/// Whatever two keys hash to, it differs by no whole number of turns around a table of `len` buckets.
pub open spec fn hashes_apart<K: Hash, H: BuildHasher>(hasher: H, a: K, b: K, len: int) -> bool {
    forall|hash_a: u64, hash_b: u64| #[trigger]
        hashes_to(hasher, a, hash_a) && #[trigger] hashes_to(hasher, b, hash_b) ==> (
        hash_a as usize) as int % len != (hash_b as usize) as int % len
}

/// Keys whose hashes differ by no whole number of turns do not hash to one bucket.
pub(crate) proof fn lemma_homes_apart<K: Hash, H: BuildHasher>(
    hasher: H,
    a: K,
    b: K,
    len: int,
    home_a: int,
    home_b: int,
)
    requires
        hashes_apart(hasher, a, b, len),
        is_home(hasher, a, len, home_a),
        is_home(hasher, b, len, home_b),
    ensures
        home_a != home_b,
{
}

/// All keys that match the query hash to one bucket of a table of `len` buckets.
pub open spec fn one_home<K: Hash, Q: ?Sized, H: BuildHasher>(
    hasher: H,
    query: &Q,
    len: int,
    index: int,
) -> bool {
    forall|key: K, home: int|
        key_matches(key, query) && #[trigger] is_home(hasher, key, len, home) ==> home == index
}

/// There is one bucket of a table of `len` buckets that all keys which match the query hash to.
pub(crate) open spec fn has_one_home<K: Hash, Q: ?Sized, H: BuildHasher>(
    hasher: H,
    query: &Q,
    len: int,
) -> bool {
    exists|index: int| #[trigger] one_home::<K, Q, H>(hasher, query, len, index)
}

/// Finds the bucket that a key which is about to be stored hashes to.
pub(crate) fn find_ideal_index<K: Hash, H: BuildHasher>(key: &K, hasher: &H, len: usize) -> (index:
    usize)
    requires
        0 < len,
    ensures
        index < len,
        is_home(*hasher, *key, len as int, index as int),
{
    let build = build_hasher::<H>;
    let hash_into = feed::<K, H::Hasher>;
    let finish = finish_key::<H::Hasher>;
    let built: H::Hasher = build(hasher);
    let state: H::Hasher = hash_into(key, built);
    let hash: u64 = finish(&state);
    assert(feeds_to(*hasher, key, state));
    assert(hashes_to(*hasher, *key, hash));
    (hash as usize) % len
}

/// Finds the bucket that every key which matches the query hashes to.
pub(crate) fn find_query_index<K: Hash + Borrow<Q>, Q: Hash + ?Sized, H: BuildHasher>(
    query: &Q,
    hasher: &H,
    len: usize,
) -> (index: usize)
    requires
        0 < len,
    ensures
        index < len,
        lawful::<K, H>() ==> one_home::<K, Q, H>(*hasher, query, len as int, index as int),
        forall|key: K| #[trigger]
            key_matches(key, query) ==> is_home(*hasher, key, len as int, index as int),
{
    let build = build_hasher::<H>;
    let hash_into = feed::<Q, H::Hasher>;
    let built: H::Hasher = build(hasher);
    let state: H::Hasher = hash_into(query, built);
    assert(feeds_to(*hasher, query, state));
    let hash: u64 = finish_query::<K, Q, H>(&state);
    (hash as usize) % len
}

/// Equal keys hash to one bucket.
pub(crate) proof fn lemma_home_of_equals<K: Hash + Eq, H: BuildHasher>(
    hasher: H,
    a: K,
    b: K,
    len: int,
    home_a: int,
    home_b: int,
)
    requires
        congruent::<K, H>(hasher),
        a.eq_spec(&b),
        is_home(hasher, a, len, home_a),
        is_home(hasher, b, len, home_b),
    ensures
        home_a == home_b,
{
}

/// Where equal keys hash alike, a key hashes to one bucket only.
pub(crate) proof fn lemma_one_home_of_equals<K: Hash + Eq, H: BuildHasher>(
    hasher: H,
    key: K,
    len: int,
    home: int,
)
    requires
        congruent::<K, H>(hasher),
        is_home(hasher, key, len, home),
    ensures
        one_home::<K, K, H>(hasher, &key, len, home),
{
    assert forall|other: K, at: int|
        key_matches::<K, K>(other, &key) && #[trigger] is_home(hasher, other, len, at) implies at
        == home by {
        lemma_key_matches_itself(other, key);
        assert(key.eq_spec(&key));
        lemma_home_of_equals(hasher, key, key, len, at, home);
    }
}

/// A key hashes to one of the buckets of a table.
pub(crate) proof fn lemma_home_in_range<K: Hash, H: BuildHasher>(
    hasher: H,
    key: K,
    len: int,
    home: int,
)
    requires
        0 < len,
        is_home(hasher, key, len, home),
    ensures
        0 <= home < len,
{
}

} // verus!
