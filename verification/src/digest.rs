//! Digests of keys and of text, computed by the default hasher of std.

use std::collections::hash_map::DefaultHasher;
use std::hash::{Hash, Hasher};
use vstd::prelude::*;
use vstd::std_specs::hash::DefaultHasherAdditionalSpecFns;

verus! {

/// What hashing a text writes to a hasher.
pub uninterp spec fn text_writes(text: Seq<char>) -> Seq<Seq<u8>>;

/// Calls `Hash::hash` of `String`, which feeds the text into the hasher. What it writes
/// comes after all that was written before, and depends on the text alone.
#[verifier::external_body]
fn feed_text(text: &String, state: &mut DefaultHasher)
    ensures
        final(state)@ == old(state)@ + text_writes(text@),
{
    text.hash(state)
}

/// Calls `Hash::hash` of the key, which feeds the key into the hasher, and hands the hasher
/// on. What a key writes is up to the code of its own type, so nothing is claimed of it.
#[verifier::external_body]
pub(crate) fn feed_key<K: Hash>(key: &K, state: DefaultHasher) -> (fed: DefaultHasher) {
    let mut state = state;
    key.hash(&mut state);
    state
}

/// `digest` is an outcome of hashing `key`: a new hasher gives it after a call of `hash` of
/// that key has fed it.
pub closed spec fn digests_to<K: Hash>(key: &K, digest: u64) -> bool {
    exists|fresh: DefaultHasher, fed: DefaultHasher|
        fresh@ == Seq::<Seq<u8>>::empty() && #[trigger] call_ensures(
            feed_key::<K>,
            (key, fresh),
            fed,
        ) && digest == DefaultHasher::spec_finish(fed@)
}

/// Hashing `key` has one outcome only, as it has for every key type whose `hash` is a
/// function of the key.
pub open spec fn digests_consistently<K: Hash>(key: &K) -> bool {
    forall|a: u64, b: u64| #[trigger] digests_to(key, a) && #[trigger] digests_to(key, b) ==> a == b
}

/// The digest of a text.
pub open spec fn text_digest(text: Seq<char>) -> u64 {
    DefaultHasher::spec_finish(text_writes(text))
}

/// Hashes a key.
pub fn digest_of_key<K: Hash>(key: &K) -> (digest: u64)
    ensures
        digests_to(key, digest),
{
    let state = DefaultHasher::new();
    let fed = feed_key(key, state);
    fed.finish()
}

/// Hashes a text.
pub fn digest_of_text(text: &String) -> (digest: u64)
    ensures
        digest == text_digest(text@),
{
    let mut state = DefaultHasher::new();
    feed_text(text, &mut state);
    assert(state@ =~= text_writes(text@));
    state.finish()
}

/// The digest of a text is what a hasher gives that got the writes of that text, all of them
/// and nothing else.
pub proof fn law_text_digest(text: Seq<char>)
    ensures
        text_digest(text) == DefaultHasher::spec_finish(text_writes(text)),
{
}

/// The outcomes of hashing a key are what hashers give that were new and got the key fed once.
pub(crate) proof fn law_key_digest<K: Hash>(key: &K, digest: u64)
    ensures
        digests_to(key, digest) <==> exists|fresh: DefaultHasher, fed: DefaultHasher|
            fresh@.len() == 0 && #[trigger] call_ensures(feed_key::<K>, (key, fresh), fed)
                && DefaultHasher::spec_finish(fed@) == digest,
{
    if exists|fresh: DefaultHasher, fed: DefaultHasher|
        fresh@.len() == 0 && #[trigger] call_ensures(feed_key::<K>, (key, fresh), fed)
            && DefaultHasher::spec_finish(fed@) == digest {
        let (fresh, fed) = choose|fresh: DefaultHasher, fed: DefaultHasher|
            fresh@.len() == 0 && #[trigger] call_ensures(feed_key::<K>, (key, fresh), fed)
                && DefaultHasher::spec_finish(fed@) == digest;
        assert(fresh@ =~= Seq::<Seq<u8>>::empty());
    }
}

/// Hashing is consistent where it has one outcome only.
pub proof fn law_consistent<K: Hash>(key: &K)
    ensures
        digests_consistently(key) <==> forall|a: u64, b: u64| #[trigger]
            digests_to(key, a) && #[trigger] digests_to(key, b) ==> a == b,
{
}

} // verus!
