//! The backend capability: resolve a key to an optional value.
use vstd::prelude::*;

verus! {

/// A read-only key/value store. Looking a key up is its only operation; an
/// absent key is `None`, never an error.
pub trait KvStore {
    /// `value` is what the store holds for `key` (`None`: nothing). A store
    /// that models its contents states them here; one that does not admits
    /// every answer, and what is proved of its lookups says nothing more.
    closed spec fn answers(&self, key: Seq<u8>, value: Option<Seq<u8>>) -> bool {
        true
    }

    fn get(&self, key: &[u8]) -> (r: Option<Vec<u8>>)
        ensures
            self.answers(key@, answer_view(r)),
    ;
}

/// The model of a lookup's outcome.
pub open spec fn answer_view(a: Option<Vec<u8>>) -> Option<Seq<u8>> {
    match a {
        Some(v) => Some(v@),
        None => None,
    }
}

/// Each key of `keys` got the matching answer of `answers` from the store.
pub open spec fn answered_by<KV: KvStore>(
    kvstore: &KV,
    keys: Seq<Seq<u8>>,
    answers: Seq<Option<Seq<u8>>>,
) -> bool {
    &&& answers.len() == keys.len()
    &&& forall|i: int| 0 <= i < keys.len() ==> kvstore.answers(#[trigger] keys[i], answers[i])
}

pub proof fn lemma_answered_concat<KV: KvStore>(
    kvstore: &KV,
    k1: Seq<Seq<u8>>,
    a1: Seq<Option<Seq<u8>>>,
    k2: Seq<Seq<u8>>,
    a2: Seq<Option<Seq<u8>>>,
)
    requires
        answered_by(kvstore, k1, a1),
        answered_by(kvstore, k2, a2),
    ensures
        answered_by(kvstore, k1 + k2, a1 + a2),
{
    assert forall|i: int| 0 <= i < (k1 + k2).len() implies kvstore.answers(
        #[trigger] (k1 + k2)[i],
        (a1 + a2)[i],
    ) by {
        if i < k1.len() {
            assert(kvstore.answers(k1[i], a1[i]));
        } else {
            assert(kvstore.answers(k2[i - k1.len()], a2[i - k1.len()]));
        }
    }
}

} // verus!
