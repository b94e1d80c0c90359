//! Key management: a current key per scope and historical keys by id.

use vstd::prelude::*;
use crate::crypto::random_key32;
use crate::strutil::{str_eq, str_to_chars};
use vstd::string::StringExecFns;
use vstd::utf8::encode_utf8;

verus! {

/// Rotation policy thresholds; consulted by rotation checks.
#[derive(Debug)]
pub struct RotationPolicy {
    pub max_uses: Option<u64>,
    pub rotate_after_seconds: Option<u64>,
}

/// A key id together with its 32 bytes of key material.
#[derive(Debug)]
pub struct KeyHandle {
    pub key_id: String,
    pub key_bytes: Vec<u8>,
}

/// The repo scope a key is requested for.
pub struct KeyScope {
    pub repo_id: String,
}

/// First-match lookup of a key id in the registered list.
pub open spec fn lookup_key(keys: Seq<(Seq<char>, Seq<u8>)>, id: Seq<char>) -> Option<Seq<u8>>
    decreases keys.len(),
{
    if keys.len() == 0 {
        None
    } else if keys[0].0 == id {
        Some(keys[0].1)
    } else {
        lookup_key(keys.drop_first(), id)
    }
}

/// Local trust root handing out the active key and prior keys by id.
pub trait KeyManager: Sized {
    /// The registered keys, in registration order.
    spec fn keys_model(&self) -> Seq<(Seq<char>, Seq<u8>)>;

    /// The id of the active key.
    spec fn current_id(&self) -> Seq<char>;

    /// Every registered key has 32 bytes and the active id is registered.
    spec fn km_wf(&self) -> bool;

    /// The active key for a repo scope.
    fn current(&self, scope: &KeyScope) -> (r: Result<KeyHandle, String>)
        ensures
            self.km_wf() ==> (r matches Ok(h) && h.key_id@ == self.current_id() && lookup_key(
                self.keys_model(),
                h.key_id@,
            ) == Some(h.key_bytes@) && h.key_bytes@.len() == 32 && encode_utf8(
                h.key_id@,
            ).len() < 0x10000),
    ;

    /// A key by id, as long as it is still registered.
    fn get(&self, key_id: &str) -> (r: Result<KeyHandle, String>)
        ensures
            (self.km_wf() && lookup_key(self.keys_model(), key_id@) is Some) ==> (r matches Ok(h)
                && h.key_id@ == key_id@ && lookup_key(self.keys_model(), key_id@) == Some(
                h.key_bytes@,
            ) && h.key_bytes@.len() == 32),
            r matches Ok(h) ==> h.key_id@ == key_id@ && lookup_key(self.keys_model(), key_id@)
                == Some(h.key_bytes@),
    ;
}

/// In-memory key manager: a map from key id to 32-byte secret and the
/// current id; rotation registers a new id and makes it current.
pub struct InMemoryKeyManager {
    pub current_id: String,
    pub keys: Vec<(String, Vec<u8>)>,
}

impl InMemoryKeyManager {
    pub open spec fn model(&self) -> Seq<(Seq<char>, Seq<u8>)> {
        self.keys@.map_values(|p: (String, Vec<u8>)| (p.0@, p.1@))
    }

    pub open spec fn wf(&self) -> bool {
        &&& lookup_key(self.model(), self.current_id@) is Some
        &&& encode_utf8(self.current_id@).len() < 0x10000
        &&& forall|k: int|
            0 <= k < self.model().len() ==> (#[trigger] self.model()[k]).1.len() == 32
        &&& forall|a: int, b: int|
            0 <= a < b < self.model().len() ==> (#[trigger] self.model()[a]).0 != (
            #[trigger] self.model()[b]).0
    }

    /// Seed with one known key, made current.
    pub fn new_with_secret(current_id: String, key: Vec<u8>) -> (r: InMemoryKeyManager)
        requires
            key@.len() == 32,
            encode_utf8(current_id@).len() < 0x10000,
        ensures
            r.wf(),
            r.current_id@ == current_id@,
            r.model() == seq![(current_id@, key@)],
            lookup_key(r.model(), current_id@) == Some(key@),
    {
        let ghost id_view = current_id@;
        let ghost key_view = key@;
        let mut keys: Vec<(String, Vec<u8>)> = Vec::new();
        keys.push((current_id.clone(), key));
        let r = InMemoryKeyManager { current_id, keys };
        proof {
            assert(r.model() =~= seq![(id_view, key_view)]);
        }
        r
    }

    /// Seed with one random key, made current.
    pub fn new(current_id: String) -> (r: InMemoryKeyManager)
        requires
            encode_utf8(current_id@).len() < 0x10000,
        ensures
            r.wf(),
            r.current_id@ == current_id@,
    {
        let key = random_key32();
        Self::new_with_secret(current_id, key)
    }

    /// Seed with one random key, made current.
    pub fn new_random(current_id: String) -> (r: InMemoryKeyManager)
        requires
            encode_utf8(current_id@).len() < 0x10000,
        ensures
            r.wf(),
            r.current_id@ == current_id@,
    {
        Self::new(current_id)
    }

    /// Rotation on demand is not scheduled here; the policy is recorded for
    /// callers that rotate explicitly through `set_current`.
    pub fn rotate_if_needed(&self, scope: &KeyScope, policy: &RotationPolicy) -> (r: Result<
        Option<KeyHandle>,
        String,
    >)
        ensures
            r matches Ok(h) && h is None,
    {
        let _ = scope;
        let _ = policy;
        Ok(None)
    }

    /// Register a key under an id and make that id current; a key already
    /// registered under the id is replaced.
    pub fn set_current(&mut self, id: String, key: Vec<u8>)
        requires
            key@.len() == 32,
            encode_utf8(id@).len() < 0x10000,
            old(self).wf(),
        ensures
            final(self).wf(),
            final(self).current_id@ == id@,
            lookup_key(final(self).model(), id@) == Some(key@),
            forall|other: Seq<char>|
                other != id@ ==> #[trigger] lookup_key(final(self).model(), other) == lookup_key(
                    old(self).model(),
                    other,
                ),
    {
        let ghost id_view = id@;
        let ghost key_view = key@;
        match self.find_index(id.as_str()) {
            Some(i) => {
                let ghost pre = self.model();
                let _ = self.keys.remove(i);
                proof {
                    assert(self.model() =~= pre.remove(i as int));
                    lemma_lookup_key_remove(pre, i as int, id_view);
                }
            },
            None => {},
        }
        let ghost mid = self.model();
        let ghost pre = old(self).model();
        proof {
            assert(lookup_key(mid, id_view) is None);
            assert forall|a: int, b: int|
                0 <= a < b < mid.len() implies (#[trigger] mid[a]).0 != (#[trigger] mid[b]).0 by {}
            assert forall|k: int| 0 <= k < mid.len() implies (#[trigger] mid[k]).1.len() == 32 by {
                if mid =~= pre {
                } else {
                    let j = choose|j: int| 0 <= j < pre.len() && mid[k] == pre[j];
                    assert(pre[j].1.len() == 32);
                }
            }
        }
        self.keys.push((id.clone(), key));
        self.current_id = id;
        proof {
            assert(self.model() =~= mid.push((id_view, key_view)));
            lemma_lookup_key_push(mid, id_view, key_view);
            let post = self.model();
            assert forall|k: int| 0 <= k < mid.len() implies (#[trigger] mid[k]).0 != id_view by {
                lemma_lookup_some_when_present(mid, k);
            }
            assert forall|a: int, b: int|
                0 <= a < b < post.len() implies (#[trigger] post[a]).0 != (
            #[trigger] post[b]).0 by {
                if b < mid.len() {
                    assert(post[a] == mid[a] && post[b] == mid[b]);
                } else {
                    assert(post[b] == (id_view, key_view));
                    assert(post[a] == mid[a]);
                }
            }
            assert forall|k: int| 0 <= k < post.len() implies (#[trigger] post[k]).1.len()
                == 32 by {
                if k < mid.len() {
                    assert(post[k] == mid[k]);
                }
            }
        }
    }

    /// Index of a registered key id, when present.
    fn find_index(&self, id: &str) -> (r: Option<usize>)
        ensures
            match r {
                Some(i) => i < self.keys@.len() && self.model()[i as int].0 == id@,
                None => lookup_key(self.model(), id@) is None,
            },
    {
        let ghost km = self.model();
        proof {
            assert(km.skip(0) =~= km);
        }
        let mut i: usize = 0;
        while i < self.keys.len()
            invariant
                0 <= i <= self.keys@.len(),
                km == self.model(),
                km.len() == self.keys@.len(),
                lookup_key(km, id@) == lookup_key(km.skip(i as int), id@),
            decreases self.keys@.len() - i,
        {
            proof {
                assert(km.skip(i as int)[0] == km[i as int]);
                assert(km.skip(i as int).drop_first() =~= km.skip(i + 1));
                assert(km[i as int] == (self.keys@[i as int].0@, self.keys@[i as int].1@));
            }
            if str_eq(self.keys[i].0.as_str(), id) {
                return Some(i);
            }
            i = i + 1;
        }
        proof {
            assert(km.skip(km.len() as int) =~= Seq::<(Seq<char>, Seq<u8>)>::empty());
        }
        None
    }

    /// Rotate to a new id with a fresh random key.
    pub fn set_current_id(&mut self, id: String)
        requires
            encode_utf8(id@).len() < 0x10000,
            old(self).wf(),
        ensures
            final(self).wf(),
            final(self).current_id@ == id@,
            forall|other: Seq<char>|
                other != id@ ==> #[trigger] lookup_key(final(self).model(), other) == lookup_key(
                    old(self).model(),
                    other,
                ),
    {
        let key = random_key32();
        self.set_current(id, key);
    }

    /// Scan for a key id.
    fn find_key(&self, id: &str) -> (r: Option<Vec<u8>>)
        ensures
            match r {
                Some(v) => lookup_key(self.model(), id@) == Some(v@),
                None => lookup_key(self.model(), id@) is None,
            },
    {
        let ghost km = self.model();
        proof {
            assert(km.skip(0) =~= km);
        }
        let mut i: usize = 0;
        while i < self.keys.len()
            invariant
                0 <= i <= self.keys@.len(),
                km == self.model(),
                km.len() == self.keys@.len(),
                lookup_key(km, id@) == lookup_key(km.skip(i as int), id@),
            decreases self.keys@.len() - i,
        {
            proof {
                assert(km.skip(i as int)[0] == km[i as int]);
                assert(km.skip(i as int).drop_first() =~= km.skip(i + 1));
                assert(km[i as int] == (self.keys@[i as int].0@, self.keys@[i as int].1@));
            }
            if str_eq(self.keys[i].0.as_str(), id) {
                let bytes = crate::strutil::bytes_subrange(
                    &self.keys[i].1,
                    0,
                    self.keys[i].1.len(),
                );
                proof {
                    assert(bytes@ =~= self.keys@[i as int].1@);
                }
                return Some(bytes);
            }
            i = i + 1;
        }
        proof {
            assert(km.skip(km.len() as int) =~= Seq::<(Seq<char>, Seq<u8>)>::empty());
        }
        None
    }
}

impl KeyManager for InMemoryKeyManager {
    open spec fn keys_model(&self) -> Seq<(Seq<char>, Seq<u8>)> {
        self.model()
    }

    open spec fn current_id(&self) -> Seq<char> {
        self.current_id@
    }

    open spec fn km_wf(&self) -> bool {
        self.wf()
    }

    fn current(&self, scope: &KeyScope) -> (r: Result<KeyHandle, String>)
        ensures
            self.km_wf() ==> (r matches Ok(h) && h.key_id@ == self.current_id() && lookup_key(
                self.keys_model(),
                h.key_id@,
            ) == Some(h.key_bytes@) && h.key_bytes@.len() == 32 && encode_utf8(
                h.key_id@,
            ).len() < 0x10000),
    {
        let _ = scope;
        match self.find_key(self.current_id.as_str()) {
            Some(bytes) => {
                proof {
                    if self.wf() {
                        lemma_lookup_len32(self.model(), self.current_id@);
                    }
                }
                Ok(KeyHandle { key_id: self.current_id.clone(), key_bytes: bytes })
            },
            None => Err(String::from_str("missing key bytes for current id")),
        }
    }

    fn get(&self, key_id: &str) -> (r: Result<KeyHandle, String>)
        ensures
            (self.km_wf() && lookup_key(self.keys_model(), key_id@) is Some) ==> (r matches Ok(h)
                && h.key_id@ == key_id@ && lookup_key(self.keys_model(), key_id@) == Some(
                h.key_bytes@,
            ) && h.key_bytes@.len() == 32),
            r matches Ok(h) ==> h.key_id@ == key_id@ && lookup_key(self.keys_model(), key_id@)
                == Some(h.key_bytes@),
    {
        match self.find_key(key_id) {
            Some(bytes) => {
                proof {
                    if self.wf() {
                        lemma_lookup_len32(self.model(), key_id@);
                    }
                }
                Ok(KeyHandle { key_id: String::from_str(key_id), key_bytes: bytes })
            },
            None => Err(String::from_str("unknown key id")),
        }
    }
}

/// Removing the one entry of an id leaves every other lookup alone and
/// makes the id unknown; the remaining entries are originals.
proof fn lemma_lookup_key_remove(keys: Seq<(Seq<char>, Seq<u8>)>, i: int, id: Seq<char>)
    requires
        0 <= i < keys.len(),
        keys[i].0 == id,
        forall|a: int, b: int|
            0 <= a < b < keys.len() ==> (#[trigger] keys[a]).0 != (#[trigger] keys[b]).0,
    ensures
        lookup_key(keys.remove(i), id) is None,
        forall|other: Seq<char>|
            other != id ==> #[trigger] lookup_key(keys.remove(i), other) == lookup_key(
                keys,
                other,
            ),
        forall|a: int, b: int|
            0 <= a < b < keys.remove(i).len() ==> (#[trigger] keys.remove(i)[a]).0 != (
            #[trigger] keys.remove(i)[b]).0,
        forall|k: int|
            0 <= k < keys.remove(i).len() ==> exists|j: int|
                0 <= j < keys.len() && #[trigger] keys.remove(i)[k] == keys[j],
{
    let cut = keys.remove(i);
    assert forall|k: int| 0 <= k < cut.len() implies exists|j: int|
        0 <= j < keys.len() && #[trigger] cut[k] == keys[j] by {
        if k < i {
            assert(cut[k] == keys[k]);
        } else {
            assert(cut[k] == keys[k + 1]);
        }
    }
    assert forall|a: int, b: int|
        0 <= a < b < cut.len() implies (#[trigger] cut[a]).0 != (#[trigger] cut[b]).0 by {
        let ka = if a < i { a } else { a + 1 };
        let kb = if b < i { b } else { b + 1 };
        assert(cut[a] == keys[ka]);
        assert(cut[b] == keys[kb]);
    }
    assert forall|k: int| 0 <= k < cut.len() implies (#[trigger] cut[k]).0 != id by {
        let ka = if k < i { k } else { k + 1 };
        assert(cut[k] == keys[ka]);
        assert(keys[ka].0 != keys[i].0);
    }
    lemma_lookup_none_when_absent(cut, id);
    lemma_lookup_agrees_on_others(keys, i, id);
}

/// A present id is found.
proof fn lemma_lookup_some_when_present(keys: Seq<(Seq<char>, Seq<u8>)>, k: int)
    requires
        0 <= k < keys.len(),
    ensures
        lookup_key(keys, keys[k].0) is Some,
    decreases keys.len(),
{
    if keys[0].0 != keys[k].0 {
        assert(keys.drop_first()[k - 1] == keys[k]);
        lemma_lookup_some_when_present(keys.drop_first(), k - 1);
    }
}

/// An id that labels no entry is not found.
proof fn lemma_lookup_none_when_absent(keys: Seq<(Seq<char>, Seq<u8>)>, id: Seq<char>)
    requires
        forall|k: int| 0 <= k < keys.len() ==> (#[trigger] keys[k]).0 != id,
    ensures
        lookup_key(keys, id) is None,
    decreases keys.len(),
{
    if keys.len() > 0 {
        assert forall|k: int| 0 <= k < keys.drop_first().len() implies (
        #[trigger] keys.drop_first()[k]).0 != id by {
            assert(keys.drop_first()[k] == keys[k + 1]);
        }
        lemma_lookup_none_when_absent(keys.drop_first(), id);
    }
}

/// Removing one unique id does not change other lookups.
proof fn lemma_lookup_agrees_on_others(keys: Seq<(Seq<char>, Seq<u8>)>, i: int, id: Seq<char>)
    requires
        0 <= i < keys.len(),
        keys[i].0 == id,
        forall|a: int, b: int|
            0 <= a < b < keys.len() ==> (#[trigger] keys[a]).0 != (#[trigger] keys[b]).0,
    ensures
        forall|other: Seq<char>|
            other != id ==> #[trigger] lookup_key(keys.remove(i), other) == lookup_key(
                keys,
                other,
            ),
    decreases keys.len(),
{
    let cut = keys.remove(i);
    if i == 0 {
        assert(cut =~= keys.drop_first());
        assert forall|other: Seq<char>| other != id implies #[trigger] lookup_key(cut, other)
            == lookup_key(keys, other) by {
            assert(lookup_key(keys, other) == lookup_key(keys.drop_first(), other));
        }
    } else {
        assert(cut[0] == keys[0]);
        assert(cut.drop_first() =~= keys.drop_first().remove(i - 1));
        assert forall|a: int, b: int|
            0 <= a < b < keys.drop_first().len() implies (
        #[trigger] keys.drop_first()[a]).0 != (#[trigger] keys.drop_first()[b]).0 by {
            assert(keys.drop_first()[a] == keys[a + 1]);
            assert(keys.drop_first()[b] == keys[b + 1]);
        }
        assert(keys.drop_first()[i - 1].0 == id);
        lemma_lookup_agrees_on_others(keys.drop_first(), i - 1, id);
        assert forall|other: Seq<char>| other != id implies #[trigger] lookup_key(cut, other)
            == lookup_key(keys, other) by {
            if keys[0].0 != other {
                assert(lookup_key(cut, other) == lookup_key(cut.drop_first(), other));
                assert(lookup_key(keys, other) == lookup_key(keys.drop_first(), other));
            }
        }
    }
}

/// Pushing a fresh id makes it found and leaves other lookups alone.
proof fn lemma_lookup_key_push(keys: Seq<(Seq<char>, Seq<u8>)>, id: Seq<char>, bytes: Seq<u8>)
    requires
        lookup_key(keys, id) is None,
    ensures
        lookup_key(keys.push((id, bytes)), id) == Some(bytes),
        forall|other: Seq<char>|
            other != id ==> #[trigger] lookup_key(keys.push((id, bytes)), other) == lookup_key(
                keys,
                other,
            ),
    decreases keys.len(),
{
    let pushed = keys.push((id, bytes));
    if keys.len() == 0 {
        assert(pushed[0] == (id, bytes));
        assert(pushed.drop_first() =~= Seq::<(Seq<char>, Seq<u8>)>::empty());
        assert forall|other: Seq<char>| other != id implies #[trigger] lookup_key(pushed, other)
            == lookup_key(keys, other) by {
            assert(lookup_key(pushed, other) == lookup_key(pushed.drop_first(), other));
        }
    } else {
        assert(pushed[0] == keys[0]);
        assert(pushed.drop_first() =~= keys.drop_first().push((id, bytes)));
        assert(keys[0].0 != id);
        lemma_lookup_key_push(keys.drop_first(), id, bytes);
        assert(lookup_key(pushed, id) == lookup_key(pushed.drop_first(), id));
        assert forall|other: Seq<char>| other != id implies #[trigger] lookup_key(pushed, other)
            == lookup_key(keys, other) by {
            if keys[0].0 != other {
                assert(lookup_key(pushed, other) == lookup_key(pushed.drop_first(), other));
                assert(lookup_key(keys, other) == lookup_key(keys.drop_first(), other));
            }
        }
    }
}

/// Looked-up keys of a well-formed manager have 32 bytes.
proof fn lemma_lookup_len32(keys: Seq<(Seq<char>, Seq<u8>)>, id: Seq<char>)
    requires
        forall|k: int| 0 <= k < keys.len() ==> (#[trigger] keys[k]).1.len() == 32,
        lookup_key(keys, id) is Some,
    ensures
        lookup_key(keys, id)->0.len() == 32,
    decreases keys.len(),
{
    if keys.len() > 0 && keys[0].0 != id {
        assert forall|k: int|
            0 <= k < keys.drop_first().len() implies (#[trigger] keys.drop_first()[k]).1.len()
            == 32 by {
            assert(keys.drop_first()[k] == keys[k + 1]);
        }
        lemma_lookup_len32(keys.drop_first(), id);
    }
}

} // verus!
