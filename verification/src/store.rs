//! An in-memory key/value store with versioned compare-and-swap writes.
//!
//! This mirrors the contract of the host-provided shared store the limiter is
//! deployed against: `get` returns the stored bytes (if any) together with a
//! version token, and `set_cas` writes only when the caller's expected
//! version still matches, so racing writers cannot lose updates. An absent
//! key reads as version `0`.

use vstd::prelude::*;

verus! {

/// One stored binding: a key, its value, and its write version.
pub struct Entry {
    pub key: Vec<u8>,
    pub value: Vec<u8>,
    pub version: u64,
}

/// First entry in `s` whose key is `key`.
pub open spec fn find_entry(s: Seq<Entry>, key: Seq<u8>) -> Option<Entry>
    decreases s.len(),
{
    if s.len() == 0 {
        None
    } else if s[0].key@ == key {
        Some(s[0])
    } else {
        find_entry(s.skip(1), key)
    }
}

/// The version that follows `v`: counting wraps only after `u64::MAX`
/// writes to one key, which no deployment reaches.
pub open spec fn next_version(v: u64) -> u64 {
    if v == u64::MAX {
        0
    } else {
        (v + 1) as u64
    }
}

/// An in-memory store offering versioned reads and compare-and-swap writes.
pub struct MemStore {
    entries: Vec<Entry>,
}

impl MemStore {
    /// The bytes stored under `key`, if any.
    pub closed spec fn stored_value(self, key: Seq<u8>) -> Option<Seq<u8>> {
        match find_entry(self.entries@, key) {
            Some(e) => Some(e.value@),
            None => None,
        }
    }

    /// The version token of `key`: `0` for an absent key.
    pub closed spec fn stored_version(self, key: Seq<u8>) -> u64 {
        match find_entry(self.entries@, key) {
            Some(e) => e.version,
            None => 0,
        }
    }

    /// An empty store: every key absent, every version `0`.
    pub fn new() -> (s: MemStore)
        ensures
            forall|k: Seq<u8>| s.stored_value(k) is None,
            forall|k: Seq<u8>| s.stored_version(k) == 0,
    {
        MemStore { entries: Vec::new() }
    }

    /// Reads `key`: the stored bytes (cloned) and the version token.
    pub fn get(&self, key: &[u8]) -> (r: (Option<Vec<u8>>, u64))
        ensures
            match r.0 {
                Some(v) => self.stored_value(key@) == Some(v@),
                None => self.stored_value(key@) is None,
            },
            r.1 == self.stored_version(key@),
    {
        let n = self.entries.len();
        let mut i: usize = 0;
        while i < n
            invariant
                0 <= i <= n == self.entries@.len(),
                forall|j: int| 0 <= j < i ==> self.entries@[j].key@ != key@,
            decreases n - i,
        {
            proof {
                lemma_find_entry_skip(self.entries@, key@, i as int);
            }
            if bytes_eq(self.entries[i].key.as_slice(), key) {
                let value = copy_bytes(self.entries[i].value.as_slice());
                let version = self.entries[i].version;
                proof {
                    assert(self.entries@.skip(i as int)[0] == self.entries@[i as int]);
                }
                return (Some(value), version);
            }
            i = i + 1;
        }
        proof {
            lemma_find_entry_skip(self.entries@, key@, i as int);
            assert(self.entries@.skip(i as int) =~= Seq::<Entry>::empty());
        }
        (None, 0)
    }

    /// Conditionally writes `value` under `key`: succeeds exactly when the
    /// key's current version equals `expected`, bumping the version; a losing
    /// write leaves the store untouched. Keys other than `key` are never
    /// affected.
    pub fn set_cas(&mut self, key: &[u8], value: &[u8], expected: u64) -> (ok: bool)
        ensures
            ok <==> old(self).stored_version(key@) == expected,
            !ok ==> *final(self) == *old(self),
            ok ==> final(self).stored_value(key@) == Some(value@),
            ok ==> final(self).stored_version(key@) == next_version(expected),
            forall|k: Seq<u8>| k != key@ ==> final(self).stored_value(k) == old(self).stored_value(k),
            forall|k: Seq<u8>| k != key@ ==> final(self).stored_version(k) == old(self).stored_version(k),
    {
        let n = self.entries.len();
        let mut i: usize = 0;
        while i < n
            invariant
                *self == *old(self),
                0 <= i <= n == self.entries@.len(),
                forall|j: int| 0 <= j < i ==> self.entries@[j].key@ != key@,
            decreases n - i,
        {
            proof {
                lemma_find_entry_skip(self.entries@, key@, i as int);
            }
            if bytes_eq(self.entries[i].key.as_slice(), key) {
                proof {
                    assert(self.entries@.skip(i as int)[0] == self.entries@[i as int]);
                }
                if self.entries[i].version != expected {
                    return false;
                }
                let nv: u64 = if expected == u64::MAX {
                    0
                } else {
                    expected + 1
                };
                let e2 = Entry { key: copy_bytes(key), value: copy_bytes(value), version: nv };
                proof {
                    lemma_find_entry_update(self.entries@, i as int, e2);
                }
                self.entries[i] = e2;
                return true;
            }
            i = i + 1;
        }
        proof {
            lemma_find_entry_skip(self.entries@, key@, i as int);
            assert(self.entries@.skip(i as int) =~= Seq::<Entry>::empty());
        }
        if expected != 0 {
            return false;
        }
        let e2 = Entry { key: copy_bytes(key), value: copy_bytes(value), version: 1 };
        proof {
            lemma_find_entry_push(self.entries@, e2);
        }
        self.entries.push(e2);
        true
    }
}

/// When no entry before `i` matches, the first match lies in the tail.
proof fn lemma_find_entry_skip(s: Seq<Entry>, key: Seq<u8>, i: int)
    requires
        0 <= i <= s.len(),
        forall|j: int| 0 <= j < i ==> s[j].key@ != key,
    ensures
        find_entry(s, key) == find_entry(s.skip(i), key),
    decreases i,
{
    if i > 0 {
        assert(s[0].key@ != key);
        let t = s.skip(1);
        assert forall|j: int| 0 <= j < i - 1 implies t[j].key@ != key by {
            assert(t[j] == s[j + 1]);
        }
        lemma_find_entry_skip(t, key, i - 1);
        assert(t.skip(i - 1) =~= s.skip(i));
    } else {
        assert(s.skip(0) =~= s);
    }
}

/// Replacing the first entry for a key rebinds that key and no other.
proof fn lemma_find_entry_update(s: Seq<Entry>, i: int, e2: Entry)
    requires
        0 <= i < s.len(),
        e2.key@ == s[i].key@,
        forall|j: int| 0 <= j < i ==> s[j].key@ != s[i].key@,
    ensures
        find_entry(s.update(i, e2), s[i].key@) == Some(e2),
        forall|k: Seq<u8>| k != s[i].key@ ==> find_entry(s.update(i, e2), k) == find_entry(s, k),
    decreases i,
{
    let key = s[i].key@;
    let s2 = s.update(i, e2);
    if i == 0 {
        assert(s2[0] == e2);
        assert(s2.skip(1) =~= s.skip(1));
        assert forall|k: Seq<u8>| k != key implies find_entry(s2, k) == find_entry(s, k) by {
            assert(s2[0].key@ == s[0].key@);
        }
    } else {
        let t = s.skip(1);
        assert forall|j: int| 0 <= j < i - 1 implies (#[trigger] t[j]).key@ != t[i - 1].key@ by {
            assert(t[j] == s[j + 1]);
            assert(t[i - 1] == s[i]);
        }
        assert(t[i - 1] == s[i]);
        lemma_find_entry_update(t, i - 1, e2);
        assert(s2.skip(1) =~= t.update(i - 1, e2));
        assert(s2[0] == s[0]);
        assert(s[0].key@ != key);
        assert forall|k: Seq<u8>| k != key implies find_entry(s2, k) == find_entry(s, k) by {
            if s[0].key@ != k {
                assert(find_entry(s2, k) == find_entry(s2.skip(1), k));
                assert(find_entry(s, k) == find_entry(t, k));
            }
        }
    }
}

/// Appending an entry for an absent key binds that key and no other.
proof fn lemma_find_entry_push(s: Seq<Entry>, e2: Entry)
    requires
        find_entry(s, e2.key@) is None,
    ensures
        find_entry(s.push(e2), e2.key@) == Some(e2),
        forall|k: Seq<u8>| k != e2.key@ ==> find_entry(s.push(e2), k) == find_entry(s, k),
    decreases s.len(),
{
    let s2 = s.push(e2);
    if s.len() == 0 {
        assert(s2[0] == e2);
        assert(s2.skip(1) =~= Seq::<Entry>::empty());
        assert forall|k: Seq<u8>| k != e2.key@ implies find_entry(s2, k) == find_entry(s, k) by {
            assert(s2[0].key@ == e2.key@);
            assert(find_entry(s2.skip(1), k) is None);
        }
    } else {
        assert(s2[0] == s[0]);
        assert(s[0].key@ != e2.key@);
        lemma_find_entry_push(s.skip(1), e2);
        assert(s2.skip(1) =~= s.skip(1).push(e2));
        assert forall|k: Seq<u8>| k != e2.key@ implies find_entry(s2, k) == find_entry(s, k) by {
            if s[0].key@ != k {
                assert(find_entry(s2, k) == find_entry(s2.skip(1), k));
                assert(find_entry(s, k) == find_entry(s.skip(1), k));
            }
        }
    }
}

/// Whether two byte strings are equal.
fn bytes_eq(a: &[u8], b: &[u8]) -> (r: bool)
    ensures
        r == (a@ == b@),
{
    if a.len() != b.len() {
        return false;
    }
    let mut i: usize = 0;
    while i < a.len()
        invariant
            0 <= i <= a@.len() == b@.len(),
            forall|j: int| 0 <= j < i ==> a@[j] == b@[j],
        decreases a@.len() - i,
    {
        if a[i] != b[i] {
            return false;
        }
        i = i + 1;
    }
    proof {
        assert(a@ =~= b@);
    }
    true
}

/// A fresh copy of a byte string.
fn copy_bytes(src: &[u8]) -> (v: Vec<u8>)
    ensures
        v@ == src@,
{
    let mut v: Vec<u8> = Vec::new();
    let mut i: usize = 0;
    while i < src.len()
        invariant
            0 <= i <= src@.len(),
            v@ == src@.take(i as int),
        decreases src@.len() - i,
    {
        v.push(src[i]);
        i = i + 1;
        proof {
            assert(v@ =~= src@.take(i as int));
        }
    }
    proof {
        assert(src@.take(i as int) =~= src@);
    }
    v
}

} // verus!
