//! The unusual database: a key-value store spoken to over UDP.
//!
//! A request that contains `=` inserts: the key is what comes before the
//! first `=`, the value all that follows. Any other request retrieves the
//! value of the whole request, answered as `key=value`. The key `version`
//! holds the server's version and cannot be changed.

use vstd::prelude::*;
use vstd::utf8::*;
use vstd::string::*;

use crate::text::{bytes_eq, lossy_string, str_bytes, utf8_lossy};

verus! {

/// The key that holds the server's version.
pub open spec fn version_key() -> Seq<u8> {
    seq![118u8, 101u8, 114u8, 115u8, 105u8, 111u8, 110u8]
}

/// The value of the version key when the store starts.
pub open spec fn version_value() -> Seq<u8> {
    encode_utf8("Phlegethon V1.0"@)
}

/// The value stored for `k`: the first entry with that key.
pub open spec fn lookup(entries: Seq<(Seq<u8>, Seq<u8>)>, k: Seq<u8>) -> Option<Seq<u8>>
    decreases entries.len(),
{
    if entries.len() == 0 {
        None
    } else if entries[0].0 == k {
        Some(entries[0].1)
    } else {
        lookup(entries.drop_first(), k)
    }
}

/// The store's contents as a map.
pub open spec fn entries_map(entries: Seq<(Seq<u8>, Seq<u8>)>) -> Map<Seq<u8>, Seq<u8>> {
    Map::new(|k: Seq<u8>| lookup(entries, k) is Some, |k: Seq<u8>| lookup(entries, k)->0)
}

/// The position of the first `=`, if any.
pub open spec fn first_equals(d: Seq<u8>) -> Option<int>
    decreases d.len(),
{
    if d.len() == 0 {
        None
    } else if d[0] == 61 {
        Some(0)
    } else {
        match first_equals(d.drop_first()) {
            Some(i) => Some(i + 1),
            None => None,
        }
    }
}

/// The answer to a retrieval: key and value decoded as UTF-8 (invalid
/// sequences replaced), joined by `=`, encoded as UTF-8.
pub open spec fn spec_answer(key: Seq<u8>, value: Seq<u8>) -> Seq<u8> {
    encode_utf8(utf8_lossy(key) + seq!['='] + utf8_lossy(value))
}

/// What a request does: the store's contents afterwards and the answer to
/// send back, if any.
pub open spec fn spec_handle(m: Map<Seq<u8>, Seq<u8>>, d: Seq<u8>) -> (Map<Seq<u8>, Seq<u8>>, Option<Seq<u8>>) {
    match first_equals(d) {
        Some(pos) => if d.take(pos) == version_key() {
            (m, None)
        } else {
            (m.insert(d.take(pos), d.skip(pos + 1)), None)
        },
        None => if m.contains_key(d) {
            (m, Some(spec_answer(d, m[d])))
        } else {
            (m, None)
        },
    }
}

struct Entry {
    key: Vec<u8>,
    value: Vec<u8>,
}

/// The store.
pub struct Store {
    entries: Vec<Entry>,
}

impl View for Store {
    type V = Map<Seq<u8>, Seq<u8>>;

    closed spec fn view(&self) -> Map<Seq<u8>, Seq<u8>> {
        entries_map(self.entries@.map_values(|e: Entry| (e.key@, e.value@)))
    }
}

proof fn lemma_lookup_update(s: Seq<(Seq<u8>, Seq<u8>)>, i: int, k: Seq<u8>, v: Seq<u8>, q: Seq<u8>)
    requires
        0 <= i < s.len(),
        s[i].0 == k,
        forall|j: int| 0 <= j < i ==> s[j].0 != k,
    ensures
        lookup(s.update(i, (k, v)), q) == (if q == k { Some(v) } else { lookup(s, q) }),
    decreases s.len(),
{
    let u = s.update(i, (k, v));
    if i > 0 {
        assert(u.drop_first() =~= s.drop_first().update(i - 1, (k, v)));
        assert(u[0] == s[0]);
        lemma_lookup_update(s.drop_first(), i - 1, k, v, q);
    } else {
        assert(u.drop_first() =~= s.drop_first());
        assert(u[0] == (k, v));
    }
}

proof fn lemma_lookup_push(s: Seq<(Seq<u8>, Seq<u8>)>, k: Seq<u8>, v: Seq<u8>, q: Seq<u8>)
    requires
        forall|j: int| 0 <= j < s.len() ==> s[j].0 != k,
    ensures
        lookup(s.push((k, v)), q) == (if q == k { Some(v) } else { lookup(s, q) }),
    decreases s.len(),
{
    let u = s.push((k, v));
    if s.len() > 0 {
        assert(u.drop_first() =~= s.drop_first().push((k, v)));
        assert(u[0] == s[0]);
        assert(s[0].0 != k);
        assert forall|j: int| 0 <= j < s.drop_first().len() implies s.drop_first()[j].0 != k by {
            assert(s.drop_first()[j] == s[j + 1]);
        }
        lemma_lookup_push(s.drop_first(), k, v, q);
    } else {
        assert(u.drop_first() =~= Seq::<(Seq<u8>, Seq<u8>)>::empty());
        assert(u[0] == (k, v));
        assert(lookup(u.drop_first(), q) == None::<Seq<u8>>);
        assert(lookup(s, q) == None::<Seq<u8>>);
    }
}

impl Store {
    /// A store that holds only the version.
    pub fn new() -> (s: Store)
        ensures
            s@ == Map::<Seq<u8>, Seq<u8>>::empty().insert(version_key(), version_value()),
    {
        let mut s = Store { entries: Vec::new() };
        let key = str_bytes("version");
        let value = str_bytes("Phlegethon V1.0");
        proof {
            reveal_strlit("version");
            vstd::string::is_ascii_spec_bytes("version");
        }
        assert(key@ =~= version_key());
        let ghost (kv, vv) = (key@, value@);
        s.entries.push(Entry { key, value });
        proof {
            let e = s.entries@.map_values(|e: Entry| (e.key@, e.value@));
            assert(e =~= Seq::<(Seq<u8>, Seq<u8>)>::empty().push((kv, vv)));
            assert forall|q: Seq<u8>| true implies lookup(e, q) == (if q == kv { Some(vv) } else { None::<Seq<u8>> }) by {
                lemma_lookup_push(Seq::<(Seq<u8>, Seq<u8>)>::empty(), kv, vv, q);
            }
        }
        assert(s@ =~= Map::<Seq<u8>, Seq<u8>>::empty().insert(version_key(), version_value()));
        s
    }

    /// The value stored for `key`, if any.
    pub fn get(&self, key: &[u8]) -> (r: Option<&Vec<u8>>)
        ensures
            r is Some <==> self@.contains_key(key@),
            r matches Some(v) ==> v@ == self@[key@],
    {
        let ghost s = self.entries@.map_values(|e: Entry| (e.key@, e.value@));
        let mut i: usize = 0;
        assert(s.skip(0) =~= s);
        while i < self.entries.len()
            invariant
                i <= self.entries@.len(),
                s == self.entries@.map_values(|e: Entry| (e.key@, e.value@)),
                lookup(s, key@) == lookup(s.skip(i as int), key@),
            decreases self.entries@.len() - i,
        {
            assert(s.skip(i as int)[0] == (self.entries@[i as int].key@, self.entries@[i as int].value@));
            if bytes_eq(self.entries[i].key.as_slice(), key) {
                return Some(&self.entries[i].value);
            }
            assert(s.skip(i as int).drop_first() =~= s.skip(i + 1));
            i = i + 1;
        }
        None
    }

    /// Store `value` under `key`, replacing any value it had.
    pub fn insert(&mut self, key: Vec<u8>, value: Vec<u8>)
        ensures
            final(self)@ == old(self)@.insert(key@, value@),
    {
        let ghost s = self.entries@.map_values(|e: Entry| (e.key@, e.value@));
        let ghost (k, v) = (key@, value@);
        let mut i: usize = 0;
        while i < self.entries.len()
            invariant
                i <= self.entries@.len(),
                self@ == old(self)@,
                s == self.entries@.map_values(|e: Entry| (e.key@, e.value@)),
                k == key@,
                v == value@,
                forall|j: int| 0 <= j < i ==> s[j].0 != k,
            decreases self.entries@.len() - i,
        {
            if bytes_eq(self.entries[i].key.as_slice(), key.as_slice()) {
                self.entries.set(i, Entry { key, value });
                proof {
                    assert forall|q: Seq<u8>| true implies lookup(self.entries@.map_values(|e: Entry| (e.key@, e.value@)), q)
                        == (if q == k { Some(v) } else { lookup(s, q) }) by {
                        assert(self.entries@.map_values(|e: Entry| (e.key@, e.value@)) =~= s.update(i as int, (k, v)));
                        lemma_lookup_update(s, i as int, k, v, q);
                    }
                }
                assert(self@ =~= old(self)@.insert(k, v));
                return;
            }
            i = i + 1;
        }
        self.entries.push(Entry { key, value });
        proof {
            assert forall|q: Seq<u8>| true implies lookup(self.entries@.map_values(|e: Entry| (e.key@, e.value@)), q)
                == (if q == k { Some(v) } else { lookup(s, q) }) by {
                assert(self.entries@.map_values(|e: Entry| (e.key@, e.value@)) =~= s.push((k, v)));
                lemma_lookup_push(s, k, v, q);
            }
        }
        assert(self@ =~= old(self)@.insert(k, v));
    }

    /// Handle one request (see `spec_handle`); returns the answer to send.
    pub fn handle_request(&mut self, data: &[u8]) -> (r: Option<Vec<u8>>)
        ensures
            (final(self)@, match r {
                Some(a) => Some(a@),
                None => None::<Seq<u8>>,
            }) == spec_handle(old(self)@, data@),
            r matches Some(a) ==> (valid_utf8(data@) && valid_utf8(old(self)@[data@]) ==> a@ == data@ + seq![61u8]
                + old(self)@[data@]),
    {
        let mut pos: usize = 0;
        let ghost d = data@;
        assert(d.skip(0) =~= d);
        assert(first_equals(d) == (match first_equals(d.skip(0)) {
            Some(i) => Some(i + 0),
            None => None::<int>,
        }));
        while pos < data.len()
            invariant_except_break
                pos <= d.len(),
                d == data@,
                first_equals(d) == (match first_equals(d.skip(pos as int)) {
                    Some(i) => Some(i + pos),
                    None => None::<int>,
                }),
            ensures
                pos <= d.len(),
                first_equals(d) == (if pos < d.len() { Some(pos as int) } else { None::<int> }),
            decreases d.len() - pos,
        {
            if data[pos] == 61 {
                assert(d.skip(pos as int)[0] == 61);
                break;
            }
            assert(d.skip(pos as int).drop_first() =~= d.skip(pos + 1));
            pos = pos + 1;
        }
        if pos < data.len() {
            let key = vstd::slice::slice_to_vec(&data[0..pos]);
            assert(key@ =~= d.take(pos as int));
            let is_version = bytes_eq(key.as_slice(), str_bytes("version").as_slice());
            proof {
                reveal_strlit("version");
                vstd::string::is_ascii_spec_bytes("version");
                assert(encode_utf8("version"@) =~= version_key());
            }
            if is_version {
                return None;
            }
            let value = vstd::slice::slice_to_vec(&data[pos + 1..data.len()]);
            assert(value@ =~= d.skip(pos + 1));
            self.insert(key, value);
            None
        } else {
            assert(d.skip(0) =~= d);
            match self.get(data) {
                Some(value) => {
                    let mut s = lossy_string(data);
                    s.append("=");
                    let v = lossy_string(value.as_slice());
                    s.append(v.as_str());
                    proof {
                        reveal_strlit("=");
                    }
                    assert(s@ =~= utf8_lossy(d) + seq!['='] + utf8_lossy(self@[d]));
                    proof {
                        if valid_utf8(d) && valid_utf8(self@[d]) {
                            let (a, b) = (decode_utf8(d), decode_utf8(self@[d]));
                            lemma_encode_concat(a + seq!['='], b);
                            lemma_encode_concat(a, seq!['=']);
                            decode_utf8_encode_utf8(d);
                            decode_utf8_encode_utf8(self@[d]);
                            assert(encode_utf8(seq!['=']) =~= seq![61u8]) by {
                                assert(encode_utf8(seq!['=']) =~= encode_scalar('=' as u32) + encode_utf8(seq!['='].drop_first()));
                                assert(seq!['='].drop_first() =~= Seq::<char>::empty());
                                assert('=' as u32 == 61u32);
                                assert(61u32 & 0x7F == 61u32) by (bit_vector);
                            }
                        }
                    }
                    Some(str_bytes(s.as_str()))
                },
                None => None,
            }
        }
    }
}

/// A request for the version key never changes the store, so the version
/// cannot be changed.
pub proof fn lemma_version_is_kept(m: Map<Seq<u8>, Seq<u8>>, d: Seq<u8>)
    requires
        first_equals(d) matches Some(pos) && d.take(pos) == version_key(),
    ensures
        spec_handle(m, d).0 == m,
{
}

/// The first `=` of `key` followed by `=` is that `=`, when `key` has none.
proof fn lemma_first_equals_after(key: Seq<u8>, rest: Seq<u8>)
    requires
        first_equals(key) is None,
    ensures
        first_equals(key + seq![61u8] + rest) == Some(key.len() as int),
    decreases key.len(),
{
    if key.len() == 0 {
        assert((key + seq![61u8] + rest)[0] == 61);
    } else {
        lemma_first_equals_after(key.drop_first(), rest);
        assert((key + seq![61u8] + rest).drop_first() =~= key.drop_first() + seq![61u8] + rest);
    }
}

/// The store's contents after handling the requests in order.
pub open spec fn kv_run(m: Map<Seq<u8>, Seq<u8>>, reqs: Seq<Seq<u8>>) -> Map<Seq<u8>, Seq<u8>>
    decreases reqs.len(),
{
    if reqs.len() == 0 {
        m
    } else {
        spec_handle(kv_run(m, reqs.drop_last()), reqs.last()).0
    }
}

/// The version cannot be changed: whatever requests come in, the version
/// key keeps its value, and a query for `version` is answered with it.
pub proof fn lemma_version_survives(m: Map<Seq<u8>, Seq<u8>>, v: Seq<u8>, reqs: Seq<Seq<u8>>)
    requires
        m.contains_key(version_key()),
        m[version_key()] == v,
    ensures
        kv_run(m, reqs).contains_key(version_key()),
        kv_run(m, reqs)[version_key()] == v,
        spec_handle(kv_run(m, reqs), version_key()).1 == Some(spec_answer(version_key(), v)),
    decreases reqs.len(),
{
    if reqs.len() > 0 {
        lemma_version_survives(m, v, reqs.drop_last());
    }
    assert(first_equals(version_key()) is None) by {
        reveal_with_fuel(first_equals, 8);
    }
}

/// After `key=value` is inserted (a key without `=`, other than `version`),
/// the store maps the key to the value, and retrieving the key answers with
/// that key and value.
pub proof fn lemma_read_after_write(m: Map<Seq<u8>, Seq<u8>>, key: Seq<u8>, value: Seq<u8>)
    requires
        first_equals(key) is None,
        key != version_key(),
    ensures
        spec_handle(m, key + seq![61u8] + value).0 == m.insert(key, value),
        spec_handle(m.insert(key, value), key).1 == Some(spec_answer(key, value)),
{
    let d = key + seq![61u8] + value;
    lemma_first_equals_after(key, value);
    assert(d.take(key.len() as int) =~= key);
    assert(d.skip(key.len() as int + 1) =~= value);
}

/// UTF-8 encoding of a concatenation is the concatenation of the encodings.
pub proof fn lemma_encode_concat(a: Seq<char>, b: Seq<char>)
    ensures
        encode_utf8(a + b) == encode_utf8(a) + encode_utf8(b),
    decreases a.len(),
{
    if a.len() == 0 {
        assert(a + b =~= b);
        assert(encode_utf8(a) =~= Seq::<u8>::empty());
        assert(encode_utf8(a) + encode_utf8(b) =~= encode_utf8(b));
    } else {
        lemma_encode_concat(a.drop_first(), b);
        assert((a + b).drop_first() =~= a.drop_first() + b);
        assert((a + b)[0] == a[0]);
    }
}

} // verus!
