use vstd::prelude::*;
use crate::error::DbError;
use crate::util::PAGE_SIZE;

verus! {

/// The model of the primary index: key and page-identifier pairs in order.
pub type IndexModel = Seq<(Seq<char>, u32)>;

/// The model of a vector of owned key/page-identifier pairs.
pub open spec fn kv_view(s: Seq<(String, u32)>) -> IndexModel {
    Seq::new(s.len(), |i: int| (s[i].0@, s[i].1))
}

/// The keys of the entries are pairwise distinct.
pub open spec fn unique_keys(s: IndexModel) -> bool {
    forall|i: int, j: int| 0 <= i < j < s.len() ==> (#[trigger] s[i]).0 != (#[trigger] s[j]).0
}

/// Every page identifier is usable: page zero is reserved for the index
/// itself, and the largest identifier leaves no room for a fresh allocation.
pub open spec fn valid_entries(m: IndexModel) -> bool {
    forall|i: int| 0 <= i < m.len() ==> 1 <= (#[trigger] m[i]).1 < u32::MAX
}

/// Whether the mapping has an entry for key `k`.
pub open spec fn index_has(m: IndexModel, k: Seq<char>) -> bool {
    exists|i: int| 0 <= i < m.len() && (#[trigger] m[i]).0 == k
}

/// The page identifier of the entry for key `k`.
pub open spec fn index_pid(m: IndexModel, k: Seq<char>) -> u32 {
    let i = choose|i: int| 0 <= i < m.len() && (#[trigger] m[i]).0 == k;
    m[i].1
}

/// With distinct keys, the entry at any position is the one its key maps to.
pub proof fn lemma_index_at(m: IndexModel, i: int)
    requires
        unique_keys(m),
        0 <= i < m.len(),
    ensures
        index_has(m, m[i].0),
        index_pid(m, m[i].0) == m[i].1,
{
    let k = m[i].0;
    assert(index_has(m, k));
    let j = choose|j: int| 0 <= j < m.len() && (#[trigger] m[j]).0 == k;
    if i < j {
        assert(m[i].0 != m[j].0);
    } else if j < i {
        assert(m[j].0 != m[i].0);
    }
}

/// Finds the position of the entry for `key`, if there is one.
pub(crate) fn index_find(v: &Vec<(String, u32)>, key: &str) -> (r: Option<usize>)
    ensures
        match r {
            Some(i) => i < v@.len() && kv_view(v@)[i as int].0 == key@,
            None => !index_has(kv_view(v@), key@),
        },
{
    let owned = key.to_owned();
    let n = v.len();
    let mut i: usize = 0;
    while i < n
        invariant
            owned@ == key@,
            n == v@.len(),
            i <= n,
            forall|j: int| 0 <= j < i ==> (#[trigger] kv_view(v@)[j]).0 != key@,
        decreases n - i,
    {
        if v[i].0 == owned {
            proof {
                assert(kv_view(v@)[i as int].0 == key@);
            }
            return Some(i);
        }
        i += 1;
    }
    None
}

/// Every page identifier of the entries lies in `[1, bound)`.
pub open spec fn pids_below(m: IndexModel, bound: u32) -> bool {
    forall|j: int| 0 <= j < m.len() ==> 1 <= (#[trigger] m[j]).1 < bound
}

/// The byte image the outside codec produces for the key-to-page mapping.
pub uninterp spec fn index_encoding_of(m: IndexModel) -> Seq<u8>;

/// The mapping the outside codec reads back from a byte image, if any.
pub uninterp spec fn index_decoding_of(b: Seq<u8>) -> Option<IndexModel>;

/// Relies on serde_json::to_vec over an order-preserving map
/// (indexmap::IndexMap): the encoding is a function of the entries alone, is
/// JSON text and therefore holds no zero byte, and, when the keys are
/// distinct, reading it back with serde_json::from_slice recovers the entries
/// exactly.
#[verifier::external_body]
pub(crate) fn index_to_json_bytes(entries: &Vec<(String, u32)>) -> (r: Vec<u8>)
    ensures
        r@ == index_encoding_of(kv_view(entries@)),
        forall|i: int| 0 <= i < r@.len() ==> r@[i] != 0u8,
        unique_keys(kv_view(entries@)) ==> index_decoding_of(r@) == Some(kv_view(entries@)),
{
    let m: indexmap::IndexMap<&str, u32> = entries.iter().map(|p| (p.0.as_str(), p.1)).collect();
    serde_json::to_vec(&m).unwrap()
}

/// Relies on serde_json::from_slice into an order-preserving map
/// (indexmap::IndexMap): a byte image parses to at most one mapping, and the
/// result's keys are distinct.
#[verifier::external_body]
pub(crate) fn json_bytes_to_index(b: &[u8]) -> (r: Option<Vec<(String, u32)>>)
    ensures
        r matches Some(v) ==> index_decoding_of(b@) == Some(kv_view(v@)) && unique_keys(
            kv_view(v@),
        ),
        r is None ==> index_decoding_of(b@) is None,
{
    match serde_json::from_slice::<indexmap::IndexMap<String, u32>>(b) {
        Ok(m) => Some(m.into_iter().collect()),
        Err(_) => None,
    }
}

/// A mapping with one entry replaced, the key kept, behaves as the old one
/// except at that key.
proof fn lemma_index_update(m0: IndexModel, m1: IndexModel, i: int, k: Seq<char>, pid: u32)
    requires
        unique_keys(m0),
        0 <= i < m0.len(),
        m0[i].0 == k,
        m1 == m0.update(i, (k, pid)),
    ensures
        unique_keys(m1),
        index_has(m1, k),
        index_pid(m1, k) == pid,
        forall|k2: Seq<char>| k2 != k ==> index_has(m1, k2) == index_has(m0, k2),
        forall|k2: Seq<char>|
            k2 != k && index_has(m0, k2) ==> index_pid(m1, k2) == index_pid(m0, k2),
        forall|bound: u32| pids_below(m0, bound) && 1 <= pid < bound ==> pids_below(m1, bound),
{
    assert(forall|j: int| 0 <= j < m1.len() ==> (#[trigger] m1[j]).0 == m0[j].0);
    assert(unique_keys(m1));
    lemma_index_at(m1, i);
    assert forall|bound: u32| pids_below(m0, bound) && 1 <= pid < bound implies pids_below(
        m1,
        bound,
    ) by {
        assert(forall|j: int| 0 <= j < m1.len() && j != i ==> #[trigger] m1[j] == m0[j]);
    }
    assert forall|k2: Seq<char>| k2 != k implies index_has(m1, k2) == index_has(m0, k2) by {
        if index_has(m0, k2) {
            let j = choose|j: int| 0 <= j < m0.len() && (#[trigger] m0[j]).0 == k2;
            assert(m1[j].0 == k2);
        }
        if index_has(m1, k2) {
            let j = choose|j: int| 0 <= j < m1.len() && (#[trigger] m1[j]).0 == k2;
            assert(m0[j].0 == k2);
        }
    }
    assert forall|k2: Seq<char>| k2 != k && index_has(m0, k2) implies index_pid(m1, k2)
        == index_pid(m0, k2) by {
        let j = choose|j: int| 0 <= j < m0.len() && (#[trigger] m0[j]).0 == k2;
        lemma_index_at(m0, j);
        assert(m1[j] == m0[j]);
        lemma_index_at(m1, j);
    }
}

/// A mapping with a fresh entry appended behaves as the old one except at the
/// new key.
proof fn lemma_index_append(m0: IndexModel, m1: IndexModel, k: Seq<char>, pid: u32)
    requires
        unique_keys(m0),
        !index_has(m0, k),
        m1 == m0.push((k, pid)),
    ensures
        unique_keys(m1),
        index_has(m1, k),
        index_pid(m1, k) == pid,
        forall|k2: Seq<char>| k2 != k ==> index_has(m1, k2) == index_has(m0, k2),
        forall|k2: Seq<char>|
            k2 != k && index_has(m0, k2) ==> index_pid(m1, k2) == index_pid(m0, k2),
        forall|bound: u32| pids_below(m0, bound) && 1 <= pid < bound ==> pids_below(m1, bound),
{
    assert(forall|j: int| 0 <= j < m0.len() ==> #[trigger] m1[j] == m0[j]);
    assert(m1[m0.len() as int] == (k, pid));
    assert(unique_keys(m1));
    lemma_index_at(m1, m0.len() as int);
    assert forall|k2: Seq<char>| k2 != k implies index_has(m1, k2) == index_has(m0, k2) by {
        if index_has(m0, k2) {
            let j = choose|j: int| 0 <= j < m0.len() && (#[trigger] m0[j]).0 == k2;
            assert(m1[j].0 == k2);
        }
        if index_has(m1, k2) {
            let j = choose|j: int| 0 <= j < m1.len() && (#[trigger] m1[j]).0 == k2;
            assert(j < m0.len());
            assert(m0[j].0 == k2);
        }
    }
    assert forall|k2: Seq<char>| k2 != k && index_has(m0, k2) implies index_pid(m1, k2)
        == index_pid(m0, k2) by {
        let j = choose|j: int| 0 <= j < m0.len() && (#[trigger] m0[j]).0 == k2;
        lemma_index_at(m0, j);
        lemma_index_at(m1, j);
    }
}

/// Maps `key` to `pid`: replaces the entry in place when the key is present,
/// appends an entry otherwise.
pub(crate) fn index_set(v: &mut Vec<(String, u32)>, key: &str, pid: u32)
    requires
        unique_keys(kv_view(old(v)@)),
    ensures
        unique_keys(kv_view(final(v)@)),
        index_has(kv_view(final(v)@), key@),
        index_pid(kv_view(final(v)@), key@) == pid,
        forall|k2: Seq<char>|
            k2 != key@ ==> index_has(kv_view(final(v)@), k2) == index_has(kv_view(old(v)@), k2),
        forall|k2: Seq<char>|
            k2 != key@ && index_has(kv_view(old(v)@), k2) ==> index_pid(kv_view(final(v)@), k2)
                == index_pid(kv_view(old(v)@), k2),
        forall|bound: u32|
            pids_below(kv_view(old(v)@), bound) && 1 <= pid < bound ==> pids_below(
                kv_view(final(v)@),
                bound,
            ),
{
    let found = index_find(v, key);
    match found {
        Some(i) => {
            let entry = (key.to_owned(), pid);
            let ghost gentry = entry;
            proof {
                assert(gentry.0@ == key@ && gentry.1 == pid);
            }
            v.remove(i);
            v.insert(i, entry);
            proof {
                assert(kv_view(v@) =~= kv_view(old(v)@).update(i as int, (key@, pid)));
                lemma_index_update(kv_view(old(v)@), kv_view(v@), i as int, key@, pid);
            }
        },
        None => {
            let entry = (key.to_owned(), pid);
            let ghost gentry = entry;
            proof {
                assert(gentry.0@ == key@ && gentry.1 == pid);
            }
            v.push(entry);
            proof {
                assert(kv_view(v@) =~= kv_view(old(v)@).push((key@, pid)));
                lemma_index_append(kv_view(old(v)@), kv_view(v@), key@, pid);
            }
        },
    }
}

/// Removes the entry for `key` if there is one; returns whether it was there.
pub(crate) fn index_remove(v: &mut Vec<(String, u32)>, key: &str) -> (r: bool)
    requires
        unique_keys(kv_view(old(v)@)),
    ensures
        unique_keys(kv_view(final(v)@)),
        r == index_has(kv_view(old(v)@), key@),
        !index_has(kv_view(final(v)@), key@),
        forall|k2: Seq<char>|
            k2 != key@ ==> index_has(kv_view(final(v)@), k2) == index_has(kv_view(old(v)@), k2),
        forall|k2: Seq<char>|
            k2 != key@ && index_has(kv_view(old(v)@), k2) ==> index_pid(kv_view(final(v)@), k2)
                == index_pid(kv_view(old(v)@), k2),
        forall|bound: u32|
            pids_below(kv_view(old(v)@), bound) ==> pids_below(kv_view(final(v)@), bound),
        !r ==> *final(v) == *old(v),
{
    let found = index_find(v, key);
    match found {
        Some(i) => {
            v.remove(i);
            proof {
                let m0 = kv_view(old(v)@);
                let m1 = kv_view(v@);
                assert(m1 =~= m0.remove(i as int));
                assert forall|j: int| 0 <= j < m1.len() implies (#[trigger] m1[j]) == (
                if j < i {
                    m0[j]
                } else {
                    m0[j + 1]
                }) by {
                    assert(m1[j] == m0.remove(i as int)[j]);
                }
                assert forall|a: int, b: int| 0 <= a < b < m1.len() implies (#[trigger] m1[a]).0
                    != (#[trigger] m1[b]).0 by {
                    let a2: int = if a < i {
                        a
                    } else {
                        a + 1
                    };
                    let b2: int = if b < i {
                        b
                    } else {
                        b + 1
                    };
                    assert(m1[a] == m0[a2] && m1[b] == m0[b2]);
                    assert(m0[a2].0 != m0[b2].0);
                }
                assert forall|k2: Seq<char>| !(index_has(m1, k2) && k2 == key@) by {
                    if index_has(m1, k2) && k2 == key@ {
                        let j = choose|j: int| 0 <= j < m1.len() && (#[trigger] m1[j]).0 == k2;
                        let j2: int = if j < i {
                            j
                        } else {
                            j + 1
                        };
                        assert(m0[j2].0 == key@);
                        assert(m0[i as int].0 == key@);
                        if j2 < i {
                            assert(m0[j2].0 != m0[i as int].0);
                        } else {
                            assert(m0[i as int].0 != m0[j2].0);
                        }
                        assert(false);
                    }
                }
                assert forall|k2: Seq<char>| k2 != key@ implies index_has(m1, k2) == index_has(
                    m0,
                    k2,
                ) by {
                    if index_has(m0, k2) {
                        let j = choose|j: int| 0 <= j < m0.len() && (#[trigger] m0[j]).0 == k2;
                        assert(j != i);
                        if j < i {
                            assert(m1[j].0 == k2);
                        } else {
                            assert(m1[j - 1].0 == k2);
                        }
                    }
                    if index_has(m1, k2) {
                        let j = choose|j: int| 0 <= j < m1.len() && (#[trigger] m1[j]).0 == k2;
                        if j < i {
                            assert(m0[j].0 == k2);
                        } else {
                            assert(m0[j + 1].0 == k2);
                        }
                    }
                }
                assert forall|k2: Seq<char>| k2 != key@ && index_has(m0, k2) implies index_pid(
                    m1,
                    k2,
                ) == index_pid(m0, k2) by {
                    let j = choose|j: int| 0 <= j < m0.len() && (#[trigger] m0[j]).0 == k2;
                    lemma_index_at(m0, j);
                    assert(j != i);
                    if j < i {
                        assert(m1[j] == m0[j]);
                        lemma_index_at(m1, j);
                    } else {
                        assert(m1[j - 1] == m0[j]);
                        lemma_index_at(m1, j - 1);
                    }
                }
                assert forall|bound: u32| pids_below(m0, bound) implies pids_below(
                    m1,
                    bound,
                ) by {
                    assert forall|j: int| 0 <= j < m1.len() implies 1 <= (#[trigger] m1[j]).1
                        < bound by {
                        let j2: int = if j < i {
                            j
                        } else {
                            j + 1
                        };
                        assert(m1[j] == m0[j2]);
                    }
                }
            }
            true
        },
        None => false,
    }
}

/// `b` with its trailing zero bytes removed.
pub open spec fn zero_trimmed(b: Seq<u8>) -> Seq<u8>
    decreases b.len(),
{
    if b.len() > 0 && b[b.len() - 1] == 0 {
        zero_trimmed(b.drop_last())
    } else {
        b
    }
}

/// Removing zero padding from a zero-free image gives the image back.
pub proof fn lemma_zero_trimmed_padded(x: Seq<u8>, n: nat)
    requires
        forall|i: int| 0 <= i < x.len() ==> x[i] != 0u8,
    ensures
        zero_trimmed(x + Seq::new(n, |i: int| 0u8)) == x,
    decreases n,
{
    let s = x + Seq::new(n, |i: int| 0u8);
    if n == 0 {
        assert(s =~= x);
        if x.len() > 0 {
            assert(x[x.len() - 1] != 0);
        }
    } else {
        assert(s[s.len() - 1] == 0);
        assert(s.drop_last() =~= x + Seq::new((n - 1) as nat, |i: int| 0u8));
        lemma_zero_trimmed_padded(x, (n - 1) as nat);
    }
}

/// Copies `b` up to, and not including, its trailing zero padding.
pub fn zero_trim(b: &Vec<u8>) -> (r: Vec<u8>)
    ensures
        r@ == zero_trimmed(b@),
{
    let mut end = b.len();
    proof {
        assert(b@.subrange(0, b@.len() as int) =~= b@);
    }
    while end > 0 && b[end - 1] == 0
        invariant
            end <= b@.len(),
            zero_trimmed(b@) == zero_trimmed(b@.subrange(0, end as int)),
        decreases end,
    {
        proof {
            assert(b@.subrange(0, end as int).drop_last() =~= b@.subrange(0, end as int - 1));
        }
        end -= 1;
    }
    let mut r: Vec<u8> = Vec::new();
    let mut i: usize = 0;
    while i < end
        invariant
            end <= b@.len(),
            i <= end,
            r@ == b@.subrange(0, i as int),
        decreases end - i,
    {
        let ghost prev = r@;
        r.push(b[i]);
        i += 1;
        proof {
            assert(r@ =~= b@.subrange(0, i as int));
        }
    }
    proof {
        assert(b@.subrange(0, 0) =~= Seq::<u8>::empty());
        assert(r@ == b@.subrange(0, end as int));
    }
    r
}

/// The page-zero image of a mapping: its encoding padded with zeros to one
/// full page. Meaningful when the encoding fits in a page.
pub open spec fn index_page_image(m: IndexModel) -> Seq<u8> {
    index_encoding_of(m) + Seq::new((PAGE_SIZE - index_encoding_of(m).len()) as nat, |i: int| 0u8)
}

/// Encodes the entries as one full page image for page zero. Fails with
/// `ValueTooLarge` exactly when the encoding does not fit in a page.
pub fn serialize(entries: &Vec<(String, u32)>) -> (r: Result<Vec<u8>, DbError>)
    ensures
        r is Err <==> index_encoding_of(kv_view(entries@)).len() > PAGE_SIZE,
        r matches Err(e) ==> e == DbError::ValueTooLarge,
        r matches Ok(page) ==> {
            &&& page@.len() == PAGE_SIZE
            &&& page@ == index_page_image(kv_view(entries@))
            &&& unique_keys(kv_view(entries@)) ==> index_decoding_of(zero_trimmed(page@))
                == Some(kv_view(entries@))
        },
{
    let bytes = index_to_json_bytes(entries);
    if bytes.len() > PAGE_SIZE {
        return Err(DbError::ValueTooLarge);
    }
    let ghost encoding = bytes@;
    let base = bytes.len();
    let mut page = bytes;
    while page.len() < PAGE_SIZE
        invariant
            base == encoding.len(),
            base <= page@.len() <= PAGE_SIZE,
            page@.subrange(0, base as int) == encoding,
            forall|j: int| base <= j < page@.len() ==> page@[j] == 0u8,
        decreases PAGE_SIZE - page@.len(),
    {
        let ghost prev = page@;
        page.push(0u8);
        proof {
            assert(page@.subrange(0, base as int) =~= prev.subrange(0, base as int));
        }
    }
    proof {
        assert(page@ =~= index_page_image(kv_view(entries@)));
        if unique_keys(kv_view(entries@)) {
            lemma_zero_trimmed_padded(encoding, (PAGE_SIZE - base) as nat);
        }
    }
    Ok(page)
}

/// The mapping a page-zero image yields at open time: its trimmed content
/// decoded, or the empty mapping when it does not decode or names an
/// unusable page identifier.
pub open spec fn loaded_index(page: Seq<u8>) -> IndexModel {
    match index_decoding_of(zero_trimmed(page)) {
        Some(m) => if valid_entries(m) {
            m
        } else {
            Seq::empty()
        },
        None => Seq::empty(),
    }
}

/// Decodes the page-zero image, defaulting to the empty mapping on any
/// failure: open always succeeds over corrupt or fresh index data.
pub fn load(page: &Vec<u8>) -> (r: Vec<(String, u32)>)
    ensures
        kv_view(r@) == loaded_index(page@),
        unique_keys(kv_view(r@)),
        valid_entries(kv_view(r@)),
{
    let trimmed = zero_trim(page);
    let decoded = json_bytes_to_index(trimmed.as_slice());
    match decoded {
        Some(v) => {
            let n = v.len();
            let mut i: usize = 0;
            while i < n
                invariant
                    n == v@.len(),
                    i <= n,
                    index_decoding_of(zero_trimmed(page@)) == Some(kv_view(v@)),
                    unique_keys(kv_view(v@)),
                    forall|j: int| 0 <= j < i ==> 1 <= (#[trigger] kv_view(v@)[j]).1 < u32::MAX,
                decreases n - i,
            {
                let pid = v[i].1;
                if pid == 0 || pid == u32::MAX {
                    let empty_fallback: Vec<(String, u32)> = Vec::new();
                    proof {
                        assert((kv_view(v@)[i as int]).1 == pid);
                        assert(!valid_entries(kv_view(v@)));
                        assert(kv_view(empty_fallback@) =~= Seq::<(Seq<char>, u32)>::empty());
                    }
                    return empty_fallback;
                }
                i += 1;
            }
            v
        },
        None => {
            let empty_fallback: Vec<(String, u32)> = Vec::new();
            proof {
                assert(kv_view(empty_fallback@) =~= Seq::<(Seq<char>, u32)>::empty());
            }
            empty_fallback
        },
    }
}

} // verus!
