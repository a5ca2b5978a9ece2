use vstd::prelude::*;
use crate::codec;
use crate::codec::{doc_encoding_of, record_doc};
use crate::doc::{Doc, DocModel, FieldValue, FieldValueV, doc_field, doc_has_field, doc_wf};
use crate::error::DbError;
use crate::pager::{Pager, mmap_bytes, page_in_bounds, page_of, write_at};
use crate::primary;
use crate::primary::{
    IndexModel, index_encoding_of, index_decoding_of, index_has, index_page_image, index_pid,
    kv_view, lemma_index_at, loaded_index, pids_below, unique_keys, valid_entries, zero_trimmed,
};
use crate::secondary::SecondaryIndexSet;
use crate::util::PAGE_SIZE;

verus! {

/// The document a page of a byte region holds: nothing when the page is out
/// of range or its record does not decode.
pub open spec fn page_doc(bytes: Seq<u8>, pid: u32) -> Option<DocModel> {
    if page_in_bounds(bytes.len() as int, pid) {
        record_doc(page_of(bytes, pid))
    } else {
        None
    }
}

/// Whether the document a page holds has field `f` with value `v`.
pub open spec fn page_doc_has(bytes: Seq<u8>, pid: u32, f: Seq<char>, v: FieldValueV) -> bool {
    page_doc(bytes, pid) matches Some(d) && doc_has_field(d, f, v)
}

/// The model of an optional document.
pub open spec fn opt_doc_view(o: Option<Doc>) -> Option<DocModel> {
    match o {
        Some(d) => Some(d@),
        None => None,
    }
}

/// The model of an optional field value.
pub open spec fn opt_value_view(o: Option<FieldValue>) -> Option<FieldValueV> {
    match o {
        Some(v) => Some(v@),
        None => None,
    }
}

/// Whether some pair of `s` carries the key `k`.
pub open spec fn key_in_pairs(s: Seq<(String, Doc)>, k: Seq<char>) -> bool {
    exists|i: int| 0 <= i < s.len() && (#[trigger] s[i]).0@ == k
}

/// Whether some call of `predicate` on a document with model `dv` can return
/// `true`.
pub open spec fn passes<F: Fn(&Doc) -> bool>(predicate: F, dv: DocModel) -> bool {
    exists|dd: Doc| dd@ == dv && #[trigger] call_ensures(predicate, (&dd,), true)
}

/// Whether some call of `predicate` on a document with the model in `o` can
/// return `false`.
pub open spec fn fails_opt<F: Fn(&Doc) -> bool>(predicate: F, o: Option<DocModel>) -> bool {
    exists|dd: Doc| o == Some(dd@) && #[trigger] call_ensures(predicate, (&dd,), false)
}

/// The page of `s` selected by `offset` and `limit`: skip `offset`, take up
/// to `limit`.
pub open spec fn page_slice(s: Seq<Seq<char>>, offset: int, limit: int) -> Seq<Seq<char>> {
    if offset >= s.len() {
        Seq::empty()
    } else if offset + limit <= s.len() {
        s.subrange(offset, offset + limit)
    } else {
        s.subrange(offset, s.len() as int)
    }
}

/// Pages other than the one written keep their bytes.
proof fn lemma_page_of_write_other(bytes: Seq<u8>, data: Seq<u8>, wpid: u32, rpid: u32)
    requires
        wpid != rpid,
        (wpid as int) * (PAGE_SIZE as int) + data.len() <= bytes.len(),
        data.len() <= PAGE_SIZE,
        page_in_bounds(bytes.len() as int, rpid),
    ensures
        page_of(write_at(bytes, wpid as int * (PAGE_SIZE as int), data), rpid) == page_of(
            bytes,
            rpid,
        ),
{
    assert(page_of(write_at(bytes, wpid as int * (PAGE_SIZE as int), data), rpid) =~= page_of(
        bytes,
        rpid,
    ));
}

/// The page written holds exactly the full page image written to it.
proof fn lemma_page_of_write_self(bytes: Seq<u8>, data: Seq<u8>, wpid: u32)
    requires
        data.len() == PAGE_SIZE,
        (wpid as int) * (PAGE_SIZE as int) + data.len() <= bytes.len(),
    ensures
        page_of(write_at(bytes, wpid as int * (PAGE_SIZE as int), data), wpid) == data,
{
    assert(page_of(write_at(bytes, wpid as int * (PAGE_SIZE as int), data), wpid) =~= data);
}

/// The embedded key-value store: a mapped-file pager, the key-to-page primary
/// index, the rebuilt secondary indexes, and the next free page identifier.
pub struct YourDb {
    pager: Pager,
    index: Vec<(String, u32)>,
    secondary: SecondaryIndexSet,
    next_page_id: u32,
}

impl YourDb {
    /// The key and page-identifier entries of the primary index, in order.
    pub closed spec fn index_entries(self) -> IndexModel {
        kv_view(self.index@)
    }

    /// The bytes of the backing store.
    pub closed spec fn store_bytes(self) -> Seq<u8> {
        self.pager.bytes()
    }

    /// The next page identifier to be allocated.
    pub closed spec fn next_page(self) -> u32 {
        self.next_page_id
    }

    /// The bytes of page zero, which holds the serialized primary index.
    pub open spec fn page0_bytes(self) -> Seq<u8> {
        page_of(self.store_bytes(), 0)
    }

    /// Whether the primary index has an entry for key `k`.
    pub open spec fn contains_key(self, k: Seq<char>) -> bool {
        index_has(self.index_entries(), k)
    }

    /// The page identifier a present key maps to.
    pub open spec fn page_for(self, k: Seq<char>) -> u32 {
        index_pid(self.index_entries(), k)
    }

    /// Whether a present key's page lies inside the mapped region.
    pub open spec fn key_readable(self, k: Seq<char>) -> bool {
        self.contains_key(k) && page_in_bounds(
            self.store_bytes().len() as int,
            self.page_for(k),
        )
    }

    /// The document stored for key `k`: nothing when the key is absent, its
    /// page is out of range, or its record does not decode.
    pub open spec fn stored_doc(self, k: Seq<char>) -> Option<DocModel> {
        if self.contains_key(k) {
            page_doc(self.store_bytes(), self.page_for(k))
        } else {
            None
        }
    }

    /// Whether the document stored for `k` has field `f` with value `v`.
    pub open spec fn stored_has(self, k: Seq<char>, f: Seq<char>, v: FieldValueV) -> bool {
        self.stored_doc(k) matches Some(d) && doc_has_field(d, f, v)
    }

    /// Whether key `k` stands in the secondary bucket of field `f` with value
    /// `v`.
    pub closed spec fn in_bucket(self, f: Seq<char>, v: FieldValueV, k: Seq<char>) -> bool {
        self.secondary.contains(f, v, k)
    }

    /// The keys of the secondary bucket of field `f` with value `v`, in entry
    /// order.
    pub closed spec fn bucket_seq(self, f: Seq<char>, v: FieldValueV) -> Seq<Seq<char>> {
        self.secondary.bucket_seq(f, v)
    }

    /// The engine invariant: index keys are distinct, every indexed page
    /// identifier is positive and below the allocation counter, the region
    /// holds at least the reserved page, and the secondary index holds a
    /// triple exactly for every field of every document reachable through the
    /// primary index.
    pub closed spec fn inv(self) -> bool {
        &&& unique_keys(self.index_entries())
        &&& pids_below(self.index_entries(), self.next_page_id)
        &&& self.next_page_id >= 1
        &&& self.store_bytes().len() >= PAGE_SIZE
        &&& self.secondary.wf()
        &&& (forall|f: Seq<char>, v: FieldValueV, k: Seq<char>|
            #![trigger self.secondary.contains(f, v, k)]
            #![trigger self.stored_has(k, f, v)]
            self.secondary.contains(f, v, k) <==> self.stored_has(k, f, v))
        &&& (forall|k: Seq<char>| (#[trigger] self.stored_doc(k)) matches Some(d) ==> doc_wf(d))
    }

    /// In the invariant, a bucket holds a key exactly when the stored document
    /// has the field.
    pub proof fn lemma_inv_bucket(self, f: Seq<char>, v: FieldValueV, k: Seq<char>)
        requires
            self.inv(),
        ensures
            self.in_bucket(f, v, k) <==> self.stored_has(k, f, v),
    {
    }

    /// What `open` establishes: the engine holds the given region, its primary
    /// index is the one loaded from page zero, and the invariant holds.
    pub open spec fn open_ok(db: YourDb, bytes: Seq<u8>) -> bool {
        &&& db.inv()
        &&& db.store_bytes() == bytes
        &&& db.index_entries() == loaded_index(page_of(bytes, 0))
        &&& pids_below(db.index_entries(), db.next_page())
    }

    /// Opens the engine over a mapped region: loads the primary index from
    /// page zero (empty on any decode failure), computes the next free page
    /// identifier, and rebuilds the secondary indexes by reading every page
    /// reachable from the primary index. Fails only when the region cannot
    /// hold the reserved page.
    pub fn open(map: memmap2::MmapMut) -> (r: Result<YourDb, DbError>)
        ensures
            mmap_bytes(map).len() < PAGE_SIZE ==> r == Err::<YourDb, DbError>(
                DbError::PageOutOfBounds,
            ),
            mmap_bytes(map).len() >= PAGE_SIZE ==> (r matches Ok(db) && Self::open_ok(
                db,
                mmap_bytes(map),
            )),
    {
        let pager = Pager::new(map);
        let ghost bytes = pager.bytes();
        let page0 = match pager.get_page(0) {
            Ok(p) => p,
            Err(e) => {
                return Err(e);
            },
        };
        let index = primary::load(&page0);
        let ghost m = kv_view(index@);
        proof {
            assert(page_of(bytes, 0) == page0@);
        }
        // The next free page identifier: one past the largest in use.
        let n = index.len();
        let mut next: u32 = 1;
        let mut i: usize = 0;
        while i < n
            invariant
                n == index@.len(),
                m == kv_view(index@),
                valid_entries(m),
                next >= 1,
                i <= n,
                forall|j: int| 0 <= j < i ==> 1 <= (#[trigger] m[j]).1 < next,
            decreases n - i,
        {
            let pid = index[i].1;
            proof {
                assert(m[i as int].1 == pid);
            }
            if pid >= next {
                next = pid + 1;
            }
            i += 1;
        }
        // Rebuild the secondary indexes from the reachable pages.
        let mut secondary = SecondaryIndexSet::new();
        let mut i2: usize = 0;
        while i2 < n
            invariant
                n == index@.len(),
                m == kv_view(index@),
                unique_keys(m),
                i2 <= n,
                secondary.wf(),
                forall|f: Seq<char>, v: FieldValueV, k: Seq<char>|
                    #![trigger secondary.contains(f, v, k)]
                    secondary.contains(f, v, k) <==> exists|j: int|
                        0 <= j < i2 && (#[trigger] m[j]).0 == k && page_doc_has(bytes, m[j].1, f, v),
                forall|j: int|
                    0 <= j < i2 ==> ((#[trigger] page_doc(bytes, m[j].1)) matches Some(d)
                        ==> doc_wf(d)),
                bytes == pager.bytes(),
            decreases n - i2,
        {
            let ghost mid = secondary;
            let pid = index[i2].1;
            proof {
                assert(m[i2 as int].1 == pid && m[i2 as int].0 == index@[i2 as int].0@);
            }
            let ghost this_doc = page_doc(bytes, pid);
            match pager.get_page(pid) {
                Ok(page) => {
                    match codec::decode_record(&page) {
                        Some(d) => {
                            proof {
                                assert(page_doc(bytes, pid) == Some(d@));
                            }
                            secondary.index_document(index[i2].0.as_str(), &d);
                        },
                        None => {
                            proof {
                                assert(page_doc(bytes, pid) is None);
                            }
                        },
                    }
                },
                Err(_) => {
                    proof {
                        assert(page_doc(bytes, pid) is None);
                    }
                },
            }
            i2 += 1;
            proof {
                let key = m[i2 as int - 1].0;
                assert forall|f: Seq<char>, v: FieldValueV, k: Seq<char>|
                    #![trigger secondary.contains(f, v, k)]
                    secondary.contains(f, v, k) <==> exists|j: int|
                        0 <= j < i2 && (#[trigger] m[j]).0 == k && page_doc_has(bytes, m[j].1, f, v) by {
                    if secondary.contains(f, v, k) {
                        if mid.contains(f, v, k) {
                            let j = choose|j: int|
                                0 <= j < i2 - 1 && (#[trigger] m[j]).0 == k && page_doc_has(bytes, m[j].1, f, v);
                            assert(0 <= j < i2 && m[j].0 == k && page_doc_has(bytes, m[j].1, f, v));
                        } else {
                            assert(k == key && (this_doc matches Some(d) && doc_has_field(d, f, v)));
                            assert(0 <= i2 - 1 < i2 && m[i2 - 1].0 == k);
                        }
                    }
                    if exists|j: int|
                        page_doc_has(bytes, m[j].1, f, v) && 0 <= j < i2 && (#[trigger] m[j]).0 == k {
                        let j = choose|j: int|
                            0 <= j < i2 && (#[trigger] m[j]).0 == k && page_doc_has(bytes, m[j].1, f, v);
                        if j < i2 - 1 {
                            assert(mid.contains(f, v, k));
                        } else {
                            assert(secondary.contains(f, v, k));
                        }
                    }
                }
            }
        }
        let db = YourDb { pager, index, secondary, next_page_id: next };
        proof {
            assert(db.index_entries() == m);
            assert(db.store_bytes() == bytes);
            assert forall|f: Seq<char>, v: FieldValueV, k: Seq<char>|
                #![trigger db.secondary.contains(f, v, k)]
                #![trigger db.stored_has(k, f, v)]
                db.secondary.contains(f, v, k) <==> db.stored_has(k, f, v) by {
                if db.secondary.contains(f, v, k) {
                    let j = choose|j: int|
                        0 <= j < n && (#[trigger] m[j]).0 == k && page_doc_has(bytes, m[j].1, f, v);
                    lemma_index_at(m, j);
                }
                if db.stored_has(k, f, v) {
                    let j = choose|j: int| 0 <= j < m.len() && (#[trigger] m[j]).0 == k;
                    lemma_index_at(m, j);
                    assert(0 <= j < n && m[j].0 == k && page_doc_has(bytes, m[j].1, f, v));
                }
            }
            assert forall|k: Seq<char>| (#[trigger] db.stored_doc(k)) matches Some(d) ==> doc_wf(
                d,
            ) by {
                if db.contains_key(k) {
                    let j = choose|j: int| 0 <= j < m.len() && (#[trigger] m[j]).0 == k;
                    lemma_index_at(m, j);
                }
            }
            assert(db.inv());
        }
        Ok(db)
    }

    /// Whether a fresh page can be allocated and written: the identifier
    /// space is not exhausted and the next page lies inside the region.
    pub open spec fn can_allocate(self) -> bool {
        self.next_page() < u32::MAX && page_in_bounds(
            self.store_bytes().len() as int,
            self.next_page(),
        )
    }

    /// What a successful `put` of document `d` under key `k` establishes.
    pub open spec fn put_ok(pre: YourDb, post: YourDb, k: Seq<char>, d: DocModel) -> bool {
        &&& post.inv()
        &&& post.contains_key(k)
        &&& post.key_readable(k)
        &&& post.stored_doc(k) == Some(d)
        &&& (forall|k2: Seq<char>|
            k2 != k ==> #[trigger] post.contains_key(k2) == pre.contains_key(k2))
        &&& (forall|k2: Seq<char>| k2 != k ==> #[trigger] post.stored_doc(k2) == pre.stored_doc(k2))
        &&& (forall|k2: Seq<char>|
            k2 != k ==> #[trigger] post.key_readable(k2) == pre.key_readable(k2))
        &&& post.page0_bytes() == pre.page0_bytes()
        &&& post.next_page() > pre.next_page()
        &&& post.store_bytes().len() == pre.store_bytes().len()
    }

    /// Stores `d` under `key`: encodes it (rejecting an encoding that does not
    /// fit in one page), removes the key's previous document from the
    /// secondary indexes, writes the record to a fresh page, and indexes the
    /// new document. On failure nothing is changed. The key's previous page,
    /// if any, is never reclaimed.
    pub fn put(&mut self, key: &str, d: &Doc) -> (r: Result<(), DbError>)
        requires
            old(self).inv(),
            doc_wf(d@),
        ensures
            r is Ok <==> doc_encoding_of(d@).len() + 4 <= PAGE_SIZE && (!old(self).contains_key(
                key@,
            ) || old(self).key_readable(key@)) && old(self).can_allocate(),
            r is Ok ==> Self::put_ok(*old(self), *final(self), key@, d@),
            r is Err ==> *final(self) == *old(self),
            r matches Err(e) ==> (e == DbError::ValueTooLarge <==> doc_encoding_of(d@).len() + 4
                > PAGE_SIZE),
            r matches Err(e) ==> e == DbError::ValueTooLarge || e == DbError::PageOutOfBounds,
    {
        let ghost pre = *old(self);
        let page = match codec::encode_record(d) {
            Ok(p) => p,
            Err(e) => {
                return Err(e);
            },
        };
        let old_doc = match self.get(key) {
            Ok(o) => o,
            Err(e) => {
                return Err(e);
            },
        };
        if self.next_page_id == u32::MAX {
            return Err(DbError::PageOutOfBounds);
        }
        let pid = self.next_page_id;
        match self.pager.write_page(pid, page.as_slice()) {
            Ok(()) => {},
            Err(e) => {
                proof {
                    assert(e == DbError::PageOutOfBounds);
                }
                return Err(e);
            },
        }
        let ghost bytes1 = self.pager.bytes();
        proof {
            // The fresh page now holds the record; every other page, the
            // reserved one included, is unchanged.
            lemma_page_of_write_self(pre.store_bytes(), page@, pid);
            lemma_page_of_write_other(pre.store_bytes(), page@, pid, 0);
            assert(page_doc(bytes1, pid) == Some(d@));
            assert forall|pid2: u32| pid2 != pid implies page_doc(bytes1, pid2) == page_doc(
                pre.store_bytes(),
                pid2,
            ) by {
                if page_in_bounds(pre.store_bytes().len() as int, pid2) {
                    lemma_page_of_write_other(pre.store_bytes(), page@, pid, pid2);
                }
            }
        }
        if let Some(od) = old_doc {
            self.secondary.unindex_document(key, &od);
            proof {
                assert(pre.stored_doc(key@) == Some(od@));
                assert forall|f: Seq<char>, v: FieldValueV, k2: Seq<char>|
                    #![trigger self.secondary.contains(f, v, k2)]
                    self.secondary.contains(f, v, k2) <==> pre.stored_has(k2, f, v) && k2
                        != key@ by {
                    if k2 == key@ && pre.stored_has(k2, f, v) {
                        assert(doc_has_field(od@, f, v));
                    }
                }
            }
        } else {
            proof {
                assert forall|f: Seq<char>, v: FieldValueV, k2: Seq<char>|
                    #![trigger self.secondary.contains(f, v, k2)]
                    self.secondary.contains(f, v, k2) <==> pre.stored_has(k2, f, v) && k2
                        != key@ by {
                    if k2 == key@ && pre.stored_has(k2, f, v) {
                        assert(pre.stored_doc(key@) is Some);
                        assert(pre.key_readable(key@));
                        assert(false);
                    }
                }
            }
        }
        primary::index_set(&mut self.index, key, pid);
        self.next_page_id = pid + 1;
        let ghost mid = *self;
        self.secondary.index_document(key, d);
        proof {
            Self::lemma_put_final(pre, mid, *self, key@, d@, pid, bytes1);
        }
        Ok(())
    }

    /// The closing argument of `put`: from the states just before and after
    /// the new document is indexed, the whole transition is as stated.
    proof fn lemma_put_final(
        pre: YourDb,
        mid: YourDb,
        post: YourDb,
        k: Seq<char>,
        d: DocModel,
        pid: u32,
        bytes1: Seq<u8>,
    )
        requires
            pre.inv(),
            doc_wf(d),
            pre.can_allocate(),
            pid == pre.next_page(),
            bytes1.len() == pre.store_bytes().len(),
            page_doc(bytes1, pid) == Some(d),
            forall|pid2: u32|
                pid2 != pid ==> #[trigger] page_doc(bytes1, pid2) == page_doc(
                    pre.store_bytes(),
                    pid2,
                ),
            page_of(bytes1, 0) == page_of(pre.store_bytes(), 0),
            mid.store_bytes() == bytes1,
            pid < u32::MAX,
            mid.next_page() == pid + 1,
            unique_keys(mid.index_entries()),
            pids_below(mid.index_entries(), (pid + 1) as u32),
            mid.contains_key(k),
            mid.page_for(k) == pid,
            forall|k2: Seq<char>|
                k2 != k ==> #[trigger] index_has(mid.index_entries(), k2) == index_has(
                    pre.index_entries(),
                    k2,
                ),
            forall|k2: Seq<char>|
                k2 != k && index_has(pre.index_entries(), k2) ==> #[trigger] index_pid(
                    mid.index_entries(),
                    k2,
                ) == index_pid(pre.index_entries(), k2),
            mid.secondary.wf(),
            forall|f: Seq<char>, v: FieldValueV, k2: Seq<char>|
                #![trigger mid.secondary.contains(f, v, k2)]
                mid.secondary.contains(f, v, k2) <==> pre.stored_has(k2, f, v) && k2 != k,
            post.store_bytes() == mid.store_bytes(),
            post.index_entries() == mid.index_entries(),
            post.next_page() == mid.next_page(),
            post.secondary.wf(),
            forall|f: Seq<char>, v: FieldValueV, k2: Seq<char>|
                #![trigger post.secondary.contains(f, v, k2)]
                post.secondary.contains(f, v, k2) <==> mid.secondary.contains(f, v, k2) || (k2 == k
                    && doc_has_field(d, f, v)),
        ensures
            Self::put_ok(pre, post, k, d),
    {
        assert(post.stored_doc(k) == Some(d));
        assert(post.key_readable(k));
        assert forall|k2: Seq<char>| k2 != k implies #[trigger] post.stored_doc(k2)
            == pre.stored_doc(k2) by {
            if pre.contains_key(k2) {
                let pid2 = index_pid(pre.index_entries(), k2);
                assert(pid2 < pid || !page_in_bounds(pre.store_bytes().len() as int, pid2));
                if pid2 < pid {
                    assert(page_doc(post.store_bytes(), pid2) == page_doc(
                        pre.store_bytes(),
                        pid2,
                    ));
                } else {
                    assert(page_doc(post.store_bytes(), pid2) == page_doc(
                        pre.store_bytes(),
                        pid2,
                    ));
                }
            }
        }
        assert forall|k2: Seq<char>| k2 != k implies #[trigger] post.key_readable(k2)
            == pre.key_readable(k2) by {}
        assert forall|f: Seq<char>, v: FieldValueV, k2: Seq<char>|
            #![trigger post.secondary.contains(f, v, k2)]
            #![trigger post.stored_has(k2, f, v)]
            post.secondary.contains(f, v, k2) <==> post.stored_has(k2, f, v) by {
            if k2 == k {
                assert(post.stored_doc(k2) == Some(d));
            } else {
                assert(post.stored_doc(k2) == pre.stored_doc(k2));
            }
        }
        assert forall|k2: Seq<char>| (#[trigger] post.stored_doc(k2)) matches Some(dd) ==> doc_wf(
            dd,
        ) by {
            if k2 != k {
                assert(post.stored_doc(k2) == pre.stored_doc(k2));
            }
        }
        assert(post.inv());
    }

    /// What a successful `delete` of key `k` establishes.
    pub open spec fn delete_ok(pre: YourDb, post: YourDb, k: Seq<char>) -> bool {
        &&& post.inv()
        &&& !post.contains_key(k)
        &&& post.stored_doc(k) == None::<DocModel>
        &&& (forall|k2: Seq<char>|
            k2 != k ==> #[trigger] post.contains_key(k2) == pre.contains_key(k2))
        &&& (forall|k2: Seq<char>| k2 != k ==> #[trigger] post.stored_doc(k2) == pre.stored_doc(k2))
        &&& (forall|k2: Seq<char>|
            k2 != k ==> #[trigger] post.key_readable(k2) == pre.key_readable(k2))
        &&& post.store_bytes() == pre.store_bytes()
        &&& post.next_page() == pre.next_page()
    }

    /// Removes `key` and its document's entries from the indexes. Fails with
    /// `KeyNotFound` when the key is absent and with `PageOutOfBounds` when
    /// its page cannot be read for de-indexing; on failure nothing is changed.
    /// The key's page is never reclaimed.
    pub fn delete(&mut self, key: &str) -> (r: Result<(), DbError>)
        requires
            old(self).inv(),
        ensures
            !old(self).contains_key(key@) ==> r == Err::<(), DbError>(DbError::KeyNotFound)
                && *final(self) == *old(self),
            old(self).contains_key(key@) && !old(self).key_readable(key@) ==> r == Err::<
                (),
                DbError,
            >(DbError::PageOutOfBounds) && *final(self) == *old(self),
            old(self).contains_key(key@) && old(self).key_readable(key@) ==> r is Ok
                && Self::delete_ok(*old(self), *final(self), key@),
    {
        let ghost pre = *old(self);
        let old_doc = match self.get(key) {
            Ok(o) => o,
            Err(e) => {
                return Err(e);
            },
        };
        if let Some(od) = old_doc {
            self.secondary.unindex_document(key, &od);
            proof {
                assert(pre.stored_doc(key@) == Some(od@));
                assert forall|f: Seq<char>, v: FieldValueV, k2: Seq<char>|
                    #![trigger self.secondary.contains(f, v, k2)]
                    self.secondary.contains(f, v, k2) <==> pre.stored_has(k2, f, v) && k2
                        != key@ by {
                    if k2 == key@ && pre.stored_has(k2, f, v) {
                        assert(doc_has_field(od@, f, v));
                    }
                }
            }
        } else {
            proof {
                assert forall|f: Seq<char>, v: FieldValueV, k2: Seq<char>|
                    #![trigger self.secondary.contains(f, v, k2)]
                    self.secondary.contains(f, v, k2) <==> pre.stored_has(k2, f, v) && k2
                        != key@ by {
                    if k2 == key@ && pre.stored_has(k2, f, v) {
                        assert(pre.key_readable(key@));
                        assert(false);
                    }
                }
            }
        }
        let removed = primary::index_remove(&mut self.index, key);
        if removed {
            proof {
                assert forall|f: Seq<char>, v: FieldValueV, k2: Seq<char>|
                    #![trigger self.secondary.contains(f, v, k2)]
                    #![trigger self.stored_has(k2, f, v)]
                    self.secondary.contains(f, v, k2) <==> self.stored_has(k2, f, v) by {
                    if k2 != key@ {
                        assert(self.stored_doc(k2) == pre.stored_doc(k2));
                    } else {
                        assert(!self.contains_key(k2));
                    }
                }
                assert forall|k2: Seq<char>| (#[trigger] self.stored_doc(k2)) matches Some(dd)
                    ==> doc_wf(dd) by {
                    if k2 != key@ {
                        assert(self.stored_doc(k2) == pre.stored_doc(k2));
                    }
                }
                assert(self.inv());
            }
            Ok(())
        } else {
            Err(DbError::KeyNotFound)
        }
    }

    /// What a `flush` that fit in the reserved page establishes: page zero now
    /// holds exactly the padded image of the serialized primary index, it
    /// decodes back to the same entries, and everything else is unchanged.
    pub open spec fn flush_written(pre: YourDb, post: YourDb) -> bool {
        &&& post.inv()
        &&& post.index_entries() == pre.index_entries()
        &&& post.next_page() == pre.next_page()
        &&& post.store_bytes().len() == pre.store_bytes().len()
        &&& (forall|k: Seq<char>| #[trigger] post.contains_key(k) == pre.contains_key(k))
        &&& (forall|k: Seq<char>| #[trigger] post.stored_doc(k) == pre.stored_doc(k))
        &&& (forall|k: Seq<char>| #[trigger] post.key_readable(k) == pre.key_readable(k))
        &&& (forall|f: Seq<char>, v: FieldValueV, k: Seq<char>| #[trigger]
            post.in_bucket(f, v, k) == pre.in_bucket(f, v, k))
        &&& post.page0_bytes() == index_page_image(pre.index_entries())
        &&& index_decoding_of(zero_trimmed(post.page0_bytes())) == Some(pre.index_entries())
    }

    /// Serializes the primary index into page zero and forces all writes to
    /// durable storage. Fails with `ValueTooLarge`, changing nothing, when the
    /// serialized index does not fit in one page; an `Io` failure of the
    /// barrier leaves page zero written. Secondary indexes are not persisted.
    pub fn flush(&mut self) -> (r: Result<(), DbError>)
        requires
            old(self).inv(),
        ensures
            index_encoding_of(old(self).index_entries()).len() > PAGE_SIZE ==> r == Err::<
                (),
                DbError,
            >(DbError::ValueTooLarge) && *final(self) == *old(self),
            index_encoding_of(old(self).index_entries()).len() <= PAGE_SIZE
                ==> Self::flush_written(*old(self), *final(self)) && (r is Ok || r == Err::<
                (),
                DbError,
            >(DbError::Io)),
    {
        let ghost pre = *old(self);
        let page = match primary::serialize(&self.index) {
            Ok(p) => p,
            Err(e) => {
                return Err(e);
            },
        };
        match self.pager.write_page(0, page.as_slice()) {
            Ok(()) => {},
            Err(e) => {
                proof {
                    assert(false);
                }
                return Err(e);
            },
        }
        proof {
            lemma_page_of_write_self(pre.store_bytes(), page@, 0);
            assert forall|pid2: u32| pid2 != 0 implies #[trigger] page_doc(
                self.store_bytes(),
                pid2,
            ) == page_doc(pre.store_bytes(), pid2) by {
                if page_in_bounds(pre.store_bytes().len() as int, pid2) {
                    lemma_page_of_write_other(pre.store_bytes(), page@, 0, pid2);
                }
            }
            assert forall|k: Seq<char>| #[trigger] self.stored_doc(k) == pre.stored_doc(k) by {
                if pre.contains_key(k) {
                    assert(1 <= pre.page_for(k));
                    assert(page_doc(self.store_bytes(), pre.page_for(k)) == page_doc(
                        pre.store_bytes(),
                        pre.page_for(k),
                    ));
                }
            }
            assert forall|f: Seq<char>, v: FieldValueV, k: Seq<char>|
                #![trigger self.secondary.contains(f, v, k)]
                #![trigger self.stored_has(k, f, v)]
                self.secondary.contains(f, v, k) <==> self.stored_has(k, f, v) by {
                assert(self.stored_doc(k) == pre.stored_doc(k));
            }
            assert forall|k: Seq<char>| (#[trigger] self.stored_doc(k)) matches Some(dd)
                ==> doc_wf(dd) by {
                assert(self.stored_doc(k) == pre.stored_doc(k));
            }
            assert(self.inv());
            assert(Self::flush_written(pre, *self));
        }
        let ghost written = *self;
        let r = self.pager.flush();
        proof {
            assert(*self == written);
        }
        r
    }

    /// The document stored for `key`: `None` when the key is unknown or its
    /// record does not decode (best effort); `PageOutOfBounds` when the key's
    /// page lies outside the region.
    pub fn get(&self, key: &str) -> (r: Result<Option<Doc>, DbError>)
        requires
            self.inv(),
        ensures
            !self.contains_key(key@) ==> r == Ok::<Option<Doc>, DbError>(None),
            self.contains_key(key@) && !self.key_readable(key@) ==> r == Err::<
                Option<Doc>,
                DbError,
            >(DbError::PageOutOfBounds),
            self.key_readable(key@) ==> (r matches Ok(o) && opt_doc_view(o) == self.stored_doc(
                key@,
            ) && (o matches Some(doc) ==> doc_wf(doc@))),
    {
        match primary::index_find(&self.index, key) {
            None => Ok(None),
            Some(i) => {
                let pid = self.index[i].1;
                proof {
                    lemma_index_at(self.index_entries(), i as int);
                    assert(self.index_entries()[i as int].1 == pid);
                }
                match self.pager.get_page(pid) {
                    Err(e) => Err(e),
                    Ok(page) => {
                        match codec::decode_record(&page) {
                            Some(d) => Ok(Some(d)),
                            None => Ok(None),
                        }
                    },
                }
            },
        }
    }

    /// The value of top-level field `field` of the document stored for `key`.
    pub open spec fn stored_field(self, k: Seq<char>, f: Seq<char>) -> Option<FieldValueV> {
        match self.stored_doc(k) {
            Some(d) => doc_field(d, f),
            None => None,
        }
    }

    /// Projects field `field` out of the document stored for `key`: `None`
    /// when the key is unknown, its record does not decode, or the field is
    /// absent.
    pub fn get_field(&self, key: &str, field: &str) -> (r: Result<Option<FieldValue>, DbError>)
        requires
            self.inv(),
        ensures
            !self.contains_key(key@) ==> r == Ok::<Option<FieldValue>, DbError>(None),
            self.contains_key(key@) && !self.key_readable(key@) ==> r == Err::<
                Option<FieldValue>,
                DbError,
            >(DbError::PageOutOfBounds),
            self.key_readable(key@) ==> (r matches Ok(o) && opt_value_view(o) == self.stored_field(
                key@,
                field@,
            )),
    {
        match self.get(key) {
            Err(e) => Err(e),
            Ok(None) => Ok(None),
            Ok(Some(doc)) => match doc.get(field) {
                Some(v) => Ok(Some(v.clone())),
                None => Ok(None),
            },
        }
    }

    /// Like `get`, but strict: a present key whose record does not decode is
    /// surfaced as an `Encoding` error instead of `None`.
    pub fn get_strict(&self, key: &str) -> (r: Result<Option<Doc>, DbError>)
        requires
            self.inv(),
        ensures
            !self.contains_key(key@) ==> r == Ok::<Option<Doc>, DbError>(None),
            self.contains_key(key@) && !self.key_readable(key@) ==> r == Err::<
                Option<Doc>,
                DbError,
            >(DbError::PageOutOfBounds),
            self.key_readable(key@) ==> match self.stored_doc(key@) {
                Some(dv) => (r matches Ok(o) && o matches Some(doc) && doc@ == dv),
                None => r == Err::<Option<Doc>, DbError>(DbError::Encoding),
            },
    {
        match primary::index_find(&self.index, key) {
            None => Ok(None),
            Some(i) => {
                let pid = self.index[i].1;
                proof {
                    lemma_index_at(self.index_entries(), i as int);
                    assert(self.index_entries()[i as int].1 == pid);
                }
                match self.pager.get_page(pid) {
                    Err(e) => Err(e),
                    Ok(page) => match codec::decode_record(&page) {
                        Some(d) => Ok(Some(d)),
                        None => Err(DbError::Encoding),
                    },
                }
            },
        }
    }

    /// The keys whose stored document has field `field` equal to `value`,
    /// from the secondary index. No ordering is promised beyond the index's
    /// own entry order.
    pub fn query(&self, field: &str, value: &FieldValue) -> (r: Result<Vec<String>, DbError>)
        requires
            self.inv(),
        ensures
            r matches Ok(keys) && crate::secondary::keys_view(keys@) == self.bucket_seq(
                field@,
                value@,
            ),
            r matches Ok(keys) ==> forall|k: Seq<char>|
                #[trigger] crate::secondary::keys_view(keys@).contains(k) <==> self.stored_has(
                    k,
                    field@,
                    value@,
                ),
            r matches Ok(keys) ==> forall|i: int, j: int|
                0 <= i < j < keys@.len() ==> crate::secondary::keys_view(keys@)[i]
                    != crate::secondary::keys_view(keys@)[j],
    {
        let keys = self.secondary.lookup(field, value);
        proof {
            self.secondary.lemma_bucket_seq_props(field@, value@);
        }
        Ok(keys)
    }

    /// One page of a query's result: skips `offset` keys and returns at most
    /// `limit` of the rest.
    pub fn query_page(&self, field: &str, value: &FieldValue, limit: usize, offset: usize) -> (r:
        Result<Vec<String>, DbError>)
        requires
            self.inv(),
        ensures
            r matches Ok(keys) && crate::secondary::keys_view(keys@) == page_slice(
                self.bucket_seq(field@, value@),
                offset as int,
                limit as int,
            ),
    {
        let keys = self.secondary.lookup(field, value);
        let ghost bucket = self.bucket_seq(field@, value@);
        let n = keys.len();
        let mut out: Vec<String> = Vec::new();
        if offset >= n {
            proof {
                assert(crate::secondary::keys_view(out@) =~= page_slice(
                    bucket,
                    offset as int,
                    limit as int,
                ));
            }
            return Ok(out);
        }
        let rem = n - offset;
        let take = if limit < rem {
            limit
        } else {
            rem
        };
        let mut i: usize = 0;
        proof {
            assert(crate::secondary::keys_view(out@) =~= crate::secondary::keys_view(
                keys@,
            ).subrange(offset as int, offset as int));
        }
        while i < take
            invariant
                n == keys@.len(),
                crate::secondary::keys_view(keys@) == bucket,
                offset < n,
                rem == n - offset,
                take <= rem,
                i <= take,
                crate::secondary::keys_view(out@) == crate::secondary::keys_view(keys@).subrange(
                    offset as int,
                    offset as int + i as int,
                ),
            decreases take - i,
        {
            let ghost prev = out@;
            proof {
                assert(crate::secondary::keys_view(prev).len() == i as int);
                assert(prev.len() == i as int);
            }
            out.push(keys[offset + i].clone());
            i += 1;
            proof {
                assert(out@ == prev.push(out@[out@.len() - 1]));
                assert(out@.len() == i);
                assert forall|j: int| 0 <= j < i implies crate::secondary::keys_view(out@)[j]
                    == crate::secondary::keys_view(keys@)[offset + j] by {
                    if j < i - 1 {
                        assert(out@[j] == prev[j]);
                        assert(crate::secondary::keys_view(prev)[j]
                            == crate::secondary::keys_view(keys@).subrange(
                            offset as int,
                            offset as int + i as int - 1,
                        )[j]);
                    } else {
                        assert(out@[j]@ == keys@[offset + j]@);
                    }
                }
                assert(crate::secondary::keys_view(out@) =~= crate::secondary::keys_view(
                    keys@,
                ).subrange(offset as int, offset as int + i as int));
            }
        }
        proof {
            assert(crate::secondary::keys_view(out@) == page_slice(
                bucket,
                offset as int,
                limit as int,
            ));
        }
        Ok(out)
    }

    /// The pairs of key and stored document whose document has `field` equal
    /// to `value`, in the bucket's order. Never fails: every indexed key's
    /// document is readable.
    pub fn export_query(&self, field: &str, value: &FieldValue) -> (r: Result<
        Vec<(String, Doc)>,
        DbError,
    >)
        requires
            self.inv(),
        ensures
            r matches Ok(pairs) && pairs@.len() == self.bucket_seq(field@, value@).len(),
            r matches Ok(pairs) ==> forall|i: int|
                0 <= i < pairs@.len() ==> (#[trigger] pairs@[i]).0@ == self.bucket_seq(
                    field@,
                    value@,
                )[i] && self.stored_doc(pairs@[i].0@) == Some(pairs@[i].1@),
    {
        let keys = self.secondary.lookup(field, value);
        let ghost bucket = self.bucket_seq(field@, value@);
        proof {
            self.secondary.lemma_bucket_seq_props(field@, value@);
        }
        let n = keys.len();
        let mut out: Vec<(String, Doc)> = Vec::new();
        let mut i: usize = 0;
        while i < n
            invariant
                self.inv(),
                n == keys@.len(),
                crate::secondary::keys_view(keys@) == bucket,
                bucket == self.bucket_seq(field@, value@),
                forall|k: Seq<char>| #[trigger]
                    bucket.contains(k) <==> self.in_bucket(field@, value@, k),
                i <= n,
                out@.len() == i,
                forall|j: int|
                    0 <= j < i ==> (#[trigger] out@[j]).0@ == bucket[j] && self.stored_doc(
                        out@[j].0@,
                    ) == Some(out@[j].1@),
            decreases n - i,
        {
            let k = &keys[i];
            proof {
                assert(bucket[i as int] == k@);
                assert(bucket.contains(k@));
                self.lemma_inv_bucket(field@, value@, k@);
                assert(self.stored_has(k@, field@, value@));
                assert(self.stored_doc(k@) is Some);
                assert(self.key_readable(k@));
            }
            match self.get(k.as_str()) {
                Ok(Some(d)) => {
                    out.push((k.clone(), d));
                },
                Ok(None) => {
                    proof {
                        assert(false);
                    }
                },
                Err(e) => {
                    proof {
                        assert(false);
                    }
                    return Err(e);
                },
            }
            i += 1;
        }
        Ok(out)
    }

    /// Every key and its stored document, in primary-index order, skipping
    /// records that do not decode. Fails with `PageOutOfBounds` when some
    /// key's page cannot be read.
    pub fn export_to_file(&self) -> (r: Result<Vec<(String, Doc)>, DbError>)
        requires
            self.inv(),
        ensures
            r matches Ok(pairs) ==> forall|i: int|
                0 <= i < pairs@.len() ==> self.stored_doc((#[trigger] pairs@[i]).0@) == Some(
                    pairs@[i].1@,
                ),
            r matches Ok(pairs) ==> forall|k: Seq<char>|
                (#[trigger] self.stored_doc(k)) is Some ==> key_in_pairs(pairs@, k),
            r is Err ==> r == Err::<Vec<(String, Doc)>, DbError>(DbError::PageOutOfBounds) && (
            exists|k: Seq<char>| self.contains_key(k) && !self.key_readable(k)),
    {
        let ghost m = self.index_entries();
        let n = self.index.len();
        let mut out: Vec<(String, Doc)> = Vec::new();
        let mut i: usize = 0;
        while i < n
            invariant
                self.inv(),
                m == self.index_entries(),
                n == self.index@.len(),
                i <= n,
                forall|j: int|
                    0 <= j < out@.len() ==> self.stored_doc((#[trigger] out@[j]).0@) == Some(
                        out@[j].1@,
                    ),
                forall|j: int|
                    0 <= j < i && self.stored_doc((#[trigger] m[j]).0) is Some ==> key_in_pairs(
                        out@,
                        m[j].0,
                    ),
            decreases n - i,
        {
            let k = &self.index[i].0;
            proof {
                assert(m[i as int].0 == k@);
                lemma_index_at(m, i as int);
            }
            let got = match self.get(k.as_str()) {
                Ok(o) => o,
                Err(e) => {
                    return Err(e);
                },
            };
            let ghost prev = out@;
            if let Some(d) = got {
                out.push((k.clone(), d));
            }
            i += 1;
            proof {
                assert forall|j: int|
                    0 <= j < i && self.stored_doc((#[trigger] m[j]).0) is Some implies key_in_pairs(
                    out@,
                    m[j].0,
                ) by {
                    if j < i - 1 {
                        assert(key_in_pairs(prev, m[j].0));
                        let j0 = choose|j0: int| 0 <= j0 < prev.len() && (#[trigger] prev[j0]).0@
                            == m[j].0;
                        assert((out@[j0]).0@ == m[j].0);
                    } else {
                        assert(out@[out@.len() - 1].0@ == m[j].0);
                    }
                }
            }
        }
        proof {
            assert forall|k: Seq<char>| (#[trigger] self.stored_doc(k)) is Some implies
                key_in_pairs(out@, k) by {
                let j = choose|j: int| 0 <= j < m.len() && (#[trigger] m[j]).0 == k;
            }
        }
        Ok(out)
    }

    /// The pairs of key and stored document whose document satisfies
    /// `predicate`. Fails with `PageOutOfBounds` when some key's page cannot
    /// be read. A record that does not decode is skipped, best effort.
    pub fn filter<F: Fn(&Doc) -> bool>(&self, predicate: F) -> (r: Result<
        Vec<(String, Doc)>,
        DbError,
    >)
        requires
            self.inv(),
            forall|d: &Doc| call_requires(predicate, (d,)),
        ensures
            r matches Ok(pairs) ==> forall|i: int|
                0 <= i < pairs@.len() ==> self.stored_doc((#[trigger] pairs@[i]).0@) == Some(
                    pairs@[i].1@,
                ),
            r matches Ok(pairs) ==> forall|i: int|
                0 <= i < pairs@.len() ==> passes(predicate, (#[trigger] pairs@[i]).1@),
            r matches Ok(pairs) ==> forall|k: Seq<char>|
                (#[trigger] self.stored_doc(k)) is Some && !key_in_pairs(pairs@, k) ==> fails_opt(
                    predicate,
                    self.stored_doc(k),
                ),
            r is Err ==> r == Err::<Vec<(String, Doc)>, DbError>(DbError::PageOutOfBounds) && (
            exists|k: Seq<char>| self.contains_key(k) && !self.key_readable(k)),
    {
        let ghost m = self.index_entries();
        let n = self.index.len();
        let mut out: Vec<(String, Doc)> = Vec::new();
        let mut i: usize = 0;
        while i < n
            invariant
                self.inv(),
                forall|d: &Doc| call_requires(predicate, (d,)),
                m == self.index_entries(),
                n == self.index@.len(),
                i <= n,
                forall|j: int|
                    0 <= j < out@.len() ==> self.stored_doc((#[trigger] out@[j]).0@) == Some(
                        out@[j].1@,
                    ),
                forall|j: int| 0 <= j < out@.len() ==> passes(predicate, (#[trigger] out@[j]).1@),
                forall|j: int|
                    0 <= j < i && (#[trigger] self.stored_doc(m[j].0)) is Some && !key_in_pairs(
                        out@,
                        m[j].0,
                    ) ==> fails_opt(predicate, self.stored_doc(m[j].0)),
            decreases n - i,
        {
            let k = &self.index[i].0;
            proof {
                assert(m[i as int].0 == k@);
                lemma_index_at(m, i as int);
            }
            let got = match self.get(k.as_str()) {
                Ok(o) => o,
                Err(e) => {
                    return Err(e);
                },
            };
            let ghost prev = out@;
            if let Some(d) = got {
                let ghost gd = d;
                if predicate(&d) {
                    out.push((k.clone(), d));
                    proof {
                        assert(out@[out@.len() - 1].1 == gd);
                        assert(out@[out@.len() - 1].0@ == k@);
                        assert(passes(predicate, gd@));
                        assert forall|j: int| 0 <= j < out@.len() implies self.stored_doc(
                            (#[trigger] out@[j]).0@,
                        ) == Some(out@[j].1@) && passes(predicate, out@[j].1@) by {
                            if j < out@.len() - 1 {
                                assert(out@[j] == prev[j]);
                            }
                        }
                    }
                } else {
                    proof {
                        assert(fails_opt(predicate, Some(gd@)));
                    }
                }
            }
            i += 1;
            proof {
                assert forall|j: int|
                    0 <= j < i && (#[trigger] self.stored_doc(m[j].0)) is Some && !key_in_pairs(
                        out@,
                        m[j].0,
                    ) implies fails_opt(predicate, self.stored_doc(m[j].0)) by {
                    if j < i - 1 {
                        if key_in_pairs(prev, m[j].0) {
                            let j0 = choose|j0: int|
                                0 <= j0 < prev.len() && (#[trigger] prev[j0]).0@ == m[j].0;
                            assert(0 <= j0 < out@.len() && (out@[j0]).0@ == m[j].0);
                            assert(key_in_pairs(out@, m[j].0));
                        }
                    }
                }
            }
        }
        proof {
            assert forall|k: Seq<char>|
                (#[trigger] self.stored_doc(k)) is Some && !key_in_pairs(out@, k) implies
                fails_opt(predicate, self.stored_doc(k)) by {
                if self.contains_key(k) {
                    let j = choose|j: int| 0 <= j < m.len() && (#[trigger] m[j]).0 == k;
                }
            }
        }
        Ok(out)
    }

    /// A document just stored is the one read back: after a successful `put`
    /// of `d` under `k`, the engine stores exactly `d` for `k`, and a `get`
    /// of `k` succeeds with it.
    pub proof fn lemma_put_then_get(pre: YourDb, post: YourDb, k: Seq<char>, d: DocModel)
        requires
            Self::put_ok(pre, post, k, d),
        ensures
            post.stored_doc(k) == Some(d),
            post.key_readable(k),
    {
    }

    /// After a successful `delete` of `k`, nothing is stored for `k` and no
    /// secondary bucket holds it, so no query returns it.
    pub proof fn lemma_delete_clears(pre: YourDb, post: YourDb, k: Seq<char>)
        requires
            Self::delete_ok(pre, post, k),
        ensures
            post.stored_doc(k) == None::<DocModel>,
            !post.contains_key(k),
            forall|f: Seq<char>, v: FieldValueV| !post.in_bucket(f, v, k),
    {
        assert forall|f: Seq<char>, v: FieldValueV| !post.in_bucket(f, v, k) by {
            post.lemma_inv_bucket(f, v, k);
        }
    }

    /// Overwriting: after two `put`s under the same key, the second document
    /// is the one stored, and the key stands exactly in the buckets of the
    /// second document's fields, not the first's.
    pub proof fn lemma_put_overwrites(
        s0: YourDb,
        s1: YourDb,
        s2: YourDb,
        k: Seq<char>,
        d1: DocModel,
        d2: DocModel,
    )
        requires
            Self::put_ok(s0, s1, k, d1),
            Self::put_ok(s1, s2, k, d2),
        ensures
            s2.stored_doc(k) == Some(d2),
            forall|f: Seq<char>, v: FieldValueV|
                #![trigger s2.in_bucket(f, v, k)]
                #![trigger doc_has_field(d2, f, v)]
                s2.in_bucket(f, v, k) <==> doc_has_field(d2, f, v),
            forall|f: Seq<char>, v: FieldValueV|
                #![trigger s2.in_bucket(f, v, k)]
                s2.in_bucket(f, v, k) <==> doc_field(d2, f) == Some(v),
    {
        assert(s2.stored_doc(k) == Some(d2));
        assert(doc_wf(d2));
        assert forall|f: Seq<char>, v: FieldValueV|
            #![trigger s2.in_bucket(f, v, k)]
            #![trigger doc_has_field(d2, f, v)]
            s2.in_bucket(f, v, k) <==> doc_has_field(d2, f, v) by {
            s2.lemma_inv_bucket(f, v, k);
        }
        assert forall|f: Seq<char>, v: FieldValueV|
            #![trigger s2.in_bucket(f, v, k)]
            s2.in_bucket(f, v, k) <==> doc_field(d2, f) == Some(v) by {
            crate::doc::lemma_doc_has_field_equiv(d2, f, v);
        }
    }

    /// Flushing twice in a row with no mutation in between writes a
    /// byte-identical page zero both times.
    pub proof fn lemma_flush_idempotent(s0: YourDb, s1: YourDb, s2: YourDb)
        requires
            Self::flush_written(s0, s1),
            Self::flush_written(s1, s2),
        ensures
            s2.page0_bytes() == s1.page0_bytes(),
    {
    }

    /// Round trip: opening the region a flushed engine wrote yields the same
    /// keys, the same stored documents, and, after the rebuild, the same
    /// buckets.
    pub proof fn lemma_flush_reopen(pre: YourDb, flushed: YourDb, reopened: YourDb)
        requires
            Self::flush_written(pre, flushed),
            Self::open_ok(reopened, flushed.store_bytes()),
        ensures
            forall|k: Seq<char>| #[trigger] reopened.contains_key(k) == flushed.contains_key(k),
            forall|k: Seq<char>| #[trigger] reopened.stored_doc(k) == flushed.stored_doc(k),
            forall|f: Seq<char>, v: FieldValueV, k: Seq<char>| #[trigger]
                reopened.in_bucket(f, v, k) == flushed.in_bucket(f, v, k),
    {
        assert(valid_entries(flushed.index_entries()));
        assert(reopened.index_entries() == flushed.index_entries());
        assert forall|k: Seq<char>| #[trigger] reopened.stored_doc(k) == flushed.stored_doc(
            k,
        ) by {}
        assert forall|f: Seq<char>, v: FieldValueV, k: Seq<char>| #[trigger]
            reopened.in_bucket(f, v, k) == flushed.in_bucket(f, v, k) by {
            reopened.lemma_inv_bucket(f, v, k);
            flushed.lemma_inv_bucket(f, v, k);
        }
    }

    /// Closes the engine and gives the mapped region back. Writes not yet
    /// flushed stay in the mapping.
    pub fn into_map(self) -> (m: memmap2::MmapMut)
        ensures
            mmap_bytes(m) == self.store_bytes(),
    {
        self.pager.into_map()
    }
}

} // verus!
