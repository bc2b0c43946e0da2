//! The storage manager: a mapping from container ids to heap files, with
//! value-level insert, lookup, update and delete, iteration over a
//! container's live values, and a sidecar encoding of the container map for
//! shutdown and restart.

use vstd::prelude::*;
use crate::{PAGE_SIZE, FIXED_HEADER_SIZE, HEADER_PER_VAL_SIZE};
use crate::ids::{ContainerId, PageId, SlotId, TransactionId, Permissions, StateType, ValueId,
    CrustyError};
use crate::page::{Page, PageV, spec_fits, value_of, lemma_open_slot_not_live,
    lemma_value_of_witness, lemma_ser_parseable, lemma_page_round_trip, page_wf, is_live,
    slot_present, used_of};
use crate::heapfile::{HeapFile, num_chunks, spec_locate, image_dense, image_tidy,
    img_value, lemma_tidy_fresh_id, lemma_locate_none, lemma_overwrite_values,
    lemma_append_values};
use crate::heapfileiter::{HeapFileIterator, hf_items, page_at};

verus! {

/// Process-wide mapping from container id to heap file, and a flag marking
/// a temporary manager whose storage the surrounding program removes on
/// teardown.
pub struct StorageManager {
    pub containers: Vec<(ContainerId, HeapFile)>,
    pub is_temp: bool,
}

/// Whether the manager holds a container with this id.
pub open spec fn sm_has(s: StorageManager, cid: ContainerId) -> bool {
    exists|i: int| 0 <= i < s.containers@.len() && (#[trigger] s.containers@[i]).0 == cid
}

/// The byte image of the container's heap file.
pub open spec fn sm_image(s: StorageManager, cid: ContainerId) -> Seq<u8> {
    let i = choose|i: int| 0 <= i < s.containers@.len() && (#[trigger] s.containers@[i]).0 == cid;
    s.containers@[i].1@
}

/// The bytes stored under a value id, if its container is present and a
/// live value occupies the named page and slot.
pub open spec fn sm_value(s: StorageManager, vid: ValueId) -> Option<Seq<u8>> {
    if vid.page_id is Some && vid.slot_id is Some && sm_has(s, vid.container_id) {
        img_value(sm_image(s, vid.container_id), vid.page_id->0, vid.slot_id->0)
    } else {
        None
    }
}

/// Logical page id of the first page, scanning from `pid` upward, that
/// accepts an insert of `len` bytes; the page count itself when none does.
pub open spec fn first_fit_from(img: Seq<u8>, len: int, pid: int) -> int
    decreases num_chunks(img) - pid,
{
    if pid < 0 || pid >= num_chunks(img) {
        num_chunks(img)
    } else if spec_fits(page_at(img, pid), len) {
        pid
    } else {
        first_fit_from(img, len, pid + 1)
    }
}

/// Logical page id the storage manager stores an insert of `len` bytes on:
/// the first page that accepts it, else a fresh page.
pub open spec fn spec_first_fit(img: Seq<u8>, len: int) -> int {
    first_fit_from(img, len, 0)
}

impl StorageManager {
    /// The manager invariant: distinct container ids, each mapped to a
    /// well-formed heap file carrying that id.
    pub open spec fn wf(self) -> bool {
        &&& forall|i: int, j: int|
            0 <= i < j < self.containers@.len()
                ==> (#[trigger] self.containers@[i]).0 != (#[trigger] self.containers@[j]).0
        &&& forall|i: int|
            0 <= i < self.containers@.len() ==> (#[trigger] self.containers@[i]).1.wf()
                && self.containers@[i].1.container_id == self.containers@[i].0
    }

    /// A manager that starts with no containers. Rebuilding the container
    /// map from a persisted sidecar is the surrounding program's work,
    /// through `parse_cmap` and `attach_container`.
    pub fn new() -> (s: StorageManager)
        ensures
            s.wf(),
            s.containers@.len() == 0,
            !s.is_temp,
            forall|cid: ContainerId| !sm_has(s, cid),
    {
        StorageManager { containers: Vec::new(), is_temp: false }
    }

    /// A fresh manager for testing, marked temporary.
    pub fn new_test_sm() -> (s: StorageManager)
        ensures
            s.wf(),
            s.containers@.len() == 0,
            s.is_temp,
            forall|cid: ContainerId| !sm_has(s, cid),
    {
        StorageManager { containers: Vec::new(), is_temp: true }
    }

    /// Whether a container with this id is present.
    pub fn has_container(&self, cid: ContainerId) -> (r: bool)
        ensures
            r == sm_has(*self, cid),
    {
        self.find_container(cid).is_some()
    }

    /// Position of the container's entry, if present.
    fn find_container(&self, cid: ContainerId) -> (r: Option<usize>)
        ensures
            match r {
                Some(i) => i < self.containers@.len() && self.containers@[i as int].0 == cid,
                None => !sm_has(*self, cid),
            },
    {
        let n = self.containers.len();
        let mut i: usize = 0;
        while i < n
            invariant
                i <= n,
                n == self.containers@.len(),
                forall|k: int| 0 <= k < i ==> (#[trigger] self.containers@[k]).0 != cid,
            decreases n - i,
        {
            if self.containers[i].0 == cid {
                return Some(i);
            }
            i += 1;
        }
        None
    }

    /// Install a heap file for its container, replacing any existing entry
    /// for the same container id.
    pub fn attach_container(&mut self, hf: HeapFile) -> (r: Result<(), CrustyError>)
        requires
            old(self).wf(),
            hf.wf(),
        ensures
            final(self).wf(),
            final(self).is_temp == old(self).is_temp,
            r is Ok,
            forall|cid: ContainerId|
                sm_has(*final(self), cid) == (sm_has(*old(self), cid) || cid == hf.container_id),
            forall|cid: ContainerId|
                cid != hf.container_id && sm_has(*old(self), cid)
                    ==> sm_image(*final(self), cid) == sm_image(*old(self), cid),
            sm_image(*final(self), hf.container_id) == hf@,
            forall|vid: ValueId|
                vid.container_id != hf.container_id
                    ==> sm_value(*final(self), vid) == sm_value(*old(self), vid),
    {
        let ghost s0 = *self;
        let cid = hf.container_id;
        match self.find_container(cid) {
            Some(i) => {
                let _old_entry = self.containers.remove(i);
                self.containers.insert(i, (cid, hf));
                proof {
                    assert(self.containers@ =~= s0.containers@.update(i as int, (cid, hf)));
                    lemma_entries_updated(*self, s0, i as int);
                }
            },
            None => {
                self.containers.push((cid, hf));
                proof {
                    lemma_entries_pushed(*self, s0, cid);
                }
            },
        }
        Ok(())
    }

    /// Create a new, empty container. Re-creation of an existing container
    /// replaces its entry with a fresh heap file. The name, type and
    /// dependencies are accepted for interface parity and have no effect.
    pub fn create_container(
        &mut self,
        container_id: ContainerId,
        _name: Option<String>,
        _container_type: StateType,
        _dependencies: Option<Vec<ContainerId>>,
    ) -> (r: Result<(), CrustyError>)
        requires
            old(self).wf(),
        ensures
            final(self).wf(),
            final(self).is_temp == old(self).is_temp,
            r is Ok,
            forall|cid: ContainerId|
                sm_has(*final(self), cid) == (sm_has(*old(self), cid) || cid == container_id),
            forall|cid: ContainerId|
                cid != container_id && sm_has(*old(self), cid)
                    ==> sm_image(*final(self), cid) == sm_image(*old(self), cid),
            sm_image(*final(self), container_id).len() == 0,
            forall|vid: ValueId|
                vid.container_id != container_id
                    ==> sm_value(*final(self), vid) == sm_value(*old(self), vid),
    {
        let hf = HeapFile::new(container_id);
        self.attach_container(hf)
    }

    /// Create a base table container.
    pub fn create_table(&mut self, container_id: ContainerId) -> (r: Result<(), CrustyError>)
        requires
            old(self).wf(),
        ensures
            final(self).wf(),
            final(self).is_temp == old(self).is_temp,
            r is Ok,
            forall|cid: ContainerId|
                sm_has(*final(self), cid) == (sm_has(*old(self), cid) || cid == container_id),
            forall|cid: ContainerId|
                cid != container_id && sm_has(*old(self), cid)
                    ==> sm_image(*final(self), cid) == sm_image(*old(self), cid),
            sm_image(*final(self), container_id).len() == 0,
            forall|vid: ValueId|
                vid.container_id != container_id
                    ==> sm_value(*final(self), vid) == sm_value(*old(self), vid),
    {
        self.create_container(container_id, None, StateType::BaseTable, None)
    }

    /// Remove a container and its stored values. Fails exactly when the
    /// container is absent, as removing its missing file would.
    pub fn remove_container(&mut self, container_id: ContainerId) -> (r: Result<(), CrustyError>)
        requires
            old(self).wf(),
        ensures
            final(self).wf(),
            final(self).is_temp == old(self).is_temp,
            r is Ok <==> sm_has(*old(self), container_id),
            r is Err ==> *final(self) == *old(self) && r == Err::<(), CrustyError>(CrustyError::ContainerNotFound),
            forall|cid: ContainerId|
                sm_has(*final(self), cid)
                    == (sm_has(*old(self), cid) && cid != container_id),
            forall|cid: ContainerId|
                cid != container_id && sm_has(*old(self), cid)
                    ==> sm_image(*final(self), cid) == sm_image(*old(self), cid),
            forall|vid: ValueId|
                vid.container_id != container_id
                    ==> sm_value(*final(self), vid) == sm_value(*old(self), vid),
    {
        let ghost s0 = *self;
        match self.find_container(container_id) {
            Some(i) => {
                let _old_entry = self.containers.remove(i);
                proof {
                    lemma_entries_removed(*self, s0, i as int);
                }
                Ok(())
            },
            None => {
                proof {
                    assert forall|cid: ContainerId|
                        sm_has(*self, cid) == (sm_has(s0, cid) && cid != container_id) by {}
                }
                Err(CrustyError::ContainerNotFound)
            },
        }
    }

    /// Drop every container, keeping the manager itself.
    pub fn reset(&mut self) -> (r: Result<(), CrustyError>)
        ensures
            final(self).wf(),
            final(self).is_temp == old(self).is_temp,
            r is Ok,
            final(self).containers@.len() == 0,
            forall|cid: ContainerId| !sm_has(*final(self), cid),
    {
        self.containers = Vec::new();
        Ok(())
    }

    /// No cache is kept, so clearing one does nothing.
    pub fn clear_cache(&self) {
    }

    /// Number of pages in a container's heap file.
    pub fn get_num_pages(&self, container_id: ContainerId) -> (r: PageId)
        requires
            self.wf(),
            sm_has(*self, container_id),
        ensures
            r == num_chunks(sm_image(*self, container_id)),
    {
        let i = self.find_container(container_id).unwrap();
        proof {
            self.lemma_image_at(i as int);
        }
        self.containers[i].1.num_pages()
    }

    /// Fetch a page from a container, locating it by its logical id.
    /// Nothing is returned when the container is absent or no page carries
    /// the id.
    pub fn get_page(
        &self,
        container_id: ContainerId,
        page_id: PageId,
        _tid: TransactionId,
        _perm: Permissions,
        _pin: bool,
    ) -> (r: Option<Page>)
        requires
            self.wf(),
        ensures
            match r {
                Some(p) => {
                    &&& sm_has(*self, container_id)
                    &&& spec_locate(sm_image(*self, container_id), page_id) is Some
                    &&& p.wf()
                    &&& p@ == page_at(sm_image(*self, container_id), page_id as int)
                    &&& p@.page_id == page_id
                },
                None => !sm_has(*self, container_id)
                    || spec_locate(sm_image(*self, container_id), page_id) is None,
            },
    {
        let i = match self.find_container(container_id) {
            Some(i) => i,
            None => {
                return None;
            },
        };
        proof {
            self.lemma_image_at(i as int);
        }
        match self.containers[i].1.read_page_from_file(page_id) {
            Ok(p) => Some(p),
            Err(_) => None,
        }
    }

    /// Write a page into a container's heap file, overwriting the page with
    /// the same logical id or appending it. Fails exactly when the
    /// container is absent.
    pub fn write_page(
        &mut self,
        container_id: ContainerId,
        page: Page,
        _tid: TransactionId,
    ) -> (r: Result<(), CrustyError>)
        requires
            old(self).wf(),
            page.wf(),
            sm_has(*old(self), container_id)
                && spec_locate(sm_image(*old(self), container_id), page@.page_id) is None
                ==> num_chunks(sm_image(*old(self), container_id)) < u16::MAX,
        ensures
            final(self).wf(),
            final(self).is_temp == old(self).is_temp,
            r is Ok <==> sm_has(*old(self), container_id),
            r is Err ==> *final(self) == *old(self) && r == Err::<(), CrustyError>(CrustyError::ContainerNotFound),
            forall|cid: ContainerId| sm_has(*final(self), cid) == sm_has(*old(self), cid),
            forall|cid: ContainerId|
                cid != container_id && sm_has(*old(self), cid)
                    ==> sm_image(*final(self), cid) == sm_image(*old(self), cid),
            r is Ok ==> {
                let img0 = sm_image(*old(self), container_id);
                let img1 = sm_image(*final(self), container_id);
                &&& spec_locate(img1, page@.page_id) is Some
                &&& page_wf(page_at(img1, page@.page_id as int))
                &&& page_at(img1, page@.page_id as int).dir == page@.dir
                &&& page_at(img1, page@.page_id as int).open_slot == page@.open_slot
                &&& match spec_locate(img0, page@.page_id) {
                    Some(_) => {
                        &&& num_chunks(img1) == num_chunks(img0)
                        &&& forall|sid: SlotId|
                            #[trigger] img_value(img1, page@.page_id, sid)
                                == value_of(page@, sid)
                        &&& forall|pid2: PageId, sid: SlotId|
                            pid2 != page@.page_id
                                ==> #[trigger] img_value(img1, pid2, sid)
                                    == img_value(img0, pid2, sid)
                        &&& forall|pid2: PageId|
                            #[trigger] spec_locate(img1, pid2) == spec_locate(img0, pid2)
                    },
                    None => {
                        &&& num_chunks(img1) == num_chunks(img0) + 1
                        &&& spec_locate(img1, page@.page_id) == Some(num_chunks(img0))
                        &&& forall|sid: SlotId|
                            #[trigger] img_value(img1, page@.page_id, sid)
                                == value_of(page@, sid)
                        &&& forall|pid2: PageId, sid: SlotId|
                            pid2 != page@.page_id
                                ==> #[trigger] img_value(img1, pid2, sid)
                                    == img_value(img0, pid2, sid)
                        &&& forall|pid2: PageId|
                            pid2 != page@.page_id
                                ==> #[trigger] spec_locate(img1, pid2)
                                    == spec_locate(img0, pid2)
                    },
                }
            },
    {
        let ghost s0 = *self;
        let i = match self.find_container(container_id) {
            Some(i) => i,
            None => {
                return Err(CrustyError::ContainerNotFound);
            },
        };
        proof {
            s0.lemma_image_at(i as int);
        }
        let mut entry = self.containers.remove(i);
        let ghost img0 = entry.1@;
        let res = entry.1.write_page_to_file(page);
        let ghost img1 = entry.1@;
        self.containers.insert(i, entry);
        proof {
            assert(self.containers@ =~= s0.containers@.update(i as int,
                self.containers@[i as int]));
            lemma_entries_updated(*self, s0, i as int);
            assert(sm_image(*self, container_id) == img1);
            lemma_ser_parseable(page@);
            lemma_page_round_trip(page@);
            match spec_locate(img0, page@.page_id) {
                Some(loc) => {
                    lemma_overwrite_values(img1, img0, page@.page_id, page@);
                    assert(spec_locate(img1, page@.page_id) == Some(loc));
                    assert(page_at(img1, page@.page_id as int)
                        == crate::page::spec_deser(crate::page::spec_ser(page@)));
                },
                None => {
                    lemma_append_values(img1, img0, page@);
                    assert(page_at(img1, page@.page_id as int)
                        == crate::page::spec_deser(crate::page::spec_ser(page@)));
                },
            }
        }
        res
    }

    /// The bytes stored under a value id. Fails exactly when the id names no
    /// live value; the error says what was absent: the container, the page,
    /// or the value in its slot.
    pub fn get_value(
        &self,
        id: ValueId,
        _tid: TransactionId,
        _perm: Permissions,
    ) -> (r: Result<Vec<u8>, CrustyError>)
        requires
            self.wf(),
        ensures
            match r {
                Ok(v) => sm_value(*self, id) == Some(v@),
                Err(e) => sm_value(*self, id) is None && e == (
                    if !sm_has(*self, id.container_id) {
                        CrustyError::ContainerNotFound
                    } else if id.page_id is None
                        || spec_locate(sm_image(*self, id.container_id), id.page_id->0)
                            is None {
                        CrustyError::PageNotFound
                    } else {
                        CrustyError::ValueNotFound
                    }),
            },
    {
        if !self.has_container(id.container_id) {
            return Err(CrustyError::ContainerNotFound);
        }
        let page_id = match id.page_id {
            Some(p) => p,
            None => {
                return Err(CrustyError::PageNotFound);
            },
        };
        let page = match self.get_page(id.container_id, page_id, _tid, _perm, false) {
            Some(p) => p,
            None => {
                return Err(CrustyError::PageNotFound);
            },
        };
        let slot_id = match id.slot_id {
            Some(s) => s,
            None => {
                return Err(CrustyError::ValueNotFound);
            },
        };
        match page.get_value(slot_id) {
            Some(v) => Ok(v),
            None => Err(CrustyError::ValueNotFound),
        }
    }

    /// An iterator over every live value of a container, in page-id then
    /// slot-id order.
    pub fn get_iterator(
        &self,
        container_id: ContainerId,
        tid: TransactionId,
        _perm: Permissions,
    ) -> (it: HeapFileIterator)
        requires
            self.wf(),
            sm_has(*self, container_id),
            image_dense(sm_image(*self, container_id)),
        ensures
            it.wf(),
            it.pos() == 0,
            it.items() == hf_items(sm_image(*self, container_id), container_id),
    {
        let i = self.find_container(container_id).unwrap();
        proof {
            self.lemma_image_at(i as int);
        }
        let hf = self.containers[i].1.duplicate();
        HeapFileIterator::new(tid, hf)
    }

    /// The serialized bytes of a page, or an empty vector when the
    /// container or page is absent.
    pub fn get_page_bytes(&self, container_id: ContainerId, page_id: PageId) -> (r: Vec<u8>)
        requires
            self.wf(),
        ensures
            if sm_has(*self, container_id)
                && spec_locate(sm_image(*self, container_id), page_id) is Some {
                r@ == crate::page::spec_ser(page_at(sm_image(*self, container_id),
                    page_id as int))
            } else {
                r@.len() == 0
            },
    {
        match self.get_page(container_id, page_id, TransactionId::new(),
            Permissions::ReadOnly, false) {
            Some(p) => p.to_bytes(),
            None => Vec::new(),
        }
    }

    /// A hexadecimal rendering of a page's serialized bytes, two digits per
    /// byte; empty when the container or page is absent.
    pub fn get_page_debug(&self, container_id: ContainerId, page_id: PageId) -> (r: String)
        requires
            self.wf(),
        ensures
            r@ == hex_of(if sm_has(*self, container_id)
                && spec_locate(sm_image(*self, container_id), page_id) is Some {
                crate::page::spec_ser(page_at(sm_image(*self, container_id), page_id as int))
            } else {
                Seq::<u8>::empty()
            }),
    {
        let bytes = self.get_page_bytes(container_id, page_id);
        let mut out = String::new();
        let n = bytes.len();
        let mut i: usize = 0;
        while i < n
            invariant
                i <= n,
                n == bytes@.len(),
                out@ =~= hex_of(bytes@.take(i as int)),
            decreases n - i,
        {
            let b = bytes[i];
            out.push(hex_digit(b / 16));
            out.push(hex_digit(b % 16));
            proof {
                crate::seq_util::lemma_take_push(bytes@, i as int);
                lemma_hex_of_push(bytes@.take(i as int), bytes@[i as int]);
            }
            i += 1;
        }
        proof {
            assert(bytes@.take(n as int) =~= bytes@);
            if !(sm_has(*self, container_id)
                && spec_locate(sm_image(*self, container_id), page_id) is Some) {
                assert(bytes@ =~= Seq::<u8>::empty());
            }
        }
        out
    }

    /// Delete the value under a value id: read its page, tombstone the
    /// slot, and write the page back. Delete is total: it succeeds even when
    /// the container, the page or a live value in the slot does not exist,
    /// leaving the state unchanged then.
    #[verifier::rlimit(100)]
    pub fn delete_value(&mut self, id: ValueId, tid: TransactionId) -> (r: Result<(), CrustyError>)
        requires
            old(self).wf(),
        ensures
            final(self).wf(),
            final(self).is_temp == old(self).is_temp,
            r is Ok,
            sm_value(*final(self), id) is None,
            forall|vid: ValueId|
                vid != id ==> sm_value(*final(self), vid) == sm_value(*old(self), vid),
            forall|cid: ContainerId| sm_has(*final(self), cid) == sm_has(*old(self), cid),
            forall|cid: ContainerId|
                cid != id.container_id && sm_has(*old(self), cid)
                    ==> sm_image(*final(self), cid) == sm_image(*old(self), cid),
            sm_has(*old(self), id.container_id) ==> {
                let img0 = sm_image(*old(self), id.container_id);
                let img1 = sm_image(*final(self), id.container_id);
                &&& num_chunks(img1) == num_chunks(img0)
                &&& forall|pid2: PageId|
                    #[trigger] spec_locate(img1, pid2) == spec_locate(img0, pid2)
            },
            // When the id names a page, that page keeps every slot id in
            // place and only the named slot loses its payload.
            sm_has(*old(self), id.container_id) && id.page_id is Some && id.slot_id is Some
                && spec_locate(sm_image(*old(self), id.container_id), id.page_id->0) is Some
                ==> ({
                let pv0 = page_at(sm_image(*old(self), id.container_id), id.page_id->0 as int);
                let pv1 = page_at(sm_image(*final(self), id.container_id),
                    id.page_id->0 as int);
                &&& page_wf(pv1)
                &&& pv1.dir.len() == pv0.dir.len()
                &&& forall|i: int|
                    0 <= i < pv0.dir.len()
                        ==> (#[trigger] pv1.dir[i]).slot_id == pv0.dir[i].slot_id
                            && (is_live(pv1.dir[i]) <==> (is_live(pv0.dir[i])
                                && pv0.dir[i].slot_id != id.slot_id->0))
                &&& used_of(pv1.dir) + (match sm_value(*old(self), id) {
                    Some(v) => v.len() as int,
                    None => 0int,
                }) == used_of(pv0.dir)
            }),
    {
        if !self.has_container(id.container_id) {
            return Ok(());
        }
        let page_id = match id.page_id {
            Some(p) => p,
            None => {
                return Ok(());
            },
        };
        let slot_id = match id.slot_id {
            Some(s) => s,
            None => {
                return Ok(());
            },
        };
        if !self.has_page(id.container_id, page_id) {
            return Ok(());
        }
        self.delete_live(id.container_id, page_id, slot_id, tid);
        Ok(())
    }

    /// Whether the container holds a page with this logical id.
    fn has_page(&self, container_id: ContainerId, page_id: PageId) -> (r: bool)
        requires
            self.wf(),
            sm_has(*self, container_id),
        ensures
            r == (spec_locate(sm_image(*self, container_id), page_id) is Some),
    {
        let i = self.find_container(container_id).unwrap();
        proof {
            self.lemma_image_at(i as int);
        }
        match self.containers[i].1.read_page_from_file(page_id) {
            Ok(_) => true,
            Err(_) => false,
        }
    }

    /// Tombstone one slot of an existing page and write the page back.
    #[verifier::rlimit(100)]
    fn delete_live(
        &mut self,
        container_id: ContainerId,
        page_id: PageId,
        slot_id: SlotId,
        tid: TransactionId,
    )
        requires
            old(self).wf(),
            sm_has(*old(self), container_id),
            spec_locate(sm_image(*old(self), container_id), page_id) is Some,
        ensures
            final(self).wf(),
            final(self).is_temp == old(self).is_temp,
            img_value(sm_image(*final(self), container_id), page_id, slot_id) is None,
            forall|vid: ValueId|
                !(vid.container_id == container_id && vid.page_id == Some(page_id)
                    && vid.slot_id == Some(slot_id))
                    ==> sm_value(*final(self), vid) == sm_value(*old(self), vid),
            forall|cid: ContainerId| sm_has(*final(self), cid) == sm_has(*old(self), cid),
            forall|cid: ContainerId|
                cid != container_id && sm_has(*old(self), cid)
                    ==> sm_image(*final(self), cid) == sm_image(*old(self), cid),
            num_chunks(sm_image(*final(self), container_id))
                == num_chunks(sm_image(*old(self), container_id)),
            forall|pid2: PageId|
                #[trigger] spec_locate(sm_image(*final(self), container_id), pid2)
                    == spec_locate(sm_image(*old(self), container_id), pid2),
            ({
                let pv0 = page_at(sm_image(*old(self), container_id), page_id as int);
                let pv1 = page_at(sm_image(*final(self), container_id), page_id as int);
                &&& page_wf(pv1)
                &&& pv1.dir.len() == pv0.dir.len()
                &&& forall|i: int|
                    0 <= i < pv0.dir.len()
                        ==> (#[trigger] pv1.dir[i]).slot_id == pv0.dir[i].slot_id
                            && (is_live(pv1.dir[i]) <==> (is_live(pv0.dir[i])
                                && pv0.dir[i].slot_id != slot_id))
                &&& used_of(pv1.dir) + (match img_value(sm_image(*old(self), container_id),
                    page_id, slot_id) {
                    Some(v) => v.len() as int,
                    None => 0int,
                }) == used_of(pv0.dir)
            }),
    {
        let mut page = self.get_page(container_id, page_id, tid,
            Permissions::ReadWrite, false).unwrap();
        let ghost pv_read = page@;
        let dr = page.delete_value(slot_id);
        let res = self.write_page(container_id, page, tid);
        proof {
            assert(res is Ok);
            let pv0 = page_at(sm_image(*old(self), container_id), page_id as int);
            let pv1 = page_at(sm_image(*self, container_id), page_id as int);
            assert(pv0 == pv_read);
            assert(pv1.dir == page@.dir);
            assert forall|i: int| 0 <= i < pv0.dir.len()
                implies (#[trigger] pv1.dir[i]).slot_id == pv0.dir[i].slot_id
                    && (is_live(pv1.dir[i]) <==> (is_live(pv0.dir[i])
                        && pv0.dir[i].slot_id != slot_id)) by {
                assert(pv1.dir[i] == page@.dir[i]);
                if dr is None {
                    // Nothing was deleted, so no live entry carries the id.
                    assert(page@ == pv_read);
                    if pv_read.dir[i].slot_id == slot_id && is_live(pv_read.dir[i]) {
                        lemma_value_of_witness(pv_read, i, slot_id);
                        assert(false);
                    }
                }
            }
            assert forall|vid: ValueId|
                !(vid.container_id == container_id && vid.page_id == Some(page_id)
                    && vid.slot_id == Some(slot_id))
                implies sm_value(*self, vid) == sm_value(*old(self), vid) by {
                if vid.page_id is Some && vid.slot_id is Some
                    && vid.container_id == container_id && vid.page_id->0 == page_id {
                }
            }
        }
    }

    /// Insert a value into a container: store it on the first page that can
    /// hold it, scanning logical page ids upward, or on a fresh page when
    /// every existing page rejects it; write that page back; and return the
    /// value id under which the bytes now read back. The slot is the chosen
    /// page's open slot (slot 0 on a fresh page), and the page keeps every
    /// other slot as it was.
    pub fn insert_value(
        &mut self,
        container_id: ContainerId,
        value: Vec<u8>,
        tid: TransactionId,
    ) -> (r: ValueId)
        requires
            old(self).wf(),
            sm_has(*old(self), container_id),
            value@.len() > 0,
            value@.len() + FIXED_HEADER_SIZE + HEADER_PER_VAL_SIZE <= PAGE_SIZE,
            image_tidy(sm_image(*old(self), container_id)),
            num_chunks(sm_image(*old(self), container_id)) < u16::MAX,
        ensures
            final(self).wf(),
            final(self).is_temp == old(self).is_temp,
            r.container_id == container_id,
            r.page_id is Some,
            r.slot_id is Some,
            r.page_id->0 as int
                == spec_first_fit(sm_image(*old(self), container_id), value@.len() as int),
            sm_value(*final(self), r) == Some(value@),
            sm_value(*old(self), r) is None,
            forall|vid: ValueId|
                vid != r ==> sm_value(*final(self), vid) == sm_value(*old(self), vid),
            forall|cid: ContainerId| sm_has(*final(self), cid) == sm_has(*old(self), cid),
            forall|cid: ContainerId|
                cid != container_id && sm_has(*old(self), cid)
                    ==> sm_image(*final(self), cid) == sm_image(*old(self), cid),
            image_tidy(sm_image(*final(self), container_id)),
            num_chunks(sm_image(*final(self), container_id))
                == num_chunks(sm_image(*old(self), container_id)) + (
                if r.page_id->0 < num_chunks(sm_image(*old(self), container_id)) {
                    0int
                } else {
                    1int
                }),
            forall|pid2: PageId|
                pid2 != r.page_id->0 ==> #[trigger] spec_locate(sm_image(*final(self),
                    container_id), pid2) == spec_locate(sm_image(*old(self), container_id), pid2),
            spec_locate(sm_image(*final(self), container_id), r.page_id->0) is Some,
            page_wf(page_at(sm_image(*final(self), container_id), r.page_id->0 as int)),
            // The slot chosen on an existing page is that page's open slot,
            // and the page keeps every slot id in place, the chosen one now
            // live; a fresh page holds the value in slot 0 alone.
            r.page_id->0 < num_chunks(sm_image(*old(self), container_id)) ==> ({
                let pv0 = page_at(sm_image(*old(self), container_id), r.page_id->0 as int);
                let pv1 = page_at(sm_image(*final(self), container_id), r.page_id->0 as int);
                &&& Some(r.slot_id->0) == pv0.open_slot
                &&& pv1.dir.len() == pv0.dir.len() + (
                    if slot_present(pv0.dir, r.slot_id->0) { 0int } else { 1int })
                &&& forall|i: int|
                    0 <= i < pv0.dir.len()
                        ==> (#[trigger] pv1.dir[i]).slot_id == pv0.dir[i].slot_id
                            && (is_live(pv1.dir[i]) <==> (is_live(pv0.dir[i])
                                || pv0.dir[i].slot_id == r.slot_id->0))
                &&& !slot_present(pv0.dir, r.slot_id->0)
                    ==> pv1.dir[pv0.dir.len() as int].slot_id == r.slot_id->0
                        && is_live(pv1.dir[pv0.dir.len() as int])
                &&& used_of(pv1.dir) == used_of(pv0.dir) + value@.len()
            }),
            r.page_id->0 >= num_chunks(sm_image(*old(self), container_id)) ==> ({
                let pv1 = page_at(sm_image(*final(self), container_id), r.page_id->0 as int);
                &&& r.slot_id->0 == 0
                &&& pv1.dir.len() == 1
                &&& pv1.dir[0].slot_id == 0
                &&& is_live(pv1.dir[0])
                &&& used_of(pv1.dir) == value@.len()
            }),
    {
        let ghost img0 = sm_image(*old(self), container_id);
        let ghost len = value@.len() as int;
        let n = self.get_num_pages(container_id);
        let mut pid: u16 = 0;
        while pid < n
            invariant
                *self == *old(self),
                old(self).wf(),
                sm_has(*old(self), container_id),
                img0 == sm_image(*old(self), container_id),
                len == value@.len() as int,
                0 < len,
                len + FIXED_HEADER_SIZE + HEADER_PER_VAL_SIZE <= PAGE_SIZE,
                image_tidy(img0),
                num_chunks(img0) < u16::MAX,
                pid <= n,
                n == num_chunks(img0),
                spec_first_fit(img0, len) == first_fit_from(img0, len, pid as int),
            decreases n - pid,
        {
            let mut page = self.get_page(container_id, pid, tid,
                Permissions::ReadWrite, false).unwrap();
            let ghost pv_read = page@;
            match page.add_value(&value) {
                Some(slot) => {
                    proof {
                        assert(first_fit_from(img0, len, pid as int) == pid as int);
                        lemma_open_slot_not_live(pv_read);
                    }
                    let res = self.write_page(container_id, page, tid);
                    let r = ValueId {
                        container_id,
                        page_id: Some(pid),
                        slot_id: Some(slot),
                    };
                    proof {
                        let img1 = sm_image(*self, container_id);
                        assert(sm_value(*self, r) == Some(value@));
                        assert forall|vid: ValueId| vid != r
                            implies sm_value(*self, vid) == sm_value(*old(self), vid) by {}
                        lemma_tidy_preserved_same_ids(img1, img0);
                    }
                    return r;
                },
                None => {
                    proof {
                        assert(!spec_fits(pv_read, len));
                        assert(first_fit_from(img0, len, pid as int)
                            == first_fit_from(img0, len, pid as int + 1));
                    }
                    pid += 1;
                },
            }
        }
        // Every existing page rejected the value: store it on a fresh page
        // whose logical id is the current page count.
        let mut page = Page::new(n);
        proof {
            assert(spec_fits(page@, len));
        }
        let slot = page.add_value(&value).unwrap();
        proof {
            lemma_tidy_fresh_id(img0, n);
            lemma_open_slot_not_live(PageV {
                page_id: n,
                open_slot: Some(0u16),
                dir: Seq::empty(),
                data: Seq::new(PAGE_SIZE as nat, |i: int| 0u8),
            });
        }
        let res = self.write_page(container_id, page, tid);
        let r = ValueId { container_id, page_id: Some(n), slot_id: Some(slot) };
        proof {
            let img1 = sm_image(*self, container_id);
            assert(spec_locate(img1, n) == Some(n as int));
            assert(sm_value(*self, r) == Some(value@));
            assert forall|vid: ValueId| vid != r
                implies sm_value(*self, vid) == sm_value(*old(self), vid) by {
                if vid.page_id is Some && vid.slot_id is Some
                    && vid.container_id == container_id && vid.page_id->0 == n {
                    assert(img_value(img0, n, vid.slot_id->0) is None);
                }
            }
            lemma_tidy_preserved_append(img1, img0, n);
        }
        r
    }

    /// Insert several values in order. Each value receives its own id; all
    /// of them, and every value already stored, read back afterwards.
    pub fn insert_values(
        &mut self,
        container_id: ContainerId,
        values: Vec<Vec<u8>>,
        tid: TransactionId,
    ) -> (r: Vec<ValueId>)
        requires
            old(self).wf(),
            sm_has(*old(self), container_id),
            forall|k: int|
                0 <= k < values@.len() ==> 0 < (#[trigger] values@[k])@.len()
                    && values@[k]@.len() + FIXED_HEADER_SIZE + HEADER_PER_VAL_SIZE <= PAGE_SIZE,
            image_tidy(sm_image(*old(self), container_id)),
            num_chunks(sm_image(*old(self), container_id)) + values@.len() <= u16::MAX,
        ensures
            final(self).wf(),
            final(self).is_temp == old(self).is_temp,
            r@.len() == values@.len(),
            forall|k: int|
                0 <= k < r@.len() ==> (#[trigger] r@[k]).container_id == container_id
                    && r@[k].page_id is Some && r@[k].slot_id is Some
                    && sm_value(*final(self), r@[k]) == Some(values@[k]@),
            forall|vid: ValueId|
                (forall|k: int| 0 <= k < r@.len() ==> vid != #[trigger] r@[k])
                    ==> #[trigger] sm_value(*final(self), vid) == sm_value(*old(self), vid),
            forall|cid: ContainerId| sm_has(*final(self), cid) == sm_has(*old(self), cid),
            forall|cid: ContainerId|
                cid != container_id && sm_has(*old(self), cid)
                    ==> sm_image(*final(self), cid) == sm_image(*old(self), cid),
            image_tidy(sm_image(*final(self), container_id)),
    {
        let mut r: Vec<ValueId> = Vec::new();
        let n = values.len();
        let mut i: usize = 0;
        while i < n
            invariant
                i <= n,
                n == values@.len(),
                r@.len() == i,
                self.wf(),
                self.is_temp == old(self).is_temp,
                sm_has(*old(self), container_id),
                forall|k: int|
                    0 <= k < values@.len() ==> 0 < (#[trigger] values@[k])@.len()
                        && values@[k]@.len() + FIXED_HEADER_SIZE + HEADER_PER_VAL_SIZE
                            <= PAGE_SIZE,
                num_chunks(sm_image(*old(self), container_id)) + values@.len() <= u16::MAX,
                num_chunks(sm_image(*self, container_id))
                    <= num_chunks(sm_image(*old(self), container_id)) + i,
                image_tidy(sm_image(*self, container_id)),
                forall|cid: ContainerId| sm_has(*self, cid) == sm_has(*old(self), cid),
                forall|cid: ContainerId|
                    cid != container_id && sm_has(*old(self), cid)
                        ==> sm_image(*self, cid) == sm_image(*old(self), cid),
                forall|k: int|
                    0 <= k < i ==> (#[trigger] r@[k]).container_id == container_id
                        && r@[k].page_id is Some && r@[k].slot_id is Some
                        && sm_value(*self, r@[k]) == Some(values@[k]@),
                forall|vid: ValueId|
                    (forall|k: int| 0 <= k < i ==> vid != #[trigger] r@[k])
                        ==> #[trigger] sm_value(*self, vid) == sm_value(*old(self), vid),
            decreases n - i,
        {
            let ghost pre = *self;
            let ghost r0 = r@;
            let v = clone_bytes(&values[i]);
            let vid = self.insert_value(container_id, v, tid);
            r.push(vid);
            proof {
                assert forall|k: int| 0 <= k < i + 1
                    implies (#[trigger] r@[k]).container_id == container_id
                        && r@[k].page_id is Some && r@[k].slot_id is Some
                        && sm_value(*self, r@[k]) == Some(values@[k]@) by {
                    if k < i as int {
                        assert(r@[k] == r0[k]);
                        // The fresh id held no value before this insert, so
                        // it differs from every id handed out earlier.
                        assert(sm_value(pre, r0[k]) == Some(values@[k]@));
                        assert(r0[k] != vid);
                    }
                }
                assert forall|vid2: ValueId|
                    (forall|k: int| 0 <= k < i + 1 ==> vid2 != #[trigger] r@[k])
                    implies #[trigger] sm_value(*self, vid2) == sm_value(*old(self), vid2) by {
                    assert(vid2 != r@[i as int]);
                    assert(sm_value(*self, vid2) == sm_value(pre, vid2));
                    assert forall|k: int| 0 <= k < i implies vid2 != #[trigger] r0[k] by {
                        assert(r0[k] == r@[k]);
                    }
                    assert(sm_value(pre, vid2) == sm_value(*old(self), vid2));
                }
            }
            i += 1;
        }
        r
    }

    /// Update a value: delete the old one and insert the new bytes, which
    /// may land on a different page or slot. Returns the new value id, or an
    /// error naming what was absent: the container, or the page the id
    /// names. A dead slot on an existing page updates like a live one: the
    /// delete is total and the insert assigns a fresh id.
    pub fn update_value(
        &mut self,
        value: Vec<u8>,
        id: ValueId,
        _tid: TransactionId,
    ) -> (r: Result<ValueId, CrustyError>)
        requires
            old(self).wf(),
            value@.len() > 0,
            value@.len() + FIXED_HEADER_SIZE + HEADER_PER_VAL_SIZE <= PAGE_SIZE,
            sm_has(*old(self), id.container_id) && id.page_id is Some
                && spec_locate(sm_image(*old(self), id.container_id), id.page_id->0) is Some
                ==> image_tidy(sm_image(*old(self), id.container_id))
                    && num_chunks(sm_image(*old(self), id.container_id)) < u16::MAX,
        ensures
            final(self).wf(),
            final(self).is_temp == old(self).is_temp,
            match r {
                Ok(nv) => {
                    &&& sm_has(*old(self), id.container_id)
                    &&& id.page_id is Some
                    &&& spec_locate(sm_image(*old(self), id.container_id), id.page_id->0)
                        is Some
                    &&& nv.container_id == id.container_id
                    &&& nv.page_id is Some
                    &&& nv.slot_id is Some
                    &&& sm_value(*final(self), nv) == Some(value@)
                    &&& nv != id ==> sm_value(*final(self), id) is None
                    &&& forall|vid: ValueId|
                        vid != id && vid != nv
                            ==> sm_value(*final(self), vid) == sm_value(*old(self), vid)
                    &&& image_tidy(sm_image(*final(self), id.container_id))
                    &&& num_chunks(sm_image(*final(self), id.container_id))
                        <= num_chunks(sm_image(*old(self), id.container_id)) + 1
                },
                Err(e) => {
                    &&& *final(self) == *old(self)
                    &&& e == (if !sm_has(*old(self), id.container_id) {
                        CrustyError::ContainerNotFound
                    } else {
                        CrustyError::PageNotFound
                    })
                    &&& !sm_has(*old(self), id.container_id) || id.page_id is None
                        || spec_locate(sm_image(*old(self), id.container_id),
                            id.page_id->0) is None
                },
            },
            forall|cid: ContainerId| sm_has(*final(self), cid) == sm_has(*old(self), cid),
            forall|cid: ContainerId|
                cid != id.container_id && sm_has(*old(self), cid)
                    ==> sm_image(*final(self), cid) == sm_image(*old(self), cid),
    {
        if !self.has_container(id.container_id) {
            return Err(CrustyError::ContainerNotFound);
        }
        let page_id = match id.page_id {
            Some(p) => p,
            None => {
                return Err(CrustyError::PageNotFound);
            },
        };
        if !self.has_page(id.container_id, page_id) {
            return Err(CrustyError::PageNotFound);
        }
        match self.delete_value(id, _tid) {
            Ok(_) => {},
            Err(e) => {
                return Err(e);
            },
        }
        proof {
            lemma_tidy_preserved_same_ids(sm_image(*self, id.container_id),
                sm_image(*old(self), id.container_id));
        }
        let nv = self.insert_value(id.container_id, value, _tid);
        Ok(nv)
    }

    /// The container ids in the map, in entry order.
    pub open spec fn container_ids(self) -> Seq<ContainerId> {
        self.containers@.map(|_i: int, e: (ContainerId, HeapFile)| e.0)
    }

    /// The sidecar bytes that `shutdown` persists: the JSON encoding of the
    /// container count followed by the container ids. Writing them beside
    /// the container files is the surrounding program's work.
    pub fn shutdown_bytes(&self) -> (r: Vec<u8>)
        requires
            self.wf(),
            self.containers@.len() <= u16::MAX,
        ensures
            r@ == json_of_ids(seq![self.containers@.len() as u16] + self.container_ids()),
    {
        let n = self.containers.len();
        let mut buf: Vec<u16> = Vec::new();
        buf.push(n as u16);
        let mut i: usize = 0;
        while i < n
            invariant
                i <= n,
                n == self.containers@.len(),
                n <= u16::MAX,
                buf@ =~= seq![n as u16] + self.container_ids().take(i as int),
            decreases n - i,
        {
            buf.push(self.containers[i].0);
            proof {
                crate::seq_util::lemma_take_push(self.container_ids(), i as int);
            }
            i += 1;
        }
        proof {
            assert(self.container_ids().take(n as int) =~= self.container_ids());
            assert(buf@ =~= seq![n as u16] + self.container_ids());
        }
        encode_ids(&buf)
    }

    /// With distinct ids, any entry for a container determines its image.
    proof fn lemma_image_at(self, i: int)
        requires
            self.wf(),
            0 <= i < self.containers@.len(),
        ensures
            sm_has(self, self.containers@[i].0),
            sm_image(self, self.containers@[i].0) == self.containers@[i].1@,
    {
        let cid = self.containers@[i].0;
        assert(sm_has(self, cid));
        let j = choose|j: int|
            0 <= j < self.containers@.len() && (#[trigger] self.containers@[j]).0 == cid;
        if i != j {
            assert(self.containers@[i].0 != self.containers@[j].0);
        }
    }
}

/// Relies on `String::push`: appends one character to the string.
pub assume_specification[ std::string::String::push ](s: &mut std::string::String, c: char)
    ensures
        final(s)@ == old(s)@.push(c),
;

/// The hexadecimal digit for a value below sixteen.
pub open spec fn spec_hex_digit(v: u8) -> char {
    seq!['0', '1', '2', '3', '4', '5', '6', '7', '8', '9', 'a', 'b', 'c', 'd', 'e', 'f'][v as int]
}

/// The hexadecimal digit for a value below sixteen.
fn hex_digit(v: u8) -> (c: char)
    requires
        v < 16,
    ensures
        c == spec_hex_digit(v),
{
    match v {
        0 => '0',
        1 => '1',
        2 => '2',
        3 => '3',
        4 => '4',
        5 => '5',
        6 => '6',
        7 => '7',
        8 => '8',
        9 => '9',
        10 => 'a',
        11 => 'b',
        12 => 'c',
        13 => 'd',
        14 => 'e',
        _ => 'f',
    }
}

/// The JSON encoding of a sequence of 16-bit integers, as `serde_json`
/// produces it.
pub uninterp spec fn json_of_ids(ids: Seq<u16>) -> Seq<u8>;

/// Relies on `serde_json::to_vec`: the JSON encoding of a vector of 16-bit
/// integers, which depends on its elements alone and never fails for this
/// type.
#[verifier::external_body]
fn encode_ids(ids: &Vec<u16>) -> (r: Vec<u8>)
    ensures
        r@ == json_of_ids(ids@),
{
    serde_json::to_vec(ids).unwrap()
}

/// Relies on `serde_json::from_slice`: deserializing the JSON encoding of a
/// vector of 16-bit integers yields that vector back.
#[verifier::external_body]
fn decode_ids(bytes: &Vec<u8>) -> (r: Option<Vec<u16>>)
    ensures
        forall|ids: Seq<u16>|
            bytes@ == json_of_ids(ids) ==> r is Some && r->0@ == ids,
{
    serde_json::from_slice::<Vec<u16>>(bytes).ok()
}

/// Decode a persisted container map: the JSON encoding of a count followed
/// by that many container ids. Returns the ids whenever the bytes are a
/// sidecar that `shutdown_bytes` produced.
pub fn parse_cmap(bytes: &Vec<u8>) -> (r: Option<Vec<ContainerId>>)
    ensures
        forall|ids: Seq<u16>|
            ids.len() <= u16::MAX && bytes@ == json_of_ids(seq![ids.len() as u16] + ids)
                ==> r is Some && r->0@ == ids,
{
    let v = match decode_ids(bytes) {
        Some(v) => v,
        None => {
            return None;
        },
    };
    if v.len() == 0 {
        return None;
    }
    let cnt = v[0] as usize;
    if v.len() != cnt + 1 {
        return None;
    }
    let mut out: Vec<ContainerId> = Vec::new();
    let mut i: usize = 1;
    while i < v.len()
        invariant
            1 <= i <= v@.len(),
            out@ =~= v@.subrange(1, i as int),
        decreases v@.len() - i,
    {
        out.push(v[i]);
        proof {
            assert(v@.subrange(1, i as int + 1)
                =~= v@.subrange(1, i as int).push(v@[i as int]));
        }
        i += 1;
    }
    proof {
        assert forall|ids: Seq<u16>|
            ids.len() <= u16::MAX && bytes@ == json_of_ids(seq![ids.len() as u16] + ids)
            implies out@ == ids by {
            assert(v@ == seq![ids.len() as u16] + ids);
            assert(v@.len() == ids.len() + 1);
            assert(v@[0] == ids.len() as u16);
            assert(out@ =~= ids);
        }
    }
    Some(out)
}

/// A fresh copy of a byte vector.
fn clone_bytes(v: &Vec<u8>) -> (r: Vec<u8>)
    ensures
        r@ == v@,
{
    let mut r: Vec<u8> = Vec::new();
    let n = v.len();
    let mut i: usize = 0;
    while i < n
        invariant
            i <= n,
            n == v@.len(),
            r@ =~= v@.take(i as int),
        decreases n - i,
    {
        r.push(v[i]);
        proof {
            crate::seq_util::lemma_take_push(v@, i as int);
        }
        i += 1;
    }
    proof {
        assert(r@ =~= v@);
    }
    r
}

/// An overwrite that changes no search keeps an image tidy.
proof fn lemma_tidy_preserved_same_ids(img1: Seq<u8>, img0: Seq<u8>)
    requires
        image_tidy(img0),
        num_chunks(img1) == num_chunks(img0),
        forall|pid2: PageId| #[trigger] spec_locate(img1, pid2) == spec_locate(img0, pid2),
    ensures
        image_tidy(img1),
{
    assert forall|k: int| 0 <= k < num_chunks(img1)
        implies (#[trigger] crate::heapfile::chunk_page_id(img1, k)) < num_chunks(img1) by {
        let q = crate::heapfile::chunk_page_id(img1, k);
        if q >= num_chunks(img1) {
            lemma_tidy_fresh_id(img0, q);
            assert(spec_locate(img1, q) is None);
            lemma_locate_none(img1, q, 0);
            assert(false);
        }
    }
}

/// Appending a page whose id is the old page count keeps an image tidy.
proof fn lemma_tidy_preserved_append(img1: Seq<u8>, img0: Seq<u8>, nid: PageId)
    requires
        image_tidy(img0),
        nid == num_chunks(img0),
        num_chunks(img1) == num_chunks(img0) + 1,
        spec_locate(img1, nid) == Some(num_chunks(img0)),
        forall|pid2: PageId|
            pid2 != nid ==> #[trigger] spec_locate(img1, pid2) == spec_locate(img0, pid2),
    ensures
        image_tidy(img1),
{
    assert forall|pid2: PageId| pid2 < num_chunks(img1)
        implies #[trigger] spec_locate(img1, pid2) is Some by {
        if pid2 != nid {
            assert(pid2 < num_chunks(img0));
        }
    }
    assert forall|k: int| 0 <= k < num_chunks(img1)
        implies (#[trigger] crate::heapfile::chunk_page_id(img1, k)) < num_chunks(img1) by {
        let q = crate::heapfile::chunk_page_id(img1, k);
        if q >= num_chunks(img1) {
            assert(q != nid);
            lemma_tidy_fresh_id(img0, q);
            assert(spec_locate(img1, q) is None);
            lemma_locate_none(img1, q, 0);
            assert(false);
        }
    }
}

/// The hexadecimal rendering of a byte sequence, two digits per byte.
pub open spec fn hex_of(b: Seq<u8>) -> Seq<char>
    decreases b.len(),
{
    if b.len() == 0 {
        Seq::empty()
    } else {
        hex_of(b.drop_last()).push(spec_hex_digit(b.last() / 16)).push(
            spec_hex_digit(b.last() % 16))
    }
}

/// Rendering one more byte appends its two digits.
proof fn lemma_hex_of_push(b: Seq<u8>, x: u8)
    ensures
        hex_of(b.push(x)) == hex_of(b).push(spec_hex_digit(x / 16)).push(spec_hex_digit(x % 16)),
{
    assert(b.push(x).drop_last() =~= b);
}

/// Replacing the entry at `i` (same container id) leaves every other
/// container's presence and image unchanged.
proof fn lemma_entries_updated(s1: StorageManager, s0: StorageManager, i: int)
    requires
        s0.wf(),
        0 <= i < s0.containers@.len(),
        s1.containers@.len() == s0.containers@.len(),
        s1.containers@[i].0 == s0.containers@[i].0,
        s1.containers@[i].1.container_id == s1.containers@[i].0,
        s1.containers@[i].1.wf(),
        forall|k: int|
            0 <= k < s0.containers@.len() && k != i
                ==> #[trigger] s1.containers@[k] == s0.containers@[k],
    ensures
        s1.wf(),
        forall|cid: ContainerId| sm_has(s1, cid) == sm_has(s0, cid),
        forall|cid: ContainerId|
            cid != s0.containers@[i].0 && sm_has(s0, cid)
                ==> sm_image(s1, cid) == sm_image(s0, cid),
        sm_image(s1, s0.containers@[i].0) == s1.containers@[i].1@,
        forall|vid: ValueId|
            vid.container_id != s0.containers@[i].0
                ==> sm_value(s1, vid) == sm_value(s0, vid),
{
    assert forall|a: int, b: int| 0 <= a < b < s1.containers@.len()
        implies (#[trigger] s1.containers@[a]).0 != (#[trigger] s1.containers@[b]).0 by {
        assert(s1.containers@[a].0 == s0.containers@[a].0);
        assert(s1.containers@[b].0 == s0.containers@[b].0);
    }
    assert forall|cid: ContainerId| sm_has(s1, cid) == sm_has(s0, cid) by {
        if sm_has(s1, cid) {
            let k = choose|k: int|
                0 <= k < s1.containers@.len() && (#[trigger] s1.containers@[k]).0 == cid;
            assert(s0.containers@[k].0 == cid);
        }
        if sm_has(s0, cid) {
            let k = choose|k: int|
                0 <= k < s0.containers@.len() && (#[trigger] s0.containers@[k]).0 == cid;
            assert(s1.containers@[k].0 == cid);
        }
    }
    assert forall|cid: ContainerId| cid != s0.containers@[i].0 && sm_has(s0, cid)
        implies sm_image(s1, cid) == sm_image(s0, cid) by {
        let k0 = choose|k: int|
            0 <= k < s0.containers@.len() && (#[trigger] s0.containers@[k]).0 == cid;
        let k1 = choose|k: int|
            0 <= k < s1.containers@.len() && (#[trigger] s1.containers@[k]).0 == cid;
        assert(s1.containers@[k1].0 == s0.containers@[k1].0);
        if k0 != k1 {
            assert(s0.containers@[k0].0 != s0.containers@[k1].0);
        }
        assert(k1 != i);
    }
    s1.lemma_image_at(i);
}

/// Appending an entry for a fresh container id adds that container and
/// leaves the rest unchanged.
proof fn lemma_entries_pushed(s1: StorageManager, s0: StorageManager, cid_new: ContainerId)
    requires
        s0.wf(),
        !sm_has(s0, cid_new),
        s1.containers@.len() == s0.containers@.len() + 1,
        s1.containers@[s0.containers@.len() as int].0 == cid_new,
        s1.containers@[s0.containers@.len() as int].1.container_id == cid_new,
        s1.containers@[s0.containers@.len() as int].1.wf(),
        forall|k: int|
            0 <= k < s0.containers@.len()
                ==> #[trigger] s1.containers@[k] == s0.containers@[k],
    ensures
        s1.wf(),
        forall|cid: ContainerId| sm_has(s1, cid) == (sm_has(s0, cid) || cid == cid_new),
        forall|cid: ContainerId|
            cid != cid_new && sm_has(s0, cid) ==> sm_image(s1, cid) == sm_image(s0, cid),
        sm_image(s1, cid_new) == s1.containers@[s0.containers@.len() as int].1@,
        forall|vid: ValueId|
            vid.container_id != cid_new ==> sm_value(s1, vid) == sm_value(s0, vid),
{
    let n0 = s0.containers@.len() as int;
    assert forall|a: int, b: int| 0 <= a < b < s1.containers@.len()
        implies (#[trigger] s1.containers@[a]).0 != (#[trigger] s1.containers@[b]).0 by {
        if b < n0 {
            assert(s1.containers@[a] == s0.containers@[a]);
            assert(s1.containers@[b] == s0.containers@[b]);
        } else {
            assert(s1.containers@[a] == s0.containers@[a]);
            if s0.containers@[a].0 == cid_new {
                assert(sm_has(s0, cid_new));
            }
        }
    }
    assert forall|cid: ContainerId| sm_has(s1, cid) == (sm_has(s0, cid) || cid == cid_new) by {
        if sm_has(s1, cid) {
            let k = choose|k: int|
                0 <= k < s1.containers@.len() && (#[trigger] s1.containers@[k]).0 == cid;
            if k < n0 {
                assert(s0.containers@[k].0 == cid);
            }
        }
        if sm_has(s0, cid) {
            let k = choose|k: int|
                0 <= k < s0.containers@.len() && (#[trigger] s0.containers@[k]).0 == cid;
            assert(s1.containers@[k].0 == cid);
        }
        if cid == cid_new {
            assert(s1.containers@[n0].0 == cid);
        }
    }
    assert forall|cid: ContainerId| cid != cid_new && sm_has(s0, cid)
        implies sm_image(s1, cid) == sm_image(s0, cid) by {
        let k0 = choose|k: int|
            0 <= k < s0.containers@.len() && (#[trigger] s0.containers@[k]).0 == cid;
        let k1 = choose|k: int|
            0 <= k < s1.containers@.len() && (#[trigger] s1.containers@[k]).0 == cid;
        if k1 < n0 && k0 != k1 {
            assert(s0.containers@[k0].0 != s0.containers@[k1].0);
        }
        assert(k1 < n0);
    }
    s1.lemma_image_at(n0);
}

/// Removing the entry at `i` drops exactly that container.
proof fn lemma_entries_removed(s1: StorageManager, s0: StorageManager, i: int)
    requires
        s0.wf(),
        0 <= i < s0.containers@.len(),
        s1.containers@ == s0.containers@.remove(i),
    ensures
        s1.wf(),
        forall|cid: ContainerId|
            sm_has(s1, cid) == (sm_has(s0, cid) && cid != s0.containers@[i].0),
        forall|cid: ContainerId|
            cid != s0.containers@[i].0 && sm_has(s0, cid)
                ==> sm_image(s1, cid) == sm_image(s0, cid),
        forall|vid: ValueId|
            vid.container_id != s0.containers@[i].0 ==> sm_value(s1, vid) == sm_value(s0, vid),
{
    let n0 = s0.containers@.len() as int;
    let rm = s0.containers@[i].0;
    assert forall|k: int| 0 <= k < s1.containers@.len()
        implies #[trigger] s1.containers@[k] == (if k < i {
            s0.containers@[k]
        } else {
            s0.containers@[k + 1]
        }) by {}
    assert forall|a: int, b: int| 0 <= a < b < s1.containers@.len()
        implies (#[trigger] s1.containers@[a]).0 != (#[trigger] s1.containers@[b]).0 by {}
    assert forall|k: int| 0 <= k < s1.containers@.len()
        implies (#[trigger] s1.containers@[k]).1.wf()
            && s1.containers@[k].1.container_id == s1.containers@[k].0 by {}
    assert forall|cid: ContainerId|
        sm_has(s1, cid) == (sm_has(s0, cid) && cid != rm) by {
        if sm_has(s1, cid) {
            let k = choose|k: int|
                0 <= k < s1.containers@.len() && (#[trigger] s1.containers@[k]).0 == cid;
            if k < i {
                assert(s0.containers@[k].0 == cid);
                if cid == rm {
                    assert(s0.containers@[k].0 == s0.containers@[i].0);
                    assert(k != i);
                    assert(false);
                }
            } else {
                assert(s0.containers@[k + 1].0 == cid);
                if cid == rm {
                    assert(k + 1 != i);
                    assert(false);
                }
            }
        }
        if sm_has(s0, cid) && cid != rm {
            let k = choose|k: int|
                0 <= k < s0.containers@.len() && (#[trigger] s0.containers@[k]).0 == cid;
            assert(k != i);
            if k < i {
                assert(s1.containers@[k].0 == cid);
            } else {
                assert(s1.containers@[k - 1].0 == cid);
            }
        }
    }
    assert forall|cid: ContainerId| cid != rm && sm_has(s0, cid)
        implies sm_image(s1, cid) == sm_image(s0, cid) by {
        let k0 = choose|k: int|
            0 <= k < s0.containers@.len() && (#[trigger] s0.containers@[k]).0 == cid;
        let k1 = choose|k: int|
            0 <= k < s1.containers@.len() && (#[trigger] s1.containers@[k]).0 == cid;
        let k1o: int = if k1 < i { k1 } else { k1 + 1 };
        assert(s0.containers@[k1o].0 == cid);
        if k0 != k1o {
            assert(s0.containers@[k0].0 != s0.containers@[k1o].0);
        }
    }
}

} // verus!
