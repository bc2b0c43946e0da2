//! Lazy scan of every live value in a heap file: pages in ascending logical
//! page-id order, and within each page the live slots in ascending slot-id
//! order. Each step yields the payload bytes together with the value id
//! naming them.

use vstd::prelude::*;
use crate::ids::{ContainerId, PageId, SlotId, TransactionId, ValueId};
use crate::page::{page_items, spec_deser};
use crate::heapfile::{HeapFile, chunk, num_chunks, spec_locate, image_dense, lemma_locate_found};

verus! {

/// The page with logical id `pid`, as stored in the image.
pub open spec fn page_at(img: Seq<u8>, pid: int) -> crate::page::PageV {
    spec_deser(chunk(img, spec_locate(img, pid as u16)->0))
}

/// The items of the page with logical id `pid`, tagged with their value ids.
pub open spec fn hf_layer(img: Seq<u8>, cid: ContainerId, pid: int) -> Seq<(Seq<u8>, ValueId)> {
    page_items(page_at(img, pid)).map(
        |_i: int, it: (Seq<u8>, SlotId)|
            (it.0, ValueId { container_id: cid, page_id: Some(pid as u16), slot_id: Some(it.1) }),
    )
}

/// The items of the pages with logical ids below `p`, concatenated in
/// ascending page-id order.
pub open spec fn hf_items_prefix(img: Seq<u8>, cid: ContainerId, p: int) -> Seq<(Seq<u8>, ValueId)>
    decreases p,
{
    if p <= 0 {
        Seq::empty()
    } else {
        hf_items_prefix(img, cid, p - 1) + hf_layer(img, cid, p - 1)
    }
}

/// Every live value in the heap file, in page-id then slot-id order.
pub open spec fn hf_items(img: Seq<u8>, cid: ContainerId) -> Seq<(Seq<u8>, ValueId)> {
    hf_items_prefix(img, cid, num_chunks(img))
}

/// A later prefix extends an earlier one and agrees with it.
proof fn lemma_prefix_extends(img: Seq<u8>, cid: ContainerId, p: int, q: int)
    requires
        0 <= p <= q,
    ensures
        hf_items_prefix(img, cid, p).len() <= hf_items_prefix(img, cid, q).len(),
        forall|m: int|
            0 <= m < hf_items_prefix(img, cid, p).len()
                ==> #[trigger] hf_items_prefix(img, cid, q)[m] == hf_items_prefix(img, cid, p)[m],
    decreases q - p,
{
    if p < q {
        lemma_prefix_extends(img, cid, p, q - 1);
    }
}

/// Position of a page item within the whole scan: item `k` of the page with
/// logical id `p` stands at offset `k` past the prefix of earlier pages.
proof fn lemma_hf_items_index(img: Seq<u8>, cid: ContainerId, p: int, k: int)
    requires
        0 <= p < num_chunks(img),
        0 <= k < hf_layer(img, cid, p).len(),
    ensures
        hf_items_prefix(img, cid, p).len() + k < hf_items(img, cid).len(),
        hf_items(img, cid)[hf_items_prefix(img, cid, p).len() + k] == hf_layer(img, cid, p)[k],
{
    assert(hf_items_prefix(img, cid, p + 1)
        == hf_items_prefix(img, cid, p) + hf_layer(img, cid, p));
    lemma_prefix_extends(img, cid, p + 1, num_chunks(img));
}

/// Iterator over every live value of one heap file.
pub struct HeapFileIterator {
    pub tid: TransactionId,
    pub hf: HeapFile,
    pub curr_pid: PageId,
    pub curr_rec: SlotId,
}

impl HeapFileIterator {
    /// Iterator invariant: a well-formed, dense file, the cursor within
    /// range, and the record index within the current page.
    pub open spec fn wf(self) -> bool {
        &&& self.hf.wf()
        &&& image_dense(self.hf@)
        &&& self.curr_pid <= num_chunks(self.hf@)
        &&& self.curr_pid < num_chunks(self.hf@)
            ==> self.curr_rec <= hf_layer(self.hf@, self.hf.container_id, self.curr_pid as int).len()
        &&& self.curr_pid == num_chunks(self.hf@) ==> self.curr_rec == 0
    }

    /// The full sequence this iterator yields.
    pub open spec fn items(self) -> Seq<(Seq<u8>, ValueId)> {
        hf_items(self.hf@, self.hf.container_id)
    }

    /// How many items have been yielded so far.
    pub open spec fn pos(self) -> int {
        hf_items_prefix(self.hf@, self.hf.container_id, self.curr_pid as int).len()
            + self.curr_rec
    }

    /// Start a scan of the given heap file at its first page.
    pub fn new(tid: TransactionId, hf: HeapFile) -> (it: HeapFileIterator)
        requires
            hf.wf(),
            image_dense(hf@),
        ensures
            it.wf(),
            it.pos() == 0,
            it.items() == hf_items(hf@, hf.container_id),
            it.tid == tid,
    {
        HeapFileIterator { tid, hf, curr_pid: 0, curr_rec: 0 }
    }

    /// Yield the next live value and its value id, advancing to the next
    /// page when the current one is exhausted.
    pub fn next(&mut self) -> (r: Option<(Vec<u8>, ValueId)>)
        requires
            old(self).wf(),
        ensures
            final(self).wf(),
            final(self).hf == old(self).hf,
            final(self).items() == old(self).items(),
            match r {
                Some(item) => {
                    &&& old(self).pos() < old(self).items().len()
                    &&& (item.0@, item.1) == old(self).items()[old(self).pos()]
                    &&& final(self).pos() == old(self).pos() + 1
                },
                None => {
                    &&& old(self).pos() == old(self).items().len()
                    &&& final(self).pos() == old(self).pos()
                },
            },
    {
        let ghost img = self.hf@;
        let ghost cid = self.hf.container_id;
        let n = self.hf.num_pages();
        loop
            invariant
                self.wf(),
                self.hf == old(self).hf,
                self.tid == old(self).tid,
                img == self.hf@,
                cid == self.hf.container_id,
                n == num_chunks(img),
                self.pos() == old(self).pos(),
            decreases n - self.curr_pid, hf_layer(img, cid, self.curr_pid as int).len()
                - self.curr_rec,
        {
            if self.curr_pid >= n {
                return None;
            }
            proof {
                assert(spec_locate(img, self.curr_pid) is Some);
                lemma_locate_found(img, self.curr_pid, 0);
            }
            let page = match self.hf.read_page_from_file(self.curr_pid) {
                Ok(p) => p,
                Err(_) => {
                    proof {
                        assert(false);
                    }
                    return None;
                },
            };
            let k = self.curr_rec as usize;
            match page.get_item(k) {
                Some(item) => {
                    proof {
                        lemma_hf_items_index(img, cid, self.curr_pid as int, k as int);
                    }
                    let vid = ValueId {
                        container_id: self.hf.container_id,
                        page_id: Some(self.curr_pid),
                        slot_id: Some(item.1),
                    };
                    self.curr_rec = self.curr_rec + 1;
                    return Some((item.0, vid));
                },
                None => {
                    proof {
                        assert(self.curr_rec == hf_layer(img, cid, self.curr_pid as int).len());
                        assert(hf_items_prefix(img, cid, self.curr_pid as int + 1)
                            == hf_items_prefix(img, cid, self.curr_pid as int)
                                + hf_layer(img, cid, self.curr_pid as int));
                    }
                    self.curr_pid = self.curr_pid + 1;
                    self.curr_rec = 0;
                },
            }
        }
    }
}

} // verus!
