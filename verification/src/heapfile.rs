//! A heap file: the pages of one container, held as a byte image whose
//! length is an exact multiple of the page size. On disk a heap file is the
//! concatenation of serialized pages; a page's position in the file is not
//! its logical page id, so reads and writes locate pages by the id embedded
//! in each page's header.

use vstd::prelude::*;
use crate::PAGE_SIZE;
use crate::ids::{ContainerId, PageId, CrustyError};
use crate::ids::SlotId;
use crate::page::{Page, PageV, parseable, spec_deser, spec_ser, page_wf, lemma_ser_parseable,
    lemma_page_round_trip, value_of};
use crate::seq_util::{lemma_take_push, lemma_subrange_eq};

verus! {

/// The bytes of the `i`-th page-sized chunk of an image.
pub open spec fn chunk(img: Seq<u8>, i: int) -> Seq<u8> {
    img.subrange(i * (PAGE_SIZE as int), (i + 1) * (PAGE_SIZE as int))
}

/// How many page-sized chunks an image holds.
pub open spec fn num_chunks(img: Seq<u8>) -> int {
    img.len() as int / (PAGE_SIZE as int)
}

/// A well-formed image: a whole number of pages, countable in a `PageId`,
/// each chunk a well-formed serialized page.
pub open spec fn image_wf(img: Seq<u8>) -> bool {
    &&& img.len() as int % (PAGE_SIZE as int) == 0
    &&& num_chunks(img) <= u16::MAX
    &&& forall|i: int| 0 <= i < num_chunks(img) ==> parseable(#[trigger] chunk(img, i))
}

/// The logical page id recorded in the `i`-th chunk.
pub open spec fn chunk_page_id(img: Seq<u8>, i: int) -> PageId {
    spec_deser(chunk(img, i)).page_id
}

/// Position of the first chunk carrying logical page id `pid`, searching
/// from position `from` upward.
pub open spec fn locate_from(img: Seq<u8>, pid: PageId, from: int) -> Option<int>
    decreases num_chunks(img) - from,
{
    if from < 0 || from >= num_chunks(img) {
        None
    } else if chunk_page_id(img, from) == pid {
        Some(from)
    } else {
        locate_from(img, pid, from + 1)
    }
}

/// Position of the first chunk carrying logical page id `pid`, if any.
pub open spec fn spec_locate(img: Seq<u8>, pid: PageId) -> Option<int> {
    locate_from(img, pid, 0)
}

/// A found position carries the id looked for and is in range.
pub proof fn lemma_locate_found(img: Seq<u8>, pid: PageId, from: int)
    requires
        locate_from(img, pid, from) is Some,
    ensures
        from <= locate_from(img, pid, from)->0 < num_chunks(img),
        chunk_page_id(img, locate_from(img, pid, from)->0) == pid,
    decreases num_chunks(img) - from,
{
    if !(from < 0 || from >= num_chunks(img)) && chunk_page_id(img, from) != pid {
        lemma_locate_found(img, pid, from + 1);
    }
}

/// Locating by id depends only on the logical page ids of the chunks.
pub proof fn lemma_locate_same_ids(img1: Seq<u8>, img0: Seq<u8>, pid: PageId, from: int)
    requires
        num_chunks(img1) == num_chunks(img0),
        forall|k: int|
            0 <= k < num_chunks(img0) ==> chunk_page_id(img1, k) == chunk_page_id(img0, k),
    ensures
        locate_from(img1, pid, from) == locate_from(img0, pid, from),
    decreases num_chunks(img0) - from,
{
    if 0 <= from < num_chunks(img0) {
        lemma_locate_same_ids(img1, img0, pid, from + 1);
    }
}

/// Appending one chunk leaves every successful search unchanged, and lets a
/// failed search find the new chunk's id.
pub proof fn lemma_locate_append(img1: Seq<u8>, img0: Seq<u8>, pid: PageId, from: int)
    requires
        num_chunks(img1) == num_chunks(img0) + 1,
        forall|k: int|
            0 <= k < num_chunks(img0) ==> chunk_page_id(img1, k) == chunk_page_id(img0, k),
        0 <= from <= num_chunks(img0),
    ensures
        locate_from(img1, pid, from) == match locate_from(img0, pid, from) {
            Some(i) => Some(i),
            None => if chunk_page_id(img1, num_chunks(img0)) == pid {
                Some(num_chunks(img0))
            } else {
                None::<int>
            },
        },
    decreases num_chunks(img0) - from,
{
    if from < num_chunks(img0) {
        lemma_locate_append(img1, img0, pid, from + 1);
    } else {
        assert(locate_from(img1, pid, num_chunks(img0) + 1) is None);
    }
}

/// A failed search means no chunk from `from` on carries the id.
pub proof fn lemma_locate_none(img: Seq<u8>, pid: PageId, from: int)
    requires
        0 <= from,
        locate_from(img, pid, from) is None,
    ensures
        forall|k: int| from <= k < num_chunks(img) ==> #[trigger] chunk_page_id(img, k) != pid,
    decreases num_chunks(img) - from,
{
    if from < num_chunks(img) {
        lemma_locate_none(img, pid, from + 1);
    }
}

/// An image where every logical page id below the page count is present;
/// what sequential scans of a heap file rely on.
pub open spec fn image_dense(img: Seq<u8>) -> bool {
    forall|pid: PageId| pid < num_chunks(img) ==> #[trigger] spec_locate(img, pid) is Some
}

/// The bytes stored in an image under a (page id, slot id) pair: the value
/// in that slot of the first page carrying that logical id.
pub open spec fn img_value(img: Seq<u8>, pid: PageId, sid: SlotId) -> Option<Seq<u8>> {
    match spec_locate(img, pid) {
        Some(i) => value_of(spec_deser(chunk(img, i)), sid),
        None => None,
    }
}

/// Overwriting the chunk of page `pid` with a serialized well-formed page
/// carrying the same id changes exactly that page's values: every search and
/// every other page's values stay as they were.
pub proof fn lemma_overwrite_values(img1: Seq<u8>, img0: Seq<u8>, pid: PageId, pv: PageV)
    requires
        image_wf(img0),
        page_wf(pv),
        pv.page_id == pid,
        spec_locate(img0, pid) is Some,
        num_chunks(img1) == num_chunks(img0),
        chunk(img1, spec_locate(img0, pid)->0) == spec_ser(pv),
        forall|k: int|
            0 <= k < num_chunks(img0) && k != spec_locate(img0, pid)->0
                ==> #[trigger] chunk(img1, k) == chunk(img0, k),
    ensures
        forall|pid2: PageId| #[trigger] spec_locate(img1, pid2) == spec_locate(img0, pid2),
        forall|sid: SlotId| #[trigger] img_value(img1, pid, sid) == value_of(pv, sid),
        forall|pid2: PageId, sid: SlotId|
            pid2 != pid ==> #[trigger] img_value(img1, pid2, sid) == img_value(img0, pid2, sid),
{
    let loc = spec_locate(img0, pid)->0;
    lemma_locate_found(img0, pid, 0);
    lemma_ser_parseable(pv);
    lemma_page_round_trip(pv);
    assert forall|k: int| 0 <= k < num_chunks(img0)
        implies chunk_page_id(img1, k) == chunk_page_id(img0, k) by {
        if k == loc {
            assert(spec_deser(chunk(img1, k)).page_id == pid);
        }
    }
    assert forall|pid2: PageId| #[trigger] spec_locate(img1, pid2) == spec_locate(img0, pid2) by {
        lemma_locate_same_ids(img1, img0, pid2, 0);
    }
    assert forall|pid2: PageId, sid: SlotId| pid2 != pid
        implies #[trigger] img_value(img1, pid2, sid) == img_value(img0, pid2, sid) by {
        if spec_locate(img0, pid2) is Some {
            let j = spec_locate(img0, pid2)->0;
            lemma_locate_found(img0, pid2, 0);
            assert(j != loc);
            assert(chunk(img1, j) == chunk(img0, j));
        }
    }
}

/// Appending a serialized well-formed page with a fresh logical id leaves
/// every existing page searchable and unchanged, and makes the new page's
/// values available under its id.
#[verifier::rlimit(100)]
pub proof fn lemma_append_values(img1: Seq<u8>, img0: Seq<u8>, pv: PageV)
    requires
        image_wf(img0),
        page_wf(pv),
        spec_locate(img0, pv.page_id) is None,
        num_chunks(img1) == num_chunks(img0) + 1,
        chunk(img1, num_chunks(img0)) == spec_ser(pv),
        forall|k: int|
            0 <= k < num_chunks(img0) ==> #[trigger] chunk(img1, k) == chunk(img0, k),
    ensures
        spec_locate(img1, pv.page_id) == Some(num_chunks(img0)),
        forall|pid2: PageId|
            pid2 != pv.page_id ==> #[trigger] spec_locate(img1, pid2) == spec_locate(img0, pid2),
        forall|sid: SlotId| #[trigger] img_value(img1, pv.page_id, sid) == value_of(pv, sid),
        forall|pid2: PageId, sid: SlotId|
            pid2 != pv.page_id
                ==> #[trigger] img_value(img1, pid2, sid) == img_value(img0, pid2, sid),
{
    let n0 = num_chunks(img0);
    lemma_ser_parseable(pv);
    lemma_page_round_trip(pv);
    assert forall|k: int| 0 <= k < n0
        implies chunk_page_id(img1, k) == chunk_page_id(img0, k) by {}
    assert(chunk_page_id(img1, n0) == pv.page_id);
    lemma_locate_append(img1, img0, pv.page_id, 0);
    assert forall|pid2: PageId| pid2 != pv.page_id
        implies #[trigger] spec_locate(img1, pid2) == spec_locate(img0, pid2) by {
        lemma_locate_append(img1, img0, pid2, 0);
        assert(chunk_page_id(img1, n0) != pid2);
    }
    assert forall|pid2: PageId, sid: SlotId| pid2 != pv.page_id
        implies #[trigger] img_value(img1, pid2, sid) == img_value(img0, pid2, sid) by {
        lemma_locate_append(img1, img0, pid2, 0);
        if spec_locate(img0, pid2) is Some {
            let j = spec_locate(img0, pid2)->0;
            lemma_locate_found(img0, pid2, 0);
            assert(chunk(img1, j) == chunk(img0, j));
        } else {
            assert(chunk_page_id(img1, n0) != pid2);
            assert(spec_locate(img1, pid2) is None);
        }
    }
}

/// A tidy image: every logical page id below the page count is present, and
/// no chunk carries an id at or above the count — the shape the storage
/// manager keeps its files in, with ids exactly `0 .. num_chunks`.
pub open spec fn image_tidy(img: Seq<u8>) -> bool {
    &&& image_dense(img)
    &&& forall|k: int|
        0 <= k < num_chunks(img) ==> (#[trigger] chunk_page_id(img, k)) < num_chunks(img)
}

/// In a tidy image the next fresh page id is absent.
pub proof fn lemma_tidy_fresh_id(img: Seq<u8>, pid: PageId)
    requires
        image_tidy(img),
        pid >= num_chunks(img),
    ensures
        spec_locate(img, pid) is None,
{
    if spec_locate(img, pid) is Some {
        lemma_locate_found(img, pid, 0);
    }
}

/// One container's pages, as an in-memory image of the container's file.
pub struct HeapFile {
    /// Id of the container this file backs.
    pub container_id: ContainerId,
    pub image: Vec<u8>,
}

impl View for HeapFile {
    type V = Seq<u8>;

    open spec fn view(&self) -> Seq<u8> {
        self.image@
    }
}

impl HeapFile {
    /// The heap file invariant: a well-formed image.
    pub open spec fn wf(self) -> bool {
        image_wf(self@)
    }

    /// The pages of the file, chunk by chunk.
    pub open spec fn pages(self) -> Seq<PageV> {
        Seq::new(num_chunks(self@) as nat, |i: int| spec_deser(chunk(self@, i)))
    }

    /// Create an empty heap file for a container.
    pub fn new(container_id: ContainerId) -> (hf: HeapFile)
        ensures
            hf.wf(),
            hf.container_id == container_id,
            hf@.len() == 0,
            num_chunks(hf@) == 0,
    {
        let hf = HeapFile { container_id, image: Vec::new() };
        proof {
            assert(hf@.len() == 0);
        }
        hf
    }

    /// Rebuild a heap file from the raw bytes of a container's file,
    /// checking that they form a whole number of well-formed pages whose
    /// logical page ids are exactly the ids below the page count — the shape
    /// the storage manager persists.
    pub fn from_image(container_id: ContainerId, bytes: Vec<u8>) -> (r: Option<HeapFile>)
        ensures
            r is Some <==> image_wf(bytes@) && image_tidy(bytes@),
            r is Some ==> r->0.wf() && r->0@ == bytes@ && r->0.container_id == container_id
                && image_tidy(r->0@),
    {
        if bytes.len() % PAGE_SIZE != 0 {
            return None;
        }
        let n = bytes.len() / PAGE_SIZE;
        if n > u16::MAX as usize {
            return None;
        }
        let mut i: usize = 0;
        while i < n
            invariant
                i <= n,
                n == num_chunks(bytes@),
                bytes@.len() == n * PAGE_SIZE,
                forall|k: int| 0 <= k < i ==> parseable(#[trigger] chunk(bytes@, k)),
            decreases n - i,
        {
            let c = copy_chunk(&bytes, i);
            if Page::try_from_bytes(&c).is_none() {
                return None;
            }
            i += 1;
        }

        // No chunk may carry a logical id at or above the page count.
        let blen = bytes.len();
        let mut k: usize = 0;
        while k < n
            invariant
                k <= n,
                n == num_chunks(bytes@),
                blen == bytes@.len(),
                bytes@.len() == n * PAGE_SIZE,
                forall|k2: int| 0 <= k2 < k ==> (#[trigger] chunk_page_id(bytes@, k2)) < n,
            decreases n - k,
        {
            let off = k * PAGE_SIZE;
            let id = crate::u16_from_le(bytes[off], bytes[off + 1]);
            proof {
                assert(bytes@[off as int] == chunk(bytes@, k as int)[0]);
                assert(bytes@[off as int + 1] == chunk(bytes@, k as int)[1]);
            }
            if id as usize >= n {
                proof {
                    assert(chunk_page_id(bytes@, k as int) >= num_chunks(bytes@));
                }
                return None;
            }
            k += 1;
        }

        // Every logical id below the page count must be present.
        let mut pid: usize = 0;
        while pid < n
            invariant
                pid <= n,
                n == num_chunks(bytes@),
                n <= u16::MAX,
                bytes@.len() == n * PAGE_SIZE,
                forall|p2: PageId| p2 < pid ==> #[trigger] spec_locate(bytes@, p2) is Some,
            decreases n - pid,
        {
            if !image_has_pid(&bytes, n, pid as u16) {
                return None;
            }
            pid += 1;
        }
        Some(HeapFile { container_id, image: bytes })
    }

    /// The raw bytes of the file, for persisting.
    pub fn image_bytes(&self) -> (r: &Vec<u8>)
        ensures
            r@ == self@,
    {
        &self.image
    }

    /// A copy of this heap file sharing no storage with it.
    pub fn duplicate(&self) -> (r: HeapFile)
        ensures
            r@ == self@,
            r.container_id == self.container_id,
    {
        let mut image: Vec<u8> = Vec::new();
        let mut i: usize = 0;
        let len = self.image.len();
        while i < len
            invariant
                i <= len,
                len == self@.len(),
                image@ =~= self@.take(i as int),
            decreases len - i,
        {
            image.push(self.image[i]);
            proof {
                lemma_take_push(self@, i as int);
            }
            i += 1;
        }
        proof {
            assert(image@ =~= self@);
        }
        HeapFile { container_id: self.container_id, image }
    }

    /// Number of pages in the file, derived from its length.
    pub fn num_pages(&self) -> (r: PageId)
        requires
            self.wf(),
        ensures
            r == num_chunks(self@),
    {
        proof {
            vstd::arithmetic::div_mod::lemma_fundamental_div_mod(self@.len() as int,
                PAGE_SIZE as int);
        }
        (self.image.len() / PAGE_SIZE) as u16
    }

    /// Read the page with logical id `pid`, scanning the file one page at a
    /// time and decoding each header. Whenever it succeeds, the returned
    /// page carries the id that was asked for. Fails exactly when no page in
    /// the file carries that id.
    pub fn read_page_from_file(&self, pid: PageId) -> (r: Result<Page, CrustyError>)
        requires
            self.wf(),
        ensures
            match r {
                Ok(p) => {
                    &&& spec_locate(self@, pid) is Some
                    &&& p.wf()
                    &&& p@ == spec_deser(chunk(self@, spec_locate(self@, pid)->0))
                    &&& p@.page_id == pid
                },
                Err(e) => spec_locate(self@, pid) is None && e == CrustyError::PageNotFound,
            },
    {
        let n = self.num_pages() as usize;
        let mut i: usize = 0;
        while i < n
            invariant
                i <= n,
                self.wf(),
                n == num_chunks(self@),
                spec_locate(self@, pid) == locate_from(self@, pid, i as int),
            decreases n - i,
        {
            let c = copy_chunk(&self.image, i);
            let id = crate::u16_from_le(c[0], c[1]);
            if id == pid {
                let p = Page::from_bytes(&c);
                return Ok(p);
            }
            i += 1;
        }
        Err(CrustyError::PageNotFound)
    }

    /// Write a page into the file: overwrite the first page carrying the
    /// same logical id, or append the page when no page carries it.
    #[verifier::rlimit(100)]
    pub fn write_page_to_file(&mut self, page: Page) -> (r: Result<(), CrustyError>)
        requires
            old(self).wf(),
            page.wf(),
            spec_locate(old(self)@, page@.page_id) is None ==> num_chunks(old(self)@) < u16::MAX,
        ensures
            final(self).wf(),
            final(self).container_id == old(self).container_id,
            r is Ok,
            match spec_locate(old(self)@, page@.page_id) {
                Some(i) => {
                    &&& num_chunks(final(self)@) == num_chunks(old(self)@)
                    &&& chunk(final(self)@, i) == spec_ser(page@)
                    &&& forall|k: int|
                        0 <= k < num_chunks(old(self)@) && k != i
                            ==> #[trigger] chunk(final(self)@, k) == chunk(old(self)@, k)
                },
                None => {
                    &&& num_chunks(final(self)@) == num_chunks(old(self)@) + 1
                    &&& chunk(final(self)@, num_chunks(old(self)@)) == spec_ser(page@)
                    &&& forall|k: int|
                        0 <= k < num_chunks(old(self)@)
                            ==> #[trigger] chunk(final(self)@, k) == chunk(old(self)@, k)
                },
            },
    {
        proof {
            lemma_ser_parseable(page@);
        }
        let bytes = page.to_bytes();
        let n = self.num_pages() as usize;
        let ghost img0 = self@;
        let mut i: usize = 0;
        while i < n
            invariant
                i <= n,
                self.wf(),
                self@ == img0,
                img0 == old(self)@,
                self.container_id == old(self).container_id,
                n == num_chunks(self@),
                bytes@ == spec_ser(page@),
                bytes@.len() == PAGE_SIZE,
                parseable(bytes@),
                spec_locate(self@, page@.page_id) == locate_from(self@, page@.page_id, i as int),
            decreases n - i,
        {
            let off = i * PAGE_SIZE;
            let id = crate::u16_from_le(self.image[off], self.image[off + 1]);
            proof {
                assert(self@[off as int] == chunk(img0, i as int)[0]);
                assert(self@[off as int + 1] == chunk(img0, i as int)[1]);
            }
            if id == page.get_page_id() {
                overwrite_chunk(&mut self.image, i, &bytes);
                proof {
                    assert(chunk_page_id(img0, i as int) == page@.page_id);
                    assert(locate_from(img0, page@.page_id, i as int) == Some(i as int));
                    lemma_write_chunk(self@, img0, i as int, bytes@);
                }
                return Ok(());
            }
            i += 1;
        }
        // Append at the end of the file.
        let ghost pre = self@;
        let mut j: usize = 0;
        while j < PAGE_SIZE
            invariant
                j <= PAGE_SIZE,
                bytes@.len() == PAGE_SIZE,
                self.container_id == old(self).container_id,
                self@ =~= pre + bytes@.take(j as int),
            decreases PAGE_SIZE - j,
        {
            self.image.push(bytes[j]);
            proof {
                lemma_take_push(bytes@, j as int);
                assert(self@ =~= pre + bytes@.take(j as int + 1));
            }
            j += 1;
        }
        proof {
            assert(self@ =~= pre + bytes@);
            lemma_append_chunk(self@, pre, bytes@);
        }
        Ok(())
    }
}

/// Overwrite the `i`-th page-sized chunk of an image in place.
fn overwrite_chunk(image: &mut Vec<u8>, i: usize, bytes: &Vec<u8>)
    requires
        (i + 1) * PAGE_SIZE <= old(image)@.len(),
        bytes@.len() == PAGE_SIZE,
    ensures
        final(image)@.len() == old(image)@.len(),
        forall|k: int|
            0 <= k < PAGE_SIZE ==> final(image)@[i * (PAGE_SIZE as int) + k] == bytes@[k],
        forall|k: int|
            0 <= k < old(image)@.len() && !(i * (PAGE_SIZE as int) <= k < i * (PAGE_SIZE as int)
                + PAGE_SIZE) ==> final(image)@[k] == old(image)@[k],
{
    let len = image.len();
    let off = i * PAGE_SIZE;
    let mut j: usize = 0;
    while j < PAGE_SIZE
        invariant
            j <= PAGE_SIZE,
            off == i * PAGE_SIZE,
            off + PAGE_SIZE <= len,
            len == image@.len(),
            len == old(image)@.len(),
            bytes@.len() == PAGE_SIZE,
            forall|k: int| 0 <= k < j ==> image@[off + k] == bytes@[k],
            forall|k: int|
                0 <= k < old(image)@.len() && !(off <= k < off + j)
                    ==> image@[k] == old(image)@[k],
        decreases PAGE_SIZE - j,
    {
        image[off + j] = bytes[j];
        j += 1;
    }
}

/// Whether some chunk of the image carries the given logical page id.
fn image_has_pid(bytes: &Vec<u8>, n: usize, pid: PageId) -> (r: bool)
    requires
        n == num_chunks(bytes@),
        bytes@.len() == n * PAGE_SIZE,
    ensures
        r == (spec_locate(bytes@, pid) is Some),
{
    let blen = bytes.len();
    let mut k: usize = 0;
    while k < n
        invariant
            k <= n,
            n == num_chunks(bytes@),
            blen == bytes@.len(),
            bytes@.len() == n * PAGE_SIZE,
            spec_locate(bytes@, pid) == locate_from(bytes@, pid, k as int),
        decreases n - k,
    {
        let off = k * PAGE_SIZE;
        let id = crate::u16_from_le(bytes[off], bytes[off + 1]);
        proof {
            assert(bytes@[off as int] == chunk(bytes@, k as int)[0]);
            assert(bytes@[off as int + 1] == chunk(bytes@, k as int)[1]);
        }
        if id == pid {
            return true;
        }
        k += 1;
    }
    false
}

/// Copy the `i`-th page-sized chunk of an image into a fresh vector.
fn copy_chunk(image: &Vec<u8>, i: usize) -> (r: Vec<u8>)
    requires
        (i + 1) * PAGE_SIZE <= image@.len(),
    ensures
        r@ == chunk(image@, i as int),
        r@.len() == PAGE_SIZE,
{
    let len = image.len();
    let off = i * PAGE_SIZE;
    let mut r: Vec<u8> = Vec::new();
    let mut j: usize = 0;
    while j < PAGE_SIZE
        invariant
            j <= PAGE_SIZE,
            off == i * PAGE_SIZE,
            off + PAGE_SIZE <= image@.len(),
            r@ =~= image@.subrange(off as int, off as int + j as int),
        decreases PAGE_SIZE - j,
    {
        r.push(image[off + j]);
        proof {
            assert(image@.subrange(off as int, off as int + j as int + 1)
                =~= image@.subrange(off as int, off as int + j as int).push(
                    image@[off as int + j as int]));
        }
        j += 1;
    }
    proof {
        assert(r@ =~= chunk(image@, i as int));
    }
    r
}

/// Overwriting the bytes of one chunk leaves every other chunk unchanged.
proof fn lemma_write_chunk(img1: Seq<u8>, img0: Seq<u8>, i: int, bytes: Seq<u8>)
    requires
        img1.len() == img0.len(),
        image_wf(img0),
        0 <= i < num_chunks(img0),
        bytes.len() == PAGE_SIZE,
        parseable(bytes),
        forall|k: int| 0 <= k < PAGE_SIZE ==> img1[i * (PAGE_SIZE as int) + k] == bytes[k],
        forall|k: int|
            0 <= k < img1.len() && !(i * (PAGE_SIZE as int) <= k < i * (PAGE_SIZE as int)
                + PAGE_SIZE) ==> img1[k] == img0[k],
    ensures
        image_wf(img1),
        num_chunks(img1) == num_chunks(img0),
        chunk(img1, i) == bytes,
        forall|k: int|
            0 <= k < num_chunks(img0) && k != i
                ==> #[trigger] chunk(img1, k) == chunk(img0, k),
{
    assert(chunk(img1, i) =~= bytes);
    assert forall|k: int| 0 <= k < num_chunks(img0) && k != i
        implies #[trigger] chunk(img1, k) == chunk(img0, k) by {
        assert forall|m: int| k * (PAGE_SIZE as int) <= m < (k + 1) * (PAGE_SIZE as int)
            implies img1[m] == img0[m] by {
            if k < i {
                assert((k + 1) * (PAGE_SIZE as int) <= i * (PAGE_SIZE as int));
            } else {
                assert((i + 1) * (PAGE_SIZE as int) <= k * (PAGE_SIZE as int));
            }
        }
        assert(chunk(img1, k) =~= chunk(img0, k));
    }
    assert forall|k: int| 0 <= k < num_chunks(img1)
        implies parseable(#[trigger] chunk(img1, k)) by {
        if k != i {
            assert(chunk(img1, k) == chunk(img0, k));
        }
    }
}

/// Appending one serialized page extends the image by one chunk and leaves
/// the existing chunks unchanged.
proof fn lemma_append_chunk(img1: Seq<u8>, img0: Seq<u8>, bytes: Seq<u8>)
    requires
        image_wf(img0),
        num_chunks(img0) < u16::MAX,
        bytes.len() == PAGE_SIZE,
        parseable(bytes),
        img1 == img0 + bytes,
    ensures
        image_wf(img1),
        num_chunks(img1) == num_chunks(img0) + 1,
        chunk(img1, num_chunks(img0)) == bytes,
        forall|k: int|
            0 <= k < num_chunks(img0) ==> #[trigger] chunk(img1, k) == chunk(img0, k),
{
    let ps = PAGE_SIZE as int;
    let n0 = num_chunks(img0);
    vstd::arithmetic::div_mod::lemma_fundamental_div_mod(img0.len() as int, ps);
    assert(img0.len() == n0 * ps);
    assert(img1.len() == n0 * ps + ps);
    assert(img1.len() == (n0 + 1) * ps) by (nonlinear_arith)
        requires img1.len() == n0 * ps + ps;
    vstd::arithmetic::div_mod::lemma_fundamental_div_mod_converse(
        img1.len() as int, ps, n0 + 1, 0);
    assert(num_chunks(img1) == n0 + 1);
    assert(chunk(img1, n0) =~= bytes);
    assert forall|k: int| 0 <= k < n0
        implies #[trigger] chunk(img1, k) == chunk(img0, k) by {
        assert forall|m: int| k * ps <= m < (k + 1) * ps implies img1[m] == img0[m] by {
            assert((k + 1) * ps <= n0 * ps);
        }
        assert(chunk(img1, k) =~= chunk(img0, k));
    }
    assert forall|k: int| 0 <= k < num_chunks(img1)
        implies parseable(#[trigger] chunk(img1, k)) by {
        if k < n0 {
            assert(chunk(img1, k) == chunk(img0, k));
        } else {
            assert(chunk(img1, k) == bytes);
        }
    }
}

} // verus!
