//! The slotted page: a fixed-size byte region holding a directory of slots
//! and payloads packed from the high end downward.
//!
//! A page supports insert, lookup and delete of byte payloads, reclaims body
//! space on delete by compacting, and serializes deterministically into
//! exactly `PAGE_SIZE` bytes.

use vstd::prelude::*;
use crate::{PAGE_SIZE, FIXED_HEADER_SIZE, HEADER_PER_VAL_SIZE, u16_le, lo16, hi16};
use crate::{u16_from_le, u16_lo, u16_hi, lemma_u16_le_round_trip};
use crate::ids::{PageId, SlotId};
use crate::seq_util::{lemma_take_push, lemma_filter_push, lemma_filter_element_of,
    lemma_filter_take_index, lemma_filter_take_all, lemma_subrange_eq};

verus! {

/// One directory entry: a slot id together with the location of its payload.
/// `length == 0` marks a tombstone whose id may be reused; a tombstone is
/// kept in the normal form `(slot_id, 0, 0)`.
#[derive(Clone, Copy, Debug)]
pub struct SlotEntry {
    pub slot_id: SlotId,
    /// Index of the last payload byte; the payload occupies
    /// `[end_offset + 1 - length, end_offset + 1)`.
    pub end_offset: u16,
    pub length: u16,
}

/// First byte index of an entry's payload.
pub open spec fn entry_start(e: SlotEntry) -> int {
    e.end_offset + 1 - e.length
}

/// One past the last byte index of an entry's payload.
pub open spec fn entry_end(e: SlotEntry) -> int {
    e.end_offset + 1
}

/// Whether the entry holds a live payload (not a tombstone).
pub open spec fn is_live(e: SlotEntry) -> bool {
    e.length > 0
}

/// Directory entries are strictly ascending by slot id.
pub open spec fn dir_sorted(dir: Seq<SlotEntry>) -> bool {
    forall|i: int, j: int|
        0 <= i < j < dir.len() ==> dir[i].slot_id < dir[j].slot_id
}

/// Total bytes occupied by payloads: the sum of all entry lengths.
pub open spec fn used_of(dir: Seq<SlotEntry>) -> int
    decreases dir.len(),
{
    if dir.len() == 0 {
        0
    } else {
        used_of(dir.drop_last()) + dir.last().length
    }
}

/// A single entry is in range: tombstones are in normal form, and a live
/// payload lies inside the top `used` bytes of the page.
pub open spec fn entry_ok(e: SlotEntry, used: int) -> bool {
    if e.length == 0 {
        e.end_offset == 0
    } else {
        &&& entry_start(e) >= PAGE_SIZE - used
        &&& entry_end(e) <= PAGE_SIZE
    }
}

/// The payload regions of two entries do not overlap.
pub open spec fn entries_disjoint(e1: SlotEntry, e2: SlotEntry) -> bool {
    entry_end(e1) <= entry_start(e2) || entry_end(e2) <= entry_start(e1)
}

/// Well-formed directory: sorted, fitting in the page together with its
/// payloads, every entry in range, and live payloads pairwise disjoint.
pub open spec fn dir_wf(dir: Seq<SlotEntry>) -> bool {
    &&& dir_sorted(dir)
    &&& FIXED_HEADER_SIZE + HEADER_PER_VAL_SIZE * dir.len() + used_of(dir) <= PAGE_SIZE
    &&& forall|i: int| 0 <= i < dir.len() ==> entry_ok(#[trigger] dir[i], used_of(dir))
    &&& forall|i: int, j: int|
        #![trigger dir[i], dir[j]]
        0 <= i < j < dir.len() && is_live(dir[i]) && is_live(dir[j])
            ==> entries_disjoint(dir[i], dir[j])
}

/// Id of the first tombstone in directory order; with a sorted directory
/// this is the minimum tombstoned slot id.
pub open spec fn find_tombstone(dir: Seq<SlotEntry>) -> Option<SlotId>
    decreases dir.len(),
{
    if dir.len() == 0 {
        None
    } else if dir[0].length == 0 {
        Some(dir[0].slot_id)
    } else {
        find_tombstone(dir.drop_first())
    }
}

/// The slot id the next insert will use: the minimum tombstoned id if one
/// exists, else 0 on an empty directory, else one past the maximum id
/// whenever that is representable, else none (directory full).
pub open spec fn expected_open_slot(dir: Seq<SlotEntry>) -> Option<SlotId> {
    match find_tombstone(dir) {
        Some(s) => Some(s),
        None => if dir.len() == 0 {
            Some(0u16)
        } else if dir.last().slot_id < u16::MAX {
            Some((dir.last().slot_id + 1) as u16)
        } else {
            None
        },
    }
}

/// Whether some entry (live or tombstoned) carries the given slot id.
pub open spec fn slot_present(dir: Seq<SlotEntry>, sid: SlotId) -> bool {
    exists|i: int| 0 <= i < dir.len() && dir[i].slot_id == sid
}

/// Whether the entry at index `i` is live and carries slot id `sid`.
pub open spec fn live_at(dir: Seq<SlotEntry>, i: int, sid: SlotId) -> bool {
    &&& 0 <= i < dir.len()
    &&& dir[i].slot_id == sid
    &&& is_live(dir[i])
}

/// Mathematical model of a page.
pub struct PageV {
    pub page_id: PageId,
    pub open_slot: Option<SlotId>,
    pub dir: Seq<SlotEntry>,
    pub data: Seq<u8>,
}

/// Well-formed page model.
pub open spec fn page_wf(pv: PageV) -> bool {
    &&& pv.data.len() == PAGE_SIZE
    &&& dir_wf(pv.dir)
    &&& pv.open_slot == expected_open_slot(pv.dir)
}

/// The bytes stored under a slot id: the payload of the live entry carrying
/// that id, if one exists.
pub open spec fn value_of(pv: PageV, sid: SlotId) -> Option<Seq<u8>> {
    if exists|i: int| live_at(pv.dir, i, sid) {
        let i = choose|i: int| live_at(pv.dir, i, sid);
        Some(pv.data.subrange(entry_start(pv.dir[i]), entry_end(pv.dir[i])))
    } else {
        None
    }
}

/// Serialized header size of the model: the fixed bytes plus one entry each.
pub open spec fn spec_header_size(pv: PageV) -> int {
    FIXED_HEADER_SIZE + HEADER_PER_VAL_SIZE * pv.dir.len()
}

/// Free space of the model: what the header and the payloads leave over.
pub open spec fn spec_free_space(pv: PageV) -> int {
    PAGE_SIZE - spec_header_size(pv) - used_of(pv.dir)
}

/// Whether an insert of `len` bytes succeeds on this page: the length is
/// positive, a slot id is open, and the payload fits in the free space,
/// counting six further header bytes when the insert adds a new directory
/// entry rather than reusing a tombstoned one.
pub open spec fn spec_fits(pv: PageV, len: int) -> bool {
    &&& len > 0
    &&& pv.open_slot is Some
    &&& if slot_present(pv.dir, pv.open_slot->0) {
        len <= spec_free_space(pv)
    } else {
        len + HEADER_PER_VAL_SIZE <= spec_free_space(pv)
    }
}

/// In-memory page metadata: the page id, the slot id the next insert will
/// use, the slot directory, and the total bytes of live payloads.
pub struct Header {
    pub p_id: PageId,
    pub open_slot: Option<SlotId>,
    pub dir: Vec<SlotEntry>,
    pub used: u16,
}

/// In-memory slotted page: metadata plus the page's byte region. The first
/// `spec_header_size` bytes of `data` are dead storage (the header is
/// regenerated on serialization); payloads live in the top `used` bytes.
pub struct Page {
    pub header: Header,
    pub data: Vec<u8>,
}

impl View for Page {
    type V = PageV;

    open spec fn view(&self) -> PageV {
        PageV {
            page_id: self.header.p_id,
            open_slot: self.header.open_slot,
            dir: self.header.dir@,
            data: self.data@,
        }
    }
}

/// With a sorted directory a slot id has at most one entry, so any live
/// witness determines `value_of`.
pub proof fn lemma_value_of_witness(pv: PageV, i: int, sid: SlotId)
    requires
        dir_sorted(pv.dir),
        live_at(pv.dir, i, sid),
    ensures
        value_of(pv, sid)
            == Some(pv.data.subrange(entry_start(pv.dir[i]), entry_end(pv.dir[i]))),
{
    let j = choose|j: int| live_at(pv.dir, j, sid);
    if i != j {
        assert(pv.dir[i].slot_id != pv.dir[j].slot_id);
    }
}

/// With a sorted directory, distinct indices carry distinct slot ids, so a
/// slot id that is nowhere live has no value.
pub proof fn lemma_value_of_none(pv: PageV, sid: SlotId)
    requires
        forall|i: int| !live_at(pv.dir, i, sid),
    ensures
        value_of(pv, sid) is None,
{
}

impl Page {
    /// The page invariant: a well-formed model with the cached `used`
    /// matching the directory.
    pub open spec fn wf(self) -> bool {
        &&& page_wf(self@)
        &&& self.header.used == used_of(self.header.dir@)
    }

    /// Create an empty page with the given id.
    pub fn new(page_id: PageId) -> (p: Page)
        ensures
            p.wf(),
            p@.page_id == page_id,
            p@.open_slot == Some(0u16),
            p@.dir.len() == 0,
            p@.data == Seq::new(PAGE_SIZE as nat, |i: int| 0u8),
            forall|sid: SlotId| value_of(p@, sid) is None,
    {
        let mut data: Vec<u8> = Vec::new();
        let mut i: usize = 0;
        while i < PAGE_SIZE
            invariant
                i <= PAGE_SIZE,
                data@ =~= Seq::new(i as nat, |k: int| 0u8),
            decreases PAGE_SIZE - i,
        {
            data.push(0u8);
            i += 1;
        }
        let p = Page {
            header: Header { p_id: page_id, open_slot: Some(0u16), dir: Vec::new(), used: 0 },
            data,
        };
        assert(p@.data =~= Seq::new(PAGE_SIZE as nat, |k: int| 0u8));
        assert forall|sid: SlotId| value_of(p@, sid) is None by {
            lemma_value_of_none(p@, sid);
        }
        p
    }

    /// The page's logical id.
    pub fn get_page_id(&self) -> (r: PageId)
        ensures
            r == self@.page_id,
    {
        self.header.p_id
    }

    /// Size of the header when serialized: 8 fixed bytes plus 6 per
    /// directory entry.
    pub fn get_header_size(&self) -> (r: usize)
        requires
            self.wf(),
        ensures
            r == spec_header_size(self@),
    {
        proof {
            lemma_used_of_nonneg(self.header.dir@);
        }
        FIXED_HEADER_SIZE + HEADER_PER_VAL_SIZE * self.header.dir.len()
    }

    /// Free space of the page. Together with the header size and the bytes
    /// occupied by payloads it always accounts for the whole page:
    /// `free + header + used == PAGE_SIZE`.
    pub fn get_free_space(&self) -> (r: usize)
        requires
            self.wf(),
        ensures
            r == spec_free_space(self@),
            r + spec_header_size(self@) + used_of(self@.dir) == PAGE_SIZE,
    {
        proof {
            lemma_used_of_nonneg(self.header.dir@);
        }
        PAGE_SIZE - (FIXED_HEADER_SIZE + HEADER_PER_VAL_SIZE * self.header.dir.len())
            - self.header.used as usize
    }

    /// Index of the first free byte of the body region, scanning from the
    /// end of the page downward.
    pub fn helper_first_space(&self) -> (r: usize)
        requires
            self.wf(),
        ensures
            r == PAGE_SIZE - 1 - used_of(self@.dir),
    {
        proof {
            lemma_used_of_nonneg(self.header.dir@);
            lemma_used_of_bound(self.header.dir@);
        }
        (PAGE_SIZE - 1) - self.header.used as usize
    }

    /// Position of the directory entry carrying `sid`, if any.
    fn find_dir_index(&self, sid: SlotId) -> (r: Option<usize>)
        ensures
            match r {
                Some(p) => p < self@.dir.len() && self@.dir[p as int].slot_id == sid,
                None => !slot_present(self@.dir, sid),
            },
    {
        let n = self.header.dir.len();
        let mut i: usize = 0;
        while i < n
            invariant
                i <= n,
                n == self@.dir.len(),
                forall|k: int| 0 <= k < i ==> self@.dir[k].slot_id != sid,
            decreases n - i,
        {
            if self.header.dir[i].slot_id == sid {
                return Some(i);
            }
            i += 1;
        }
        None
    }

    /// The slot id the next insert will use, recomputed from the directory:
    /// the minimum tombstoned id if any tombstone exists, else one past the
    /// maximum id (0 on a fresh page), else none when the directory is full.
    pub fn find_next_slot(&self) -> (r: Option<SlotId>)
        ensures
            r == expected_open_slot(self@.dir),
    {
        next_slot_of(&self.header.dir)
    }
}

/// The slot id the next insert on a page with this directory will use.
fn next_slot_of(dir: &Vec<SlotEntry>) -> (r: Option<SlotId>)
    ensures
        r == expected_open_slot(dir@),
{
    let n = dir.len();
    let mut i: usize = 0;
    while i < n
        invariant
            i <= n,
            n == dir@.len(),
            forall|k: int| 0 <= k < i ==> #[trigger] dir@[k].length != 0,
        decreases n - i,
    {
        if dir[i].length == 0 {
            proof {
                lemma_find_tombstone_prefix(dir@, i as int);
            }
            return Some(dir[i].slot_id);
        }
        i += 1;
    }
    proof {
        lemma_find_tombstone_prefix(dir@, n as int);
    }
    if n == 0 {
        Some(0u16)
    } else {
        let max = dir[n - 1].slot_id;
        if max < u16::MAX {
            Some(max + 1)
        } else {
            None
        }
    }
}

/// `find_tombstone` is decided by the first tombstone: if the first `i`
/// entries are live, the search continues in the rest.
pub proof fn lemma_find_tombstone_prefix(dir: Seq<SlotEntry>, i: int)
    requires
        0 <= i <= dir.len(),
        forall|k: int| 0 <= k < i ==> #[trigger] dir[k].length != 0,
    ensures
        find_tombstone(dir) == if i < dir.len() && dir[i].length == 0 {
            Some(dir[i].slot_id)
        } else if i == dir.len() {
            None::<SlotId>
        } else {
            find_tombstone(dir)
        },
    decreases i,
{
    if i > 0 {
        lemma_find_tombstone_skip(dir, i);
    }
}

/// Skipping a live prefix does not change the tombstone search.
proof fn lemma_find_tombstone_skip(dir: Seq<SlotEntry>, i: int)
    requires
        0 <= i <= dir.len(),
        forall|k: int| 0 <= k < i ==> #[trigger] dir[k].length != 0,
    ensures
        find_tombstone(dir) == find_tombstone(dir.skip(i)),
    decreases i,
{
    if i > 0 {
        assert(dir.len() > 0);
        assert(dir[0].length != 0);
        lemma_find_tombstone_skip(dir.drop_first(), i - 1);
        assert(dir.drop_first().skip(i - 1) =~= dir.skip(i));
    } else {
        assert(dir.skip(0) =~= dir);
    }
}

/// The sum of entry lengths is nonnegative.
pub proof fn lemma_used_of_nonneg(dir: Seq<SlotEntry>)
    ensures
        used_of(dir) >= 0,
    decreases dir.len(),
{
    if dir.len() > 0 {
        lemma_used_of_nonneg(dir.drop_last());
    }
}

/// In a well-formed directory the payloads fit in the page.
pub proof fn lemma_used_of_bound(dir: Seq<SlotEntry>)
    requires
        dir_wf(dir),
    ensures
        used_of(dir) <= PAGE_SIZE - FIXED_HEADER_SIZE,
{
}

/// Updating one entry changes the sum of lengths by the difference in
/// lengths.
pub proof fn lemma_used_of_update(dir: Seq<SlotEntry>, p: int, e: SlotEntry)
    requires
        0 <= p < dir.len(),
    ensures
        used_of(dir.update(p, e)) == used_of(dir) - dir[p].length + e.length,
    decreases dir.len(),
{
    let d2 = dir.update(p, e);
    if p == dir.len() - 1 {
        assert(d2.drop_last() =~= dir.drop_last());
    } else {
        assert(d2.drop_last() =~= dir.drop_last().update(p, e));
        lemma_used_of_update(dir.drop_last(), p, e);
        assert(d2.last() == dir.last());
    }
}

/// Appending an entry adds its length to the sum.
pub proof fn lemma_used_of_push(dir: Seq<SlotEntry>, e: SlotEntry)
    ensures
        used_of(dir.push(e)) == used_of(dir) + e.length,
{
    assert(dir.push(e).drop_last() =~= dir);
}

/// The sum of lengths depends only on the lengths, pointwise.
pub proof fn lemma_used_of_pointwise(d1: Seq<SlotEntry>, d2: Seq<SlotEntry>)
    requires
        d1.len() == d2.len(),
        forall|i: int| 0 <= i < d1.len() ==> d1[i].length == #[trigger] d2[i].length,
    ensures
        used_of(d1) == used_of(d2),
    decreases d1.len(),
{
    if d1.len() > 0 {
        lemma_used_of_pointwise(d1.drop_last(), d2.drop_last());
    }
}

/// What the tombstone search says about the directory: a found id names a
/// tombstoned entry, and a miss means every entry is live.
pub proof fn lemma_find_tombstone_cases(dir: Seq<SlotEntry>)
    ensures
        match find_tombstone(dir) {
            Some(s) => exists|i: int|
                0 <= i < dir.len() && #[trigger] dir[i].slot_id == s && dir[i].length == 0,
            None => forall|i: int| 0 <= i < dir.len() ==> #[trigger] dir[i].length != 0,
        },
    decreases dir.len(),
{
    if dir.len() > 0 && dir[0].length != 0 {
        let d = dir.drop_first();
        lemma_find_tombstone_cases(d);
        match find_tombstone(d) {
            Some(s) => {
                let i = choose|i: int|
                    0 <= i < d.len() && #[trigger] d[i].slot_id == s && d[i].length == 0;
                assert(dir[i + 1].slot_id == s && dir[i + 1].length == 0);
            },
            None => {
                assert forall|i: int| 0 <= i < dir.len()
                    implies #[trigger] dir[i].length != 0 by {
                    if i > 0 {
                        assert(dir[i] == d[i - 1]);
                    }
                }
            },
        }
    }
}

impl Page {
    /// The bytes stored under `slot_id`, if a live value occupies it.
    pub fn get_value(&self, slot_id: SlotId) -> (r: Option<Vec<u8>>)
        requires
            self.wf(),
        ensures
            match r {
                Some(v) => value_of(self@, slot_id) == Some(v@),
                None => value_of(self@, slot_id) is None,
            },
    {
        match self.find_dir_index(slot_id) {
            None => {
                proof {
                    assert forall|i: int| !live_at(self@.dir, i, slot_id) by {}
                    lemma_value_of_none(self@, slot_id);
                }
                None
            },
            Some(p) => {
                let e = self.header.dir[p];
                if e.length == 0 {
                    proof {
                        assert forall|i: int| !live_at(self@.dir, i, slot_id) by {
                            if live_at(self@.dir, i, slot_id) && i != p as int {
                                assert(self@.dir[i].slot_id != self@.dir[p as int].slot_id);
                            }
                        }
                        lemma_value_of_none(self@, slot_id);
                    }
                    None
                } else {
                    proof {
                        assert(entry_ok(self@.dir[p as int], used_of(self@.dir)));
                        lemma_used_of_nonneg(self@.dir);
                    }
                    let start = (e.end_offset as usize + 1) - e.length as usize;
                    let end = e.end_offset as usize + 1;
                    let mut v: Vec<u8> = Vec::new();
                    let mut j = start;
                    while j < end
                        invariant
                            start <= j <= end <= PAGE_SIZE,
                            self@.data.len() == PAGE_SIZE,
                            v@ =~= self@.data.subrange(start as int, j as int),
                        decreases end - j,
                    {
                        v.push(self.data[j]);
                        proof {
                            assert(self@.data.subrange(start as int, j + 1)
                                =~= self@.data.subrange(start as int, j as int).push(
                                    self@.data[j as int]));
                        }
                        j += 1;
                    }
                    proof {
                        lemma_value_of_witness(self@, p as int, slot_id);
                    }
                    Some(v)
                }
            },
        }
    }

    /// Attempt to add a value to the page. Returns the slot id it was stored
    /// under, choosing the lowest available id, or nothing when the value is
    /// empty or does not fit. All previously stored values keep their slot
    /// ids and bytes.
    pub fn add_value(&mut self, bytes: &Vec<u8>) -> (r: Option<SlotId>)
        requires
            old(self).wf(),
        ensures
            final(self).wf(),
            final(self)@.page_id == old(self)@.page_id,
            r is Some <==> spec_fits(old(self)@, bytes@.len() as int),
            r is None ==> final(self)@ == old(self)@,
            r is Some ==> Some(r->0) == old(self)@.open_slot,
            r is Some ==> value_of(final(self)@, r->0) == Some(bytes@),
            r is Some ==> forall|sid: SlotId|
                sid != r->0 ==> value_of(final(self)@, sid) == value_of(old(self)@, sid),
            r is Some ==> used_of(final(self)@.dir) == used_of(old(self)@.dir) + bytes@.len(),
            r is Some ==> final(self)@.dir.len() == old(self)@.dir.len() + (
                if slot_present(old(self)@.dir, r->0) { 0int } else { 1int }),
            r is Some ==> forall|i: int|
                0 <= i < old(self)@.dir.len()
                    ==> (#[trigger] final(self)@.dir[i]).slot_id == old(self)@.dir[i].slot_id
                        && (is_live(final(self)@.dir[i]) <==> (is_live(old(self)@.dir[i])
                            || old(self)@.dir[i].slot_id == r->0)),
            r is Some && !slot_present(old(self)@.dir, r->0)
                ==> final(self)@.dir[old(self)@.dir.len() as int].slot_id == r->0
                    && is_live(final(self)@.dir[old(self)@.dir.len() as int]),
    {
        proof {
            lemma_used_of_nonneg(self@.dir);
        }
        let len = bytes.len();
        if len == 0 {
            return None;
        }
        let os = match self.header.open_slot {
            None => {
                return None;
            },
            Some(s) => s,
        };
        let pos_opt = self.find_dir_index(os);
        let hdr = FIXED_HEADER_SIZE + HEADER_PER_VAL_SIZE * self.header.dir.len();
        let used = self.header.used as usize;
        let free = PAGE_SIZE - hdr - used;
        let is_reuse = pos_opt.is_some();
        if is_reuse {
            if len > free {
                return None;
            }
        } else {
            if len > PAGE_SIZE || len + HEADER_PER_VAL_SIZE > free {
                return None;
            }
        }
        let ghost pv0 = self@;
        let ghost dir0 = self@.dir;
        let ghost data0 = self@.data;
        proof {
            assert(spec_fits(pv0, len as int));
        }

        // Write the payload into the body, just below the used region.
        let start = PAGE_SIZE - used - len;
        let mut j: usize = 0;
        while j < len
            invariant
                j <= len,
                start + len <= PAGE_SIZE,
                bytes@.len() == len,
                self.header == old(self).header,
                self@.data.len() == PAGE_SIZE,
                forall|k: int| 0 <= k < j ==> self@.data[start + k] == bytes@[k],
                forall|k: int|
                    0 <= k < PAGE_SIZE && !(start <= k < start + j) ==> self@.data[k] == data0[k],
            decreases len - j,
        {
            self.data[start + j] = bytes[j];
            j += 1;
        }

        // Record the slot, reusing a tombstoned entry or appending a new one.
        let e = SlotEntry {
            slot_id: os,
            end_offset: (PAGE_SIZE - used - 1) as u16,
            length: len as u16,
        };
        proof {
            lemma_find_tombstone_cases(dir0);
        }
        match pos_opt {
            Some(p) => {
                proof {
                    // The open slot found in the directory must be the
                    // minimum tombstone: were every entry live, the open
                    // slot would be a fresh id, absent from the directory.
                    if dir0[p as int].length != 0 {
                        if find_tombstone(dir0) is Some {
                            let i = choose|i: int|
                                0 <= i < dir0.len() && #[trigger] dir0[i].slot_id == os
                                    && dir0[i].length == 0;
                            assert(dir0[i].slot_id == dir0[p as int].slot_id);
                            assert(i != p as int);
                            assert(false);
                        } else {
                            assert(dir0.len() > 0);
                            let last = dir0.len() - 1;
                            assert(dir0[p as int].slot_id <= dir0[last].slot_id);
                            assert(false);
                        }
                    }
                    lemma_used_of_update(dir0, p as int, e);
                }
                self.header.dir[p] = e;
            },
            None => {
                proof {
                    if find_tombstone(dir0) is Some {
                        let i = choose|i: int|
                            0 <= i < dir0.len() && #[trigger] dir0[i].slot_id == os
                                && dir0[i].length == 0;
                        assert(slot_present(dir0, os));
                        assert(false);
                    }
                    lemma_used_of_push(dir0, e);
                    // Sortedness of the extended directory: the fresh id
                    // exceeds the previous maximum.
                    if dir0.len() > 0 {
                        let last = dir0.len() - 1;
                        assert forall|i: int| 0 <= i < dir0.len()
                            implies dir0[i].slot_id < os by {
                            assert(dir0[i].slot_id <= dir0[last].slot_id);
                        }
                    }
                }
                self.header.dir.push(e);
            },
        }
        self.header.used = self.header.used + len as u16;
        let next = self.find_next_slot();
        self.header.open_slot = next;

        proof {
            let pv1 = self@;
            let dir1 = pv1.dir;
            let used1 = used_of(dir1);
            assert(used1 == used_of(dir0) + len);
            // Every entry is in range for the grown used region, live
            // payloads stay pairwise disjoint, and the new payload occupies
            // exactly the bytes just written.
            assert forall|i: int| 0 <= i < dir1.len()
                implies entry_ok(#[trigger] dir1[i], used1) by {
                if i < dir0.len() && dir1[i] == dir0[i] {
                    assert(entry_ok(dir0[i], used_of(dir0)));
                } else {
                    assert(dir1[i] == e);
                }
            }
            assert forall|i: int, j: int|
                0 <= i < j < dir1.len() && is_live(dir1[i]) && is_live(dir1[j])
                implies entries_disjoint(dir1[i], dir1[j]) by {
                let old_i = i < dir0.len() && dir1[i] == dir0[i];
                let old_j = j < dir0.len() && dir1[j] == dir0[j];
                if old_i && old_j {
                    assert(entry_ok(dir0[i], used_of(dir0)));
                    assert(entry_ok(dir0[j], used_of(dir0)));
                } else if old_i {
                    assert(dir1[j] == e);
                    assert(entry_ok(dir0[i], used_of(dir0)));
                } else if old_j {
                    assert(dir1[i] == e);
                    assert(entry_ok(dir0[j], used_of(dir0)));
                }
            }
            assert(dir_wf(dir1));
            assert(self.wf());

            // The inserted value reads back, and every other value is
            // untouched: its entry is unchanged and its bytes lie in the
            // untouched region above the new payload.
            let new_idx: int = match pos_opt {
                Some(p) => p as int,
                None => dir0.len() as int,
            };
            assert(live_at(dir1, new_idx, os));
            lemma_value_of_witness(pv1, new_idx, os);
            assert(pv1.data.subrange(entry_start(e), entry_end(e)) =~= bytes@);
            assert(value_of(pv1, os) == Some(bytes@));

            // The directory keeps every slot id in place; only the slot
            // just filled changes liveness.
            assert forall|i: int| 0 <= i < dir0.len()
                implies (#[trigger] dir1[i]).slot_id == dir0[i].slot_id
                    && (is_live(dir1[i]) <==> (is_live(dir0[i]) || dir0[i].slot_id == os)) by {
                match pos_opt {
                    Some(p) => {
                        if i == p as int {
                            assert(dir0[i].slot_id == os);
                        } else {
                            assert(dir1[i] == dir0[i]);
                            if dir0[i].slot_id == os {
                                assert(dir0[i].slot_id != dir0[p as int].slot_id);
                            }
                        }
                    },
                    None => {
                        assert(dir1[i] == dir0[i]);
                        if dir0[i].slot_id == os {
                            assert(slot_present(dir0, os));
                        }
                    },
                }
            }

            assert forall|sid: SlotId| sid != os
                implies value_of(pv1, sid) == value_of(pv0, sid) by {
                if exists|i: int| live_at(dir0, i, sid) {
                    let i = choose|i: int| live_at(dir0, i, sid);
                    assert(dir1[i] == dir0[i]);
                    lemma_value_of_witness(pv0, i, sid);
                    lemma_value_of_witness(pv1, i, sid);
                    assert(entry_ok(dir0[i], used_of(dir0)));
                    lemma_subrange_eq(
                        pv1.data,
                        pv0.data,
                        entry_start(dir0[i]),
                        entry_end(dir0[i]),
                    );
                } else {
                    assert forall|i: int| !live_at(dir1, i, sid) by {
                        if live_at(dir1, i, sid) {
                            assert(i != new_idx);
                            assert(live_at(dir0, i, sid));
                        }
                    }
                    lemma_value_of_none(pv1, sid);
                    lemma_value_of_none(pv0, sid);
                }
            }
        }
        Some(os)
    }

    /// Delete the value under `slot_id`. The entry becomes a reusable
    /// tombstone, the payloads lying below the removed region shift up by
    /// its length so live payloads stay contiguous, and every other value
    /// keeps its slot id and bytes. Returns nothing when no live value
    /// occupies the slot, leaving the page unchanged.
    #[verifier::rlimit(100)]
    pub fn delete_value(&mut self, slot_id: SlotId) -> (r: Option<()>)
        requires
            old(self).wf(),
        ensures
            final(self).wf(),
            final(self)@.page_id == old(self)@.page_id,
            r is Some <==> value_of(old(self)@, slot_id) is Some,
            r is None ==> final(self)@ == old(self)@,
            r is Some ==> value_of(final(self)@, slot_id) is None,
            r is Some ==> forall|sid: SlotId|
                sid != slot_id ==> value_of(final(self)@, sid) == value_of(old(self)@, sid),
            r is Some ==> final(self)@.dir.len() == old(self)@.dir.len(),
            r is Some ==> used_of(final(self)@.dir) + value_of(old(self)@, slot_id)->0.len()
                == used_of(old(self)@.dir),
            r is Some ==> spec_free_space(final(self)@)
                == spec_free_space(old(self)@) + value_of(old(self)@, slot_id)->0.len(),
            r is Some ==> forall|i: int|
                0 <= i < old(self)@.dir.len()
                    ==> (#[trigger] final(self)@.dir[i]).slot_id == old(self)@.dir[i].slot_id
                        && (is_live(final(self)@.dir[i]) <==> (is_live(old(self)@.dir[i])
                            && old(self)@.dir[i].slot_id != slot_id)),
    {
        let pos = match self.find_dir_index(slot_id) {
            None => {
                proof {
                    lemma_value_of_none(self@, slot_id);
                }
                return None;
            },
            Some(p) => p,
        };
        let e = self.header.dir[pos];
        if e.length == 0 {
            proof {
                assert forall|i: int| !live_at(self@.dir, i, slot_id) by {
                    if live_at(self@.dir, i, slot_id) && i != pos as int {
                        assert(self@.dir[i].slot_id != self@.dir[pos as int].slot_id);
                    }
                }
                lemma_value_of_none(self@, slot_id);
            }
            return None;
        }
        let ghost pv0 = self@;
        let ghost dir0 = self@.dir;
        let ghost data0 = self@.data;
        proof {
            assert(entry_ok(dir0[pos as int], used_of(dir0)));
            lemma_value_of_witness(pv0, pos as int, slot_id);
            lemma_used_of_nonneg(dir0);
        }
        let l = e.length as usize;
        let ds = (e.end_offset as usize + 1) - l;
        let de = e.end_offset as usize + 1;
        let used = self.header.used as usize;
        let lo = PAGE_SIZE - used;

        // Shift the used bytes below the removed region up by its length.
        let mut i = ds;
        while i > lo
            invariant
                lo <= i <= ds,
                de == ds + l,
                de <= PAGE_SIZE,
                self.header == old(self).header,
                self@.data.len() == PAGE_SIZE,
                data0.len() == PAGE_SIZE,
                forall|k: int| i <= k < ds ==> self@.data[k + l] == data0[k],
                forall|k: int| 0 <= k < i + l ==> self@.data[k] == data0[k],
                forall|k: int| de <= k < PAGE_SIZE ==> self@.data[k] == data0[k],
            decreases i,
        {
            i -= 1;
            let b = self.data[i];
            self.data[i + l] = b;
        }
        let ghost data1 = self@.data;

        // Entries whose payloads lay below the removed region move up with
        // their bytes; the removed entry becomes a tombstone.
        let n = self.header.dir.len();
        let mut t: usize = 0;
        while t < n
            invariant
                t <= n,
                n == self@.dir.len(),
                n == dir0.len(),
                de == ds + l,
                de <= PAGE_SIZE,
                l == dir0[pos as int].length,
                self@.data == data1,
                self.header.p_id == old(self).header.p_id,
                self.header.open_slot == old(self).header.open_slot,
                self.header.used == old(self).header.used,
                forall|k: int| 0 <= k < dir0.len()
                    ==> entry_ok(#[trigger] dir0[k], used_of(dir0)),
                forall|k: int| 0 <= k < t ==> #[trigger] self@.dir[k] == shift_entry(dir0[k], ds as int, l as int),
                forall|k: int| t <= k < n ==> #[trigger] self@.dir[k] == dir0[k],
            decreases n - t,
        {
            let e2 = self.header.dir[t];
            if e2.length > 0 && (e2.end_offset as usize) < ds {
                proof {
                    assert(entry_ok(dir0[t as int], used_of(dir0)));
                }
                self.header.dir[t] = SlotEntry {
                    slot_id: e2.slot_id,
                    end_offset: e2.end_offset + l as u16,
                    length: e2.length,
                };
            }
            t += 1;
        }
        self.header.dir[pos] = SlotEntry { slot_id, end_offset: 0, length: 0 };
        self.header.used = self.header.used - e.length;
        let next = self.find_next_slot();
        self.header.open_slot = next;

        proof {
            let pv1 = self@;
            let dir1 = pv1.dir;
            let tomb = SlotEntry { slot_id, end_offset: 0, length: 0 };
            assert(dir0[pos as int].slot_id == slot_id);
            assert forall|k: int| 0 <= k < dir1.len() implies #[trigger] dir1[k] == (
                if k == pos as int { tomb } else { shift_entry(dir0[k], ds as int, l as int) }) by {
                if k != pos as int {
                    assert(dir1[k] == shift_entry(dir0[k], ds as int, l as int));
                }
            }
            // The sum of lengths drops by exactly the removed length.
            let du = dir0.update(pos as int, tomb);
            lemma_used_of_update(dir0, pos as int, tomb);
            lemma_used_of_pointwise(dir1, du);
            let used1 = used_of(dir1);
            assert(used1 == used_of(dir0) - l);

            // Sortedness is untouched: slot ids are unchanged.
            assert forall|a: int, b: int| 0 <= a < b < dir1.len()
                implies dir1[a].slot_id < dir1[b].slot_id by {
                assert(dir1[a].slot_id == dir0[a].slot_id);
                assert(dir1[b].slot_id == dir0[b].slot_id);
            }

            // Every slot id keeps its place; only the deleted slot loses
            // its payload.
            assert forall|i: int| 0 <= i < dir0.len()
                implies (#[trigger] dir1[i]).slot_id == dir0[i].slot_id
                    && (is_live(dir1[i]) <==> (is_live(dir0[i])
                        && dir0[i].slot_id != slot_id)) by {
                if i != pos as int && dir0[i].slot_id == slot_id {
                    assert(dir0[i].slot_id != dir0[pos as int].slot_id);
                }
            }

            // Every live payload other than the removed one sits either
            // wholly below the removed region (and moved up with its bytes)
            // or wholly above it (and was never touched).
            assert forall|k: int|
                0 <= k < dir1.len() && k != pos as int && is_live(dir0[k])
                implies (entry_end(dir0[k]) <= ds as int || entry_start(dir0[k]) >= de as int) by {
                if k < pos as int {
                    assert(entries_disjoint(dir0[k], dir0[pos as int]));
                } else {
                    assert(entries_disjoint(dir0[pos as int], dir0[k]));
                }
            }

            assert forall|k: int| 0 <= k < dir1.len()
                implies entry_ok(#[trigger] dir1[k], used1) by {
                assert(entry_ok(dir0[k], used_of(dir0)));
                if k != pos as int && is_live(dir0[k]) && entry_start(dir0[k]) >= de as int {
                    assert(dir1[k] == dir0[k]);
                }
            }

            assert forall|a: int, b: int|
                0 <= a < b < dir1.len() && is_live(dir1[a]) && is_live(dir1[b])
                implies entries_disjoint(dir1[a], dir1[b]) by {
                assert(entry_ok(dir0[a], used_of(dir0)));
                assert(entry_ok(dir0[b], used_of(dir0)));
                assert(entries_disjoint(dir0[a], dir0[b]));
            }
            assert(dir_wf(dir1));
            assert(self.wf());

            // The deleted slot no longer reads back.
            assert forall|i: int| !live_at(dir1, i, slot_id) by {
                if live_at(dir1, i, slot_id) {
                    assert(dir1[i].slot_id == dir0[i].slot_id);
                    if i != pos as int {
                        assert(dir0[i].slot_id != dir0[pos as int].slot_id);
                    }
                }
            }
            lemma_value_of_none(pv1, slot_id);

            // Every other value is preserved, byte for byte.
            assert forall|sid: SlotId| sid != slot_id
                implies value_of(pv1, sid) == value_of(pv0, sid) by {
                if exists|i: int| live_at(dir0, i, sid) {
                    let i = choose|i: int| live_at(dir0, i, sid);
                    assert(i != pos as int);
                    lemma_value_of_witness(pv0, i, sid);
                    assert(live_at(dir1, i, sid));
                    lemma_value_of_witness(pv1, i, sid);
                    assert(entry_ok(dir0[i], used_of(dir0)));
                    let s0 = entry_start(dir0[i]);
                    let e0 = entry_end(dir0[i]);
                    if entry_end(dir0[i]) <= ds as int {
                        // moved up by l together with its bytes
                        assert(dir1[i].end_offset == dir0[i].end_offset + l);
                        assert(dir1[i].length == dir0[i].length);
                        assert forall|m: int| 0 <= m < e0 - s0
                            implies pv1.data[s0 + l + m] == #[trigger] pv0.data[s0 + m] by {
                            assert(lo as int <= s0 + m < ds as int);
                        }
                        assert(pv1.data.subrange(s0 + l, e0 + l)
                            =~= pv0.data.subrange(s0, e0));
                    } else {
                        assert(entry_start(dir0[i]) >= de as int);
                        assert(dir1[i] == dir0[i]);
                        lemma_subrange_eq(pv1.data, pv0.data, s0, e0);
                    }
                } else {
                    assert forall|i: int| !live_at(dir1, i, sid) by {
                        if live_at(dir1, i, sid) {
                            assert(live_at(dir0, i, sid));
                        }
                    }
                    lemma_value_of_none(pv1, sid);
                    lemma_value_of_none(pv0, sid);
                }
            }
            assert(value_of(pv0, slot_id)->0.len() == l);
        }
        Some(())
    }
}

/// How a directory entry reacts to removing `l` payload bytes whose region
/// starts at `ds`: live entries wholly below the removed region move up by
/// `l`; everything else keeps its place.
pub open spec fn shift_entry(e: SlotEntry, ds: int, l: int) -> SlotEntry {
    if e.length > 0 && e.end_offset < ds {
        SlotEntry { slot_id: e.slot_id, end_offset: (e.end_offset + l) as u16, length: e.length }
    } else {
        e
    }
}

/// The open slot of a well-formed page never holds a live value: it is
/// either a tombstoned id or a fresh id absent from the directory.
pub proof fn lemma_open_slot_not_live(pv: PageV)
    requires
        page_wf(pv),
        pv.open_slot is Some,
    ensures
        value_of(pv, pv.open_slot->0) is None,
{
    let os = pv.open_slot->0;
    lemma_find_tombstone_cases(pv.dir);
    match find_tombstone(pv.dir) {
        Some(s) => {
            let i = choose|i: int|
                0 <= i < pv.dir.len() && #[trigger] pv.dir[i].slot_id == s
                    && pv.dir[i].length == 0;
            assert forall|j: int| !live_at(pv.dir, j, os) by {
                if live_at(pv.dir, j, os) && j != i {
                    assert(pv.dir[j].slot_id != pv.dir[i].slot_id);
                }
            }
            lemma_value_of_none(pv, os);
        },
        None => {
            assert forall|j: int| !live_at(pv.dir, j, os) by {
                if live_at(pv.dir, j, os) {
                    let last = pv.dir.len() - 1;
                    assert(pv.dir[j].slot_id <= pv.dir[last].slot_id);
                }
            }
            lemma_value_of_none(pv, os);
        },
    }
}

/// Byte `r` of a serialized directory entry: slot id, end offset and length,
/// each as two little-endian bytes.
pub open spec fn entry_byte(e: SlotEntry, r: int) -> u8 {
    if r == 0 {
        lo16(e.slot_id)
    } else if r == 1 {
        hi16(e.slot_id)
    } else if r == 2 {
        lo16(e.end_offset)
    } else if r == 3 {
        hi16(e.end_offset)
    } else if r == 4 {
        lo16(e.length)
    } else {
        hi16(e.length)
    }
}

/// Byte `i` of the serialized page: the fixed header fields, then the
/// directory entries in ascending slot-id order, then the body bytes as they
/// stand in memory.
pub open spec fn ser_at(pv: PageV, i: int) -> u8 {
    let n = pv.dir.len() as int;
    if i == 0 {
        lo16(pv.page_id)
    } else if i == 1 {
        hi16(pv.page_id)
    } else if i == 2 {
        if pv.open_slot is Some { 1u8 } else { 0u8 }
    } else if i == 3 {
        match pv.open_slot { Some(s) => lo16(s), None => 0u8 }
    } else if i == 4 {
        match pv.open_slot { Some(s) => hi16(s), None => 0u8 }
    } else if i == 5 {
        lo16(n as u16)
    } else if i == 6 {
        hi16(n as u16)
    } else if i < 7 + 6 * n {
        entry_byte(pv.dir[(i - 7) / 6], (i - 7) % 6)
    } else {
        pv.data[i]
    }
}

/// The serialized page: exactly `PAGE_SIZE` bytes.
pub open spec fn spec_ser(pv: PageV) -> Seq<u8> {
    Seq::new(PAGE_SIZE as nat, |i: int| ser_at(pv, i))
}

/// The directory read back from serialized bytes.
pub open spec fn parse_dir(b: Seq<u8>) -> Seq<SlotEntry> {
    let n = u16_le(b[5], b[6]) as int;
    Seq::new(
        n as nat,
        |k: int| SlotEntry {
            slot_id: u16_le(b[7 + 6 * k], b[8 + 6 * k]),
            end_offset: u16_le(b[9 + 6 * k], b[10 + 6 * k]),
            length: u16_le(b[11 + 6 * k], b[12 + 6 * k]),
        },
    )
}

/// The open-slot field read back from serialized bytes.
pub open spec fn parsed_open_slot(b: Seq<u8>) -> Option<SlotId> {
    if b[2] == 1 { Some(u16_le(b[3], b[4])) } else { None }
}

/// Whether a byte buffer decodes as a well-formed page: the right size, a
/// boolean open-slot flag consistent with the directory, and a well-formed
/// directory that fits.
pub open spec fn parseable(b: Seq<u8>) -> bool {
    &&& b.len() == PAGE_SIZE
    &&& (b[2] == 0 || b[2] == 1)
    &&& (b[2] == 0 ==> b[3] == 0 && b[4] == 0)
    &&& 7 + 6 * (u16_le(b[5], b[6]) as int) <= PAGE_SIZE
    &&& dir_wf(parse_dir(b))
    &&& parsed_open_slot(b) == expected_open_slot(parse_dir(b))
}

/// The page model read back from serialized bytes. The whole buffer is kept
/// as the body; the bytes under the header are dead storage.
pub open spec fn spec_deser(b: Seq<u8>) -> PageV {
    PageV {
        page_id: u16_le(b[0], b[1]),
        open_slot: parsed_open_slot(b),
        dir: parse_dir(b),
        data: b,
    }
}

/// Position arithmetic for directory bytes: byte `7 + 6k + r` of the header
/// belongs to entry `k` at offset `r`.
proof fn lemma_dir_byte_index(k: int, r: int)
    requires
        0 <= k,
        0 <= r < 6,
    ensures
        (7 + 6 * k + r - 7) / 6 == k,
        (7 + 6 * k + r - 7) % 6 == r,
{
    vstd::arithmetic::div_mod::lemma_fundamental_div_mod_converse(6 * k + r, 6, k, r);
}

/// A serialized well-formed page decodes as itself: the bytes are parseable
/// and the directory, page id and open slot read back unchanged.
pub proof fn lemma_ser_parseable(pv: PageV)
    requires
        page_wf(pv),
    ensures
        parseable(spec_ser(pv)),
        spec_deser(spec_ser(pv)).page_id == pv.page_id,
        spec_deser(spec_ser(pv)).open_slot == pv.open_slot,
        spec_deser(spec_ser(pv)).dir == pv.dir,
{
    let b = spec_ser(pv);
    let n = pv.dir.len() as int;
    lemma_used_of_nonneg(pv.dir);
    assert(n <= 681);
    lemma_u16_le_round_trip(pv.page_id, 0, 0);
    lemma_u16_le_round_trip(n as u16, 0, 0);
    if let Some(s) = pv.open_slot {
        lemma_u16_le_round_trip(s, 0, 0);
    }
    assert(u16_le(b[5], b[6]) == n as u16);
    assert forall|k: int| 0 <= k < n implies parse_dir(b)[k] == pv.dir[k] by {
        let e = pv.dir[k];
        lemma_dir_byte_index(k, 0);
        lemma_dir_byte_index(k, 1);
        lemma_dir_byte_index(k, 2);
        lemma_dir_byte_index(k, 3);
        lemma_dir_byte_index(k, 4);
        lemma_dir_byte_index(k, 5);
        assert(b[7 + 6 * k] == lo16(e.slot_id));
        assert(b[8 + 6 * k] == hi16(e.slot_id));
        assert(b[9 + 6 * k] == lo16(e.end_offset));
        assert(b[10 + 6 * k] == hi16(e.end_offset));
        assert(b[11 + 6 * k] == lo16(e.length));
        assert(b[12 + 6 * k] == hi16(e.length));
        lemma_u16_le_round_trip(e.slot_id, 0, 0);
        lemma_u16_le_round_trip(e.end_offset, 0, 0);
        lemma_u16_le_round_trip(e.length, 0, 0);
    }
    assert(parse_dir(b) =~= pv.dir);
}

/// Round trip: deserializing a serialized page preserves every observable —
/// the page id, the open slot, the whole directory, every stored value, the
/// header size and the free space.
#[verifier::rlimit(100)]
pub proof fn lemma_page_round_trip(pv: PageV)
    requires
        page_wf(pv),
    ensures
        page_wf(spec_deser(spec_ser(pv))),
        spec_deser(spec_ser(pv)).page_id == pv.page_id,
        spec_deser(spec_ser(pv)).open_slot == pv.open_slot,
        spec_deser(spec_ser(pv)).dir == pv.dir,
        forall|sid: SlotId| value_of(spec_deser(spec_ser(pv)), sid) == value_of(pv, sid),
        spec_header_size(spec_deser(spec_ser(pv))) == spec_header_size(pv),
        spec_free_space(spec_deser(spec_ser(pv))) == spec_free_space(pv),
        page_items(spec_deser(spec_ser(pv))) == page_items(pv),
{
    lemma_ser_parseable(pv);
    let pv1 = spec_deser(spec_ser(pv));
    let n = pv.dir.len() as int;
    lemma_used_of_nonneg(pv.dir);
    // Body bytes above the header are serialized unchanged, so every live
    // payload reads back byte for byte.
    assert forall|k: int| 7 + 6 * n <= k < PAGE_SIZE implies pv1.data[k] == pv.data[k] by {}
    assert forall|sid: SlotId| value_of(pv1, sid) == value_of(pv, sid) by {
        if exists|i: int| live_at(pv.dir, i, sid) {
            let i = choose|i: int| live_at(pv.dir, i, sid);
            lemma_value_of_witness(pv, i, sid);
            lemma_value_of_witness(pv1, i, sid);
            assert(entry_ok(pv.dir[i], used_of(pv.dir)));
            lemma_subrange_eq(
                pv1.data,
                pv.data,
                entry_start(pv.dir[i]),
                entry_end(pv.dir[i]),
            );
        } else {
            lemma_value_of_none(pv, sid);
            assert(forall|i: int| !live_at(pv1.dir, i, sid));
            lemma_value_of_none(pv1, sid);
        }
    }
    // Iteration yields the same items: the directories are equal, and every
    // live payload's bytes are serialized unchanged.
    let f = pv.dir.filter(live_pred());
    assert forall|p: int| 0 <= p < f.len()
        implies page_items(pv1)[p] == page_items(pv)[p] by {
        lemma_filter_element_of(pv.dir, live_pred(), p);
        let i = choose|i: int| 0 <= i < pv.dir.len() && pv.dir[i] == f[p];
        assert(entry_ok(pv.dir[i], used_of(pv.dir)));
        Seq::lemma_filter_pred(pv.dir, live_pred(), p);
        lemma_subrange_eq(pv1.data, pv.data, entry_start(f[p]), entry_end(f[p]));
    }
    assert(page_items(pv1) =~= page_items(pv));
}

/// Serialization is a left inverse of deserialization on parseable bytes:
/// re-serializing a decoded page reproduces the buffer exactly.
pub proof fn lemma_deser_ser(b: Seq<u8>)
    requires
        parseable(b),
    ensures
        spec_ser(spec_deser(b)) == b,
{
    let pv = spec_deser(b);
    let n = pv.dir.len() as int;
    lemma_u16_le_round_trip(0, b[0], b[1]);
    lemma_u16_le_round_trip(0, b[3], b[4]);
    lemma_u16_le_round_trip(0, b[5], b[6]);
    assert forall|i: int| 0 <= i < PAGE_SIZE implies spec_ser(pv)[i] == b[i] by {
        if 7 <= i < 7 + 6 * n {
            let k = (i - 7) / 6;
            let r = (i - 7) % 6;
            vstd::arithmetic::div_mod::lemma_fundamental_div_mod(i - 7, 6);
            assert(0 <= r < 6);
            assert(i == 7 + 6 * k + r);
            assert(0 <= k < n);
            lemma_u16_le_round_trip(0, b[7 + 6 * k], b[8 + 6 * k]);
            lemma_u16_le_round_trip(0, b[9 + 6 * k], b[10 + 6 * k]);
            lemma_u16_le_round_trip(0, b[11 + 6 * k], b[12 + 6 * k]);
        }
    }
    assert(spec_ser(pv) =~= b);
}

impl Page {
    /// Serialize the page into exactly `PAGE_SIZE` bytes, directory entries
    /// in ascending slot-id order.
    pub fn to_bytes(&self) -> (r: Vec<u8>)
        requires
            self.wf(),
        ensures
            r@ == spec_ser(self@),
            r@.len() == PAGE_SIZE,
    {
        proof {
            lemma_used_of_nonneg(self@.dir);
        }
        let n = self.header.dir.len();
        let mut out: Vec<u8> = Vec::new();
        let mut i: usize = 0;
        while i < PAGE_SIZE
            invariant
                i <= PAGE_SIZE,
                self.wf(),
                n == self@.dir.len(),
                n <= 681,
                out@ =~= spec_ser(self@).take(i as int),
            decreases PAGE_SIZE - i,
        {
            let b: u8;
            if i == 0 {
                b = u16_lo(self.header.p_id);
            } else if i == 1 {
                b = u16_hi(self.header.p_id);
            } else if i == 2 {
                b = if self.header.open_slot.is_some() { 1 } else { 0 };
            } else if i == 3 {
                b = match self.header.open_slot { Some(s) => u16_lo(s), None => 0 };
            } else if i == 4 {
                b = match self.header.open_slot { Some(s) => u16_hi(s), None => 0 };
            } else if i == 5 {
                b = u16_lo(n as u16);
            } else if i == 6 {
                b = u16_hi(n as u16);
            } else if i < 7 + 6 * n {
                let k = (i - 7) / 6;
                let r = (i - 7) % 6;
                proof {
                    vstd::arithmetic::div_mod::lemma_fundamental_div_mod(i - 7, 6);
                }
                let e = self.header.dir[k];
                b = if r == 0 {
                    u16_lo(e.slot_id)
                } else if r == 1 {
                    u16_hi(e.slot_id)
                } else if r == 2 {
                    u16_lo(e.end_offset)
                } else if r == 3 {
                    u16_hi(e.end_offset)
                } else if r == 4 {
                    u16_lo(e.length)
                } else {
                    u16_hi(e.length)
                };
                proof {
                    assert(b == ser_at(self@, i as int));
                }
            } else {
                proof {
                    lemma_used_of_bound(self@.dir);
                }
                b = self.data[i];
            }
            out.push(b);
            proof {
                lemma_take_push(spec_ser(self@), i as int);
            }
            i += 1;
        }
        proof {
            assert(out@ =~= spec_ser(self@));
        }
        out
    }

    /// Deserialize a page from exactly `PAGE_SIZE` bytes, recomputing the
    /// occupied byte count from the directory.
    pub fn from_bytes(data: &Vec<u8>) -> (p: Page)
        requires
            parseable(data@),
        ensures
            p.wf(),
            p@ == spec_deser(data@),
    {
        let pid = u16_from_le(data[0], data[1]);
        let flag = data[2];
        let open_slot = if flag == 1 {
            Some(u16_from_le(data[3], data[4]))
        } else {
            None
        };
        let n = u16_from_le(data[5], data[6]) as usize;
        let ghost pdir = parse_dir(data@);
        let mut dir: Vec<SlotEntry> = Vec::new();
        let mut k: usize = 0;
        while k < n
            invariant
                k <= n,
                n == pdir.len(),
                pdir == parse_dir(data@),
                parseable(data@),
                data@.len() == PAGE_SIZE,
                7 + 6 * n <= PAGE_SIZE,
                dir@ =~= pdir.take(k as int),
            decreases n - k,
        {
            let idx = 7 + 6 * k;
            let e = SlotEntry {
                slot_id: u16_from_le(data[idx], data[idx + 1]),
                end_offset: u16_from_le(data[idx + 2], data[idx + 3]),
                length: u16_from_le(data[idx + 4], data[idx + 5]),
            };
            dir.push(e);
            proof {
                assert(e == pdir[k as int]);
                lemma_take_push(pdir, k as int);
            }
            k += 1;
        }
        proof {
            assert(dir@ =~= pdir);
        }

        let mut used: usize = 0;
        let mut k2: usize = 0;
        while k2 < n
            invariant
                k2 <= n,
                n == dir@.len(),
                dir_wf(dir@),
                used == used_of(dir@.take(k2 as int)),
                used <= PAGE_SIZE,
            decreases n - k2,
        {
            proof {
                lemma_take_push(dir@, k2 as int);
                lemma_used_of_push(dir@.take(k2 as int), dir@[k2 as int]);
                lemma_used_of_take_le(dir@, k2 + 1);
                lemma_used_of_nonneg(dir@);
            }
            used = used + dir[k2].length as usize;
            k2 += 1;
        }
        proof {
            assert(dir@.take(n as int) =~= dir@);
        }

        let mut body: Vec<u8> = Vec::new();
        let mut j: usize = 0;
        while j < PAGE_SIZE
            invariant
                j <= PAGE_SIZE,
                data@.len() == PAGE_SIZE,
                body@ =~= data@.take(j as int),
            decreases PAGE_SIZE - j,
        {
            body.push(data[j]);
            proof {
                lemma_take_push(data@, j as int);
            }
            j += 1;
        }
        proof {
            assert(body@ =~= data@);
        }
        let p = Page {
            header: Header { p_id: pid, open_slot, dir, used: used as u16 },
            data: body,
        };
        proof {
            assert(p@.dir =~= spec_deser(data@).dir);
            assert(p@.data =~= spec_deser(data@).data);
        }
        p
    }
}

impl Page {
    /// Decode a page from an untrusted byte buffer, first checking that the
    /// buffer is a well-formed serialized page.
    pub fn try_from_bytes(data: &Vec<u8>) -> (r: Option<Page>)
        ensures
            r is Some <==> parseable(data@),
            r is Some ==> r->0.wf() && r->0@ == spec_deser(data@),
    {
        if data.len() != PAGE_SIZE {
            return None;
        }
        let flag = data[2];
        if flag != 0 && flag != 1 {
            return None;
        }
        if flag == 0 && (data[3] != 0 || data[4] != 0) {
            return None;
        }
        let n = u16_from_le(data[5], data[6]) as usize;
        if 7 + 6 * n > PAGE_SIZE {
            return None;
        }
        let ghost pdir = parse_dir(data@);
        let mut dir: Vec<SlotEntry> = Vec::new();
        let mut k: usize = 0;
        while k < n
            invariant
                k <= n,
                n == pdir.len(),
                pdir == parse_dir(data@),
                data@.len() == PAGE_SIZE,
                7 + 6 * n <= PAGE_SIZE,
                dir@ =~= pdir.take(k as int),
            decreases n - k,
        {
            let idx = 7 + 6 * k;
            let e = SlotEntry {
                slot_id: u16_from_le(data[idx], data[idx + 1]),
                end_offset: u16_from_le(data[idx + 2], data[idx + 3]),
                length: u16_from_le(data[idx + 4], data[idx + 5]),
            };
            dir.push(e);
            proof {
                lemma_take_push(pdir, k as int);
            }
            k += 1;
        }
        proof {
            assert(dir@ =~= pdir);
        }

        // Strictly ascending slot ids.
        let mut t: usize = 1;
        while t < n
            invariant
                1 <= t,
                t <= n || n == 0,
                n == dir@.len(),
                dir@ == pdir,
                pdir == parse_dir(data@),
                data@.len() == PAGE_SIZE,
                forall|a: int, b: int| 0 <= a < b < t ==> dir@[a].slot_id < dir@[b].slot_id,
            decreases n - t,
        {
            if dir[t - 1].slot_id >= dir[t].slot_id {
                return None;
            }
            t += 1;
        }

        // Total payload bytes, and the fit of header plus payloads.
        let mut used: usize = 0;
        let mut k2: usize = 0;
        while k2 < n
            invariant
                k2 <= n,
                n == dir@.len(),
                n <= 681,
                used == used_of(dir@.take(k2 as int)),
                used <= 65535 * k2,
            decreases n - k2,
        {
            proof {
                lemma_take_push(dir@, k2 as int);
                lemma_used_of_push(dir@.take(k2 as int), dir@[k2 as int]);
            }
            used = used + dir[k2].length as usize;
            k2 += 1;
        }
        proof {
            assert(dir@.take(n as int) =~= dir@);
        }
        if FIXED_HEADER_SIZE + HEADER_PER_VAL_SIZE * n + used > PAGE_SIZE {
            return None;
        }

        // Each entry in range; tombstones in normal form.
        let mut t2: usize = 0;
        while t2 < n
            invariant
                t2 <= n,
                n == dir@.len(),
                dir@ == pdir,
                pdir == parse_dir(data@),
                data@.len() == PAGE_SIZE,
                used == used_of(dir@),
                used <= PAGE_SIZE,
                forall|i: int| 0 <= i < t2 ==> entry_ok(#[trigger] dir@[i], used_of(dir@)),
            decreases n - t2,
        {
            let e = dir[t2];
            if e.length == 0 {
                if e.end_offset != 0 {
                    return None;
                }
            } else {
                if e.end_offset as usize >= PAGE_SIZE {
                    return None;
                }
                if (e.end_offset as usize + 1) + used < PAGE_SIZE + e.length as usize {
                    return None;
                }
            }
            t2 += 1;
        }

        // Live payloads pairwise disjoint.
        let mut a: usize = 0;
        while a < n
            invariant
                a <= n,
                n == dir@.len(),
                dir@ == pdir,
                pdir == parse_dir(data@),
                data@.len() == PAGE_SIZE,
                used <= PAGE_SIZE,
                forall|i: int| 0 <= i < n ==> entry_ok(#[trigger] dir@[i], used_of(dir@)),
                used == used_of(dir@),
                forall|i: int, j: int|
                    0 <= i < j < n && i < a && is_live(dir@[i]) && is_live(dir@[j])
                        ==> entries_disjoint(dir@[i], dir@[j]),
            decreases n - a,
        {
            let ea = dir[a];
            if ea.length > 0 {
                let sa = (ea.end_offset as usize + 1) - ea.length as usize;
                let mut b = a + 1;
                while b < n
                    invariant
                        a < b,
                        b <= n,
                        n == dir@.len(),
                        dir@ == pdir,
                        pdir == parse_dir(data@),
                        data@.len() == PAGE_SIZE,
                        used <= PAGE_SIZE,
                        forall|i: int| 0 <= i < n ==> entry_ok(#[trigger] dir@[i], used_of(dir@)),
                        used == used_of(dir@),
                        a < n,
                        ea == dir@[a as int],
                        is_live(ea),
                        sa == entry_start(ea),
                        forall|j: int|
                            a < j < b && is_live(dir@[j])
                                ==> entries_disjoint(dir@[a as int], dir@[j]),
                    decreases n - b,
                {
                    let eb = dir[b];
                    if eb.length > 0 {
                        let sb = (eb.end_offset as usize + 1) - eb.length as usize;
                        if !(ea.end_offset as usize + 1 <= sb
                            || eb.end_offset as usize + 1 <= sa) {
                            proof {
                                assert(entry_ok(dir@[b as int], used_of(dir@)));
                                assert(!entries_disjoint(dir@[a as int], dir@[b as int]));
                            }
                            return None;
                        }
                    }
                    b += 1;
                }
            }
            a += 1;
        }

        // The recorded open slot matches the directory.
        let expected = next_slot_of(&dir);
        let recorded = if flag == 1 {
            Some(u16_from_le(data[3], data[4]))
        } else {
            None
        };
        let matches = match (expected, recorded) {
            (Some(x), Some(y)) => x == y,
            (None, None) => true,
            _ => false,
        };
        if !matches {
            return None;
        }
        proof {
            assert(dir_wf(pdir));
            assert(parseable(data@));
        }
        Some(Page::from_bytes(data))
    }

    /// Compare this page's serialized bytes against another buffer of the
    /// same size. Returns the runs of differing bytes, each as the offset
    /// where the run starts and this page's bytes over the run; an empty
    /// result means the buffers are identical.
    pub fn compare_page(&self, other_page: Vec<u8>) -> (r: Vec<(u16, Vec<u8>)>)
        requires
            self.wf(),
            other_page@.len() == PAGE_SIZE,
        ensures
            r@.len() == 0 <==> spec_ser(self@) == other_page@,
            forall|t: int|
                0 <= t < r@.len()
                    ==> diff_run_ok(spec_ser(self@), other_page@, #[trigger] r@[t]),
    {
        let bytes = self.to_bytes();
        let mut res: Vec<(u16, Vec<u8>)> = Vec::new();
        let mut in_diff = false;
        let mut diff_start: usize = 0;
        let mut diff_vec: Vec<u8> = Vec::new();
        let mut i: usize = 0;
        while i < PAGE_SIZE
            invariant
                i <= PAGE_SIZE,
                bytes@ == spec_ser(self@),
                bytes@.len() == PAGE_SIZE,
                other_page@.len() == PAGE_SIZE,
                in_diff ==> diff_start + diff_vec@.len() == i && diff_vec@.len() > 0,
                in_diff ==> forall|m: int|
                    0 <= m < diff_vec@.len()
                        ==> diff_vec@[m] == bytes@[diff_start + m]
                            && bytes@[diff_start + m] != other_page@[diff_start + m],
                !in_diff ==> diff_vec@.len() == 0,
                (res@.len() == 0 && !in_diff) <==> (forall|m: int|
                    0 <= m < i ==> bytes@[m] == other_page@[m]),
                forall|t: int|
                    0 <= t < res@.len()
                        ==> diff_run_ok(bytes@, other_page@, #[trigger] res@[t]),
            decreases PAGE_SIZE - i,
        {
            let b1 = bytes[i];
            let b2 = other_page[i];
            if b1 != b2 {
                let ghost was_diff = in_diff;
                if !in_diff {
                    diff_start = i;
                    in_diff = true;
                }
                let ghost dv0 = diff_vec@;
                diff_vec.push(b1);
                proof {
                    if !was_diff {
                        assert(dv0.len() == 0);
                        assert(diff_start == i);
                    } else {
                        assert(diff_start + dv0.len() == i);
                    }
                    assert forall|m: int| 0 <= m < diff_vec@.len()
                        implies diff_vec@[m] == bytes@[diff_start + m]
                            && bytes@[diff_start + m] != other_page@[diff_start + m] by {
                        if m == dv0.len() {
                            assert(diff_start + m == i);
                            assert(diff_vec@[m] == b1);
                        } else {
                            assert(diff_vec@[m] == dv0[m]);
                        }
                    }
                }
            } else if in_diff {
                let ghost r0 = res@;
                let ghost dvs = diff_vec@;
                res.push((diff_start as u16, diff_vec));
                proof {
                    let last = r0.len() as int;
                    assert(res@[last].1@ == dvs);
                    assert(res@[last].0 as int == diff_start as int);
                    assert(diff_run_ok(bytes@, other_page@, res@[last]));
                    assert forall|t: int| 0 <= t < res@.len()
                        implies diff_run_ok(bytes@, other_page@, #[trigger] res@[t]) by {
                        if t < last {
                            assert(res@[t] == r0[t]);
                        }
                    }
                }
                diff_vec = Vec::new();
                in_diff = false;
            }
            i += 1;
        }
        if in_diff {
            let ghost r0 = res@;
            let ghost dvs = diff_vec@;
            res.push((diff_start as u16, diff_vec));
            proof {
                let last = r0.len() as int;
                assert(res@[last].1@ == dvs);
                assert(res@[last].0 as int == diff_start as int);
                assert(diff_run_ok(bytes@, other_page@, res@[last]));
                assert forall|t: int| 0 <= t < res@.len()
                    implies diff_run_ok(bytes@, other_page@, #[trigger] res@[t]) by {
                    if t < last {
                        assert(res@[t] == r0[t]);
                    }
                }
            }
        }
        proof {
            if res@.len() == 0 {
                assert(bytes@ =~= other_page@);
            } else {
                assert(diff_run_ok(bytes@, other_page@, res@[0]));
                lemma_diff_run_witness(bytes@, other_page@, res@[0]);
            }
        }
        res
    }
}

/// A sound diff run: a nonempty segment of the serialized page whose bytes
/// all differ from the other buffer at the same positions.
pub open spec fn diff_run_ok(ser: Seq<u8>, other: Seq<u8>, run: (u16, Vec<u8>)) -> bool {
    let off = run.0 as int;
    let seg = run.1@;
    &&& off + seg.len() <= PAGE_SIZE
    &&& seg.len() > 0
    &&& forall|m: int|
        0 <= m < seg.len() ==> #[trigger] seg[m] == ser[off + m] && ser[off + m] != other[off + m]
}

/// A diff run witnesses that the two buffers differ.
proof fn lemma_diff_run_witness(ser: Seq<u8>, other: Seq<u8>, run: (u16, Vec<u8>))
    requires
        ser.len() == PAGE_SIZE,
        other.len() == PAGE_SIZE,
        diff_run_ok(ser, other, run),
    ensures
        ser != other,
{
    let off = run.0 as int;
    assert(run.1@[0] == ser[off + 0] && ser[off + 0] != other[off + 0]);
}

/// The sum of lengths over a prefix never exceeds the sum over the whole.
pub proof fn lemma_used_of_take_le(dir: Seq<SlotEntry>, k: int)
    requires
        0 <= k <= dir.len(),
    ensures
        used_of(dir.take(k)) <= used_of(dir),
    decreases dir.len() - k,
{
    if k < dir.len() {
        lemma_take_push(dir, k);
        lemma_used_of_push(dir.take(k), dir[k]);
        lemma_used_of_take_le(dir, k + 1);
    } else {
        assert(dir.take(k) =~= dir);
    }
}

/// Whether a directory entry is live; the predicate page iteration filters
/// by.
pub open spec fn live_pred() -> spec_fn(SlotEntry) -> bool {
    |e: SlotEntry| is_live(e)
}

/// Items yielded by page iteration: the payload bytes and slot id of every
/// live entry, in ascending slot-id order.
pub open spec fn page_items(pv: PageV) -> Seq<(Seq<u8>, SlotId)> {
    pv.dir.filter(live_pred()).map(
        |_i: int, e: SlotEntry| (pv.data.subrange(entry_start(e), entry_end(e)), e.slot_id),
    )
}

/// Filtering preserves the ascending order of slot ids.
proof fn lemma_filter_live_sorted(dir: Seq<SlotEntry>)
    requires
        dir_sorted(dir),
    ensures
        dir_sorted(dir.filter(live_pred())),
    decreases dir.len(),
{
    reveal(Seq::filter);
    if dir.len() > 0 {
        let d = dir.drop_last();
        lemma_filter_live_sorted(d);
        if is_live(dir.last()) {
            let f = d.filter(live_pred());
            assert forall|p: int, q: int|
                0 <= p < q < f.len() + 1
                implies f.push(dir.last())[p].slot_id < f.push(dir.last())[q].slot_id by {
                if q == f.len() {
                    lemma_filter_element_of(d, live_pred(), p);
                    let i = choose|i: int| 0 <= i < d.len() && d[i] == f[p];
                    assert(dir[i].slot_id < dir.last().slot_id);
                }
            }
        }
    }
}

/// Page iteration yields live slots in strictly ascending slot-id order.
pub proof fn lemma_page_items_ascending(pv: PageV)
    requires
        page_wf(pv),
    ensures
        forall|p: int, q: int|
            0 <= p < q < page_items(pv).len()
                ==> page_items(pv)[p].1 < page_items(pv)[q].1,
{
    lemma_filter_live_sorted(pv.dir);
}

/// Consuming iterator over a page's live values, in ascending slot-id order.
pub struct PageIntoIter {
    pub page: Page,
    /// Directory position of the next entry to examine.
    pub next_idx: usize,
}

impl PageIntoIter {
    /// Iterator invariant.
    pub open spec fn wf(self) -> bool {
        &&& self.page.wf()
        &&& self.next_idx <= self.page@.dir.len()
    }

    /// The full sequence this iterator yields.
    pub open spec fn items(self) -> Seq<(Seq<u8>, SlotId)> {
        page_items(self.page@)
    }

    /// How many items have been yielded so far.
    pub open spec fn pos(self) -> int {
        self.page@.dir.take(self.next_idx as int).filter(live_pred()).len() as int
    }

    /// Yield the next live value and its slot id, skipping tombstones.
    pub fn next(&mut self) -> (r: Option<(Vec<u8>, SlotId)>)
        requires
            old(self).wf(),
        ensures
            final(self).wf(),
            final(self).items() == old(self).items(),
            match r {
                Some(item) => {
                    &&& old(self).pos() < old(self).items().len()
                    &&& (item.0@, item.1) == old(self).items()[old(self).pos()]
                    &&& final(self).pos() == old(self).pos() + 1
                },
                None => {
                    &&& old(self).pos() == old(self).items().len()
                    &&& final(self).pos() == old(self).pos()
                },
            },
    {
        let ghost dir = self.page@.dir;
        let n = self.page.header.dir.len();
        while self.next_idx < n
            invariant
                self.wf(),
                self.page == old(self).page,
                n == dir.len(),
                dir == self.page@.dir,
                self.next_idx <= n,
                old(self).next_idx <= self.next_idx,
                self.pos() == old(self).pos(),
            decreases n - self.next_idx,
        {
            let idx = self.next_idx;
            let e = self.page.header.dir[idx];
            if e.length > 0 {
                proof {
                    lemma_filter_take_index(dir, live_pred(), idx as int);
                    lemma_value_of_witness(self.page@, idx as int, e.slot_id);
                    assert(entry_ok(dir[idx as int], used_of(dir)));
                }
                let v = self.page.get_value(e.slot_id).unwrap();
                self.next_idx = idx + 1;
                return Some((v, e.slot_id));
            }
            proof {
                lemma_take_push(dir, idx as int);
                lemma_filter_push(dir.take(idx as int), live_pred(), dir[idx as int]);
            }
            self.next_idx = idx + 1;
        }
        proof {
            lemma_filter_take_all(dir, live_pred());
        }
        None
    }
}

impl Page {
    /// The `k`-th live item of the page, in ascending slot-id order, if the
    /// page holds more than `k` live values.
    pub fn get_item(&self, k: usize) -> (r: Option<(Vec<u8>, SlotId)>)
        requires
            self.wf(),
        ensures
            match r {
                Some(item) => {
                    &&& k < page_items(self@).len()
                    &&& (item.0@, item.1) == page_items(self@)[k as int]
                },
                None => k >= page_items(self@).len(),
            },
    {
        let ghost dir = self@.dir;
        let n = self.header.dir.len();
        let mut idx: usize = 0;
        let mut cnt: usize = 0;
        while idx < n
            invariant
                idx <= n,
                cnt <= k,
                self.wf(),
                n == dir.len(),
                dir == self@.dir,
                cnt == dir.take(idx as int).filter(live_pred()).len(),
            decreases n - idx,
        {
            let e = self.header.dir[idx];
            if e.length > 0 {
                proof {
                    lemma_filter_take_index(dir, live_pred(), idx as int);
                }
                if cnt == k {
                    proof {
                        lemma_value_of_witness(self@, idx as int, e.slot_id);
                        assert(entry_ok(dir[idx as int], used_of(dir)));
                    }
                    let v = self.get_value(e.slot_id).unwrap();
                    return Some((v, e.slot_id));
                }
                cnt += 1;
            } else {
                proof {
                    lemma_take_push(dir, idx as int);
                    lemma_filter_push(dir.take(idx as int), live_pred(), dir[idx as int]);
                }
            }
            idx += 1;
        }
        proof {
            lemma_filter_take_all(dir, live_pred());
        }
        None
    }

    /// Consume the page into an iterator over its live values.
    pub fn into_iter(self) -> (it: PageIntoIter)
        requires
            self.wf(),
        ensures
            it.wf(),
            it.pos() == 0,
            it.items() == page_items(self@),
    {
        let it = PageIntoIter { page: self, next_idx: 0 };
        proof {
            assert(it.page@.dir.take(0) =~= Seq::<SlotEntry>::empty());
            reveal(Seq::filter);
        }
        it
    }
}

/// Freed space is reusable at once: on a page with a tombstoned slot, an
/// insert succeeds exactly when its length is positive and within the free
/// space. Together with `delete_value`'s accounting (free space grows by the
/// deleted length), the bytes of a deleted value are available to any later
/// insert that size or smaller.
pub proof fn lemma_tombstone_makes_space(pv: PageV, len: int)
    requires
        page_wf(pv),
        exists|i: int| 0 <= i < pv.dir.len() && #[trigger] pv.dir[i].length == 0,
    ensures
        spec_fits(pv, len) <==> 0 < len <= spec_free_space(pv),
{
    lemma_find_tombstone_cases(pv.dir);
    match find_tombstone(pv.dir) {
        Some(s) => {
            assert(pv.open_slot == Some(s));
            let i = choose|i: int|
                0 <= i < pv.dir.len() && #[trigger] pv.dir[i].slot_id == s
                    && pv.dir[i].length == 0;
            assert(slot_present(pv.dir, s));
        },
        None => {
            let i = choose|i: int| 0 <= i < pv.dir.len() && #[trigger] pv.dir[i].length == 0;
            assert(false);
        },
    }
}

} // verus!
