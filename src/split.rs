//! A list of split files seen as one byte stream, a page-granular in-memory
//! overlay for writing over it, and the repair of zip central-directory
//! offsets that a split archive needs once its parts are joined.

use vstd::prelude::*;

use crate::bytes::{copy_range, le_u16, le_u32};
use crate::error::Error;

verus! {

/// The bytes of the parts, one after the other.
pub open spec fn concat(parts: Seq<Seq<u8>>) -> Seq<u8>
    decreases parts.len(),
{
    if parts.len() == 0 {
        Seq::empty()
    } else {
        concat(parts.drop_last()) + parts.last()
    }
}

/// Where part `i` starts in the joined stream.
pub open spec fn part_start(parts: Seq<Seq<u8>>, i: int) -> int {
    concat(parts.subrange(0, i)).len() as int
}

proof fn lemma_concat_prefix(parts: Seq<Seq<u8>>, i: int)
    requires
        0 <= i < parts.len(),
    ensures
        concat(parts.subrange(0, i + 1)) == concat(parts.subrange(0, i)) + parts[i],
{
    let p = parts.subrange(0, i + 1);
    assert(p.drop_last() =~= parts.subrange(0, i));
}

/// Byte `k` of part `i` stands at `part_start(i) + k` of the joined stream.
proof fn lemma_concat_index(parts: Seq<Seq<u8>>, i: int, k: int)
    requires
        0 <= i < parts.len(),
        0 <= k < parts[i].len(),
    ensures
        part_start(parts, i) + k < concat(parts).len(),
        concat(parts)[part_start(parts, i) + k] == parts[i][k],
    decreases parts.len(),
{
    if i == parts.len() - 1 {
        assert(parts.subrange(0, i) =~= parts.drop_last());
    } else {
        let q = parts.drop_last();
        assert(q.subrange(0, i) =~= parts.subrange(0, i));
        lemma_concat_index(q, i, k);
    }
}

proof fn lemma_part_start_grows(parts: Seq<Seq<u8>>, i: int)
    requires
        0 <= i < parts.len(),
    ensures
        part_start(parts, i + 1) == part_start(parts, i) + parts[i].len(),
{
    lemma_concat_prefix(parts, i);
}

proof fn lemma_part_start_end(parts: Seq<Seq<u8>>)
    ensures
        part_start(parts, parts.len() as int) == concat(parts).len(),
{
    assert(parts.subrange(0, parts.len() as int) =~= parts);
}

proof fn lemma_part_start_mono(parts: Seq<Seq<u8>>, i: int, j: int)
    requires
        0 <= i <= j <= parts.len(),
    ensures
        part_start(parts, i) <= part_start(parts, j),
    decreases j - i,
{
    if i < j {
        lemma_part_start_mono(parts, i, j - 1);
        lemma_part_start_grows(parts, j - 1);
    }
}

/// Several files seen as one stream: their bytes one after the other.
#[derive(Debug)]
pub struct JoinedFile {
    parts: Vec<Vec<u8>>,
    starts: Vec<u64>,
}

impl JoinedFile {
    /// The parts.
    pub closed spec fn parts(&self) -> Seq<Seq<u8>> {
        self.parts@.map_values(|p: Vec<u8>| p@)
    }

    /// The joined stream.
    pub open spec fn bytes(&self) -> Seq<u8> {
        concat(self.parts())
    }

    pub closed spec fn wf(&self) -> bool {
        &&& self.starts@.len() == self.parts@.len() + 1
        &&& forall|i: int| 0 <= i <= self.parts@.len() ==> #[trigger] self.starts@[i] == part_start(self.parts(), i)
        &&& concat(self.parts()).len() <= u64::MAX
    }

    /// Joins `parts` in order.
    pub fn new(parts: Vec<Vec<u8>>) -> (r: JoinedFile)
        requires
            concat(parts@.map_values(|p: Vec<u8>| p@)).len() <= u64::MAX,
        ensures
            r.wf(),
            r.parts() == parts@.map_values(|p: Vec<u8>| p@),
    {
        let ghost ps = parts@.map_values(|p: Vec<u8>| p@);
        let mut starts: Vec<u64> = Vec::new();
        starts.push(0);
        assert(ps.subrange(0, 0) =~= Seq::<Seq<u8>>::empty());
        let mut cur: u64 = 0;
        let mut i: usize = 0;
        while i < parts.len()
            invariant
                ps == parts@.map_values(|p: Vec<u8>| p@),
                concat(ps).len() <= u64::MAX,
                i <= parts@.len(),
                starts@.len() == i + 1,
                cur == part_start(ps, i as int),
                forall|j: int| 0 <= j <= i ==> #[trigger] starts@[j] == part_start(ps, j),
            decreases parts@.len() - i,
        {
            proof {
                lemma_part_start_grows(ps, i as int);
                lemma_part_start_mono(ps, i + 1, ps.len() as int);
                lemma_part_start_end(ps);
            }
            cur = cur + parts[i].len() as u64;
            starts.push(cur);
            i = i + 1;
        }
        JoinedFile { parts, starts }
    }

    /// The length of the joined stream.
    pub fn len(&self) -> (r: u64)
        requires
            self.wf(),
        ensures
            r == self.bytes().len(),
    {
        proof {
            lemma_part_start_end(self.parts());
        }
        self.starts[self.parts.len()]
    }

    /// The number of parts.
    pub fn num_splits(&self) -> (r: usize)
        ensures
            r == self.parts().len(),
    {
        self.parts.len()
    }

    /// The half-open range of the joined stream that each part occupies.
    pub fn splits(&self) -> (r: Vec<(u64, u64)>)
        requires
            self.wf(),
        ensures
            r@.len() == self.parts().len(),
            forall|i: int| 0 <= i < r@.len() ==> #[trigger] r@[i] == (part_start(self.parts(), i) as u64, part_start(self.parts(), i + 1) as u64),
    {
        let mut r: Vec<(u64, u64)> = Vec::new();
        let mut i: usize = 0;
        while i < self.parts.len()
            invariant
                self.wf(),
                i <= self.parts@.len(),
                r@.len() == i,
                forall|j: int| 0 <= j < i ==> #[trigger] r@[j] == (part_start(self.parts(), j) as u64, part_start(self.parts(), j + 1) as u64),
            decreases self.parts@.len() - i,
        {
            r.push((self.starts[i], self.starts[i + 1]));
            i = i + 1;
        }
        r
    }

    /// The part that holds position `pos` of the joined stream, found by
    /// binary search over the part starts.
    fn find_part(&self, pos: u64) -> (r: usize)
        requires
            self.wf(),
            pos < self.bytes().len(),
        ensures
            r < self.parts().len(),
            part_start(self.parts(), r as int) <= pos < part_start(self.parts(), r + 1),
    {
        proof {
            lemma_part_start_end(self.parts());
        }
        let mut lo: usize = 0;
        let mut hi: usize = self.parts.len();
        while hi - lo > 1
            invariant
                self.wf(),
                lo < hi <= self.parts@.len(),
                self.starts@[lo as int] <= pos < self.starts@[hi as int],
            decreases hi - lo,
        {
            let mid = lo + (hi - lo) / 2;
            if self.starts[mid] <= pos {
                lo = mid;
            } else {
                hi = mid;
            }
        }
        lo
    }

    /// Up to `n` bytes of the joined stream from `pos`.
    pub fn read_at(&self, pos: u64, n: usize) -> (r: Vec<u8>)
        requires
            self.wf(),
        ensures
            ({
                let total = self.bytes().len();
                let start = if pos < total { pos as int } else { total as int };
                let end = if start + n < total { start + n } else { total as int };
                r@ == self.bytes().subrange(start, end)
            }),
    {
        let total = self.len();
        let start: u64 = if pos < total { pos } else { total };
        let end: u64 = if (n as u64) < total - start { start + n as u64 } else { total };
        let ghost ps = self.parts();
        let mut out: Vec<u8> = Vec::new();
        if start == end {
            return out;
        }
        let mut i = self.find_part(start);
        let mut cur: u64 = start;
        let np = self.parts.len();
        while cur < end
            invariant
                self.wf(),
                np == ps.len(),
                ps == self.parts(),
                total == concat(ps).len(),
                start <= cur <= end <= total,
                i < ps.len() || cur == end,
                cur < end ==> part_start(ps, i as int) <= cur < part_start(ps, i + 1),
                out@ == concat(ps).subrange(start as int, cur as int),
            decreases end - cur,
        {
            proof {
                lemma_part_start_grows(ps, i as int);
                lemma_part_start_mono(ps, i + 1, ps.len() as int);
                lemma_part_start_end(ps);
            }
            let pstart = self.starts[i];
            let pend = self.starts[i + 1];
            let stop = if end < pend { end } else { pend };
            let part = self.parts[i].as_slice();
            let plen = part.len();
            assert(part@ == ps[i as int]);
            assert(stop - pstart <= plen);
            let piece = copy_range(part, (cur - pstart) as usize, (stop - pstart) as usize);
            proof {
                assert forall|k: int| 0 <= k < piece@.len() implies #[trigger] piece@[k] == concat(ps)[cur + k] by {
                    lemma_concat_index(ps, i as int, cur - pstart + k);
                }
            }
            let ghost before = out@;
            let mut j: usize = 0;
            while j < piece.len()
                invariant
                    out@ == before + piece@.subrange(0, j as int),
                    j <= piece@.len(),
                decreases piece@.len() - j,
            {
                out.push(piece[j]);
                assert(out@ =~= before + piece@.subrange(0, j + 1));
                j = j + 1;
            }
            assert(out@ =~= concat(ps).subrange(start as int, stop as int));
            cur = stop;
            if cur < end {
                i = self.find_part(cur);
            }
        }
        out
    }
}

/// The joined stream is the parts' bytes one after the other: the parts'
/// ranges start at 0, follow each other without gaps and end at the total
/// length, and byte `k` of part `i` is the byte at the start of its range
/// plus `k`.
pub proof fn lemma_joined_bytes(j: JoinedFile)
    requires
        j.wf(),
    ensures
        j.bytes() == concat(j.parts()),
        part_start(j.parts(), 0) == 0,
        part_start(j.parts(), j.parts().len() as int) == j.bytes().len(),
        forall|i: int| 0 <= i < j.parts().len() ==> #[trigger] part_start(j.parts(), i + 1) == part_start(j.parts(), i) + j.parts()[i].len(),
        forall|i: int, k: int| 0 <= i < j.parts().len() && 0 <= k < j.parts()[i].len() ==>
            j.bytes()[#[trigger] (part_start(j.parts(), i) + k)] == #[trigger] j.parts()[i][k],
{
    assert(j.parts().subrange(0, 0) =~= Seq::<Seq<u8>>::empty());
    lemma_part_start_end(j.parts());
    assert forall|i: int| 0 <= i < j.parts().len() implies #[trigger] part_start(j.parts(), i + 1) == part_start(j.parts(), i) + j.parts()[i].len() by {
        lemma_part_start_grows(j.parts(), i);
    }
    assert forall|i: int, k: int| 0 <= i < j.parts().len() && 0 <= k < j.parts()[i].len() implies
        j.bytes()[#[trigger] (part_start(j.parts(), i) + k)] == #[trigger] j.parts()[i][k] by {
        lemma_concat_index(j.parts(), i, k);
    }
}

} // verus!

verus! {

/// The size of an overlay page.
pub const PAGE_SIZE: u64 = 4096;

/// The byte at `g` of an overlay: from its page where the page is held,
/// else from the stream below.
pub open spec fn overlay_byte(pages: Seq<Option<Seq<u8>>>, base: Seq<u8>, g: int) -> u8 {
    match pages[g / PAGE_SIZE as int] {
        Some(pg) => pg[g % PAGE_SIZE as int],
        None => base[g],
    }
}

/// A joined stream with page-granular in-memory overwrites. Reads consult the
/// held pages first and fall through to the stream; the length stays that of
/// the stream.
#[derive(Debug)]
pub struct MemoryCowFile {
    inner: JoinedFile,
    pages: Vec<Option<Vec<u8>>>,
    len: u64,
}

impl MemoryCowFile {
    pub closed spec fn page_views(&self) -> Seq<Option<Seq<u8>>> {
        self.pages@.map_values(|o: Option<Vec<u8>>| match o {
            Some(v) => Some(v@),
            None => None,
        })
    }

    /// The stream below.
    pub closed spec fn base(&self) -> Seq<u8> {
        self.inner.bytes()
    }

    /// What reads see.
    pub closed spec fn view(&self) -> Seq<u8> {
        Seq::new(self.len as nat, |g: int| overlay_byte(self.page_views(), self.inner.bytes(), g))
    }

    pub closed spec fn wf(&self) -> bool {
        &&& self.inner.wf()
        &&& self.len == self.inner.bytes().len()
        &&& (self.len as int) / (PAGE_SIZE as int) < self.pages@.len()
        &&& forall|p: int| 0 <= p < self.pages@.len() ==> (#[trigger] self.pages@[p] matches Some(pg) ==> pg@.len() == PAGE_SIZE)
    }

    /// An overlay with no overwrites yet.
    pub fn new(inner: JoinedFile) -> (r: MemoryCowFile)
        requires
            inner.wf(),
        ensures
            r.wf(),
            r.base() == inner.bytes(),
            r.view() == inner.bytes(),
    {
        let len = inner.len();
        let n = len / PAGE_SIZE + 1;
        let mut pages: Vec<Option<Vec<u8>>> = Vec::new();
        let mut i: u64 = 0;
        while i < n
            invariant
                pages@.len() == i,
                i <= n,
                forall|p: int| 0 <= p < i ==> #[trigger] pages@[p] is None,
            decreases n - i,
        {
            pages.push(None);
            i = i + 1;
        }
        let r = MemoryCowFile { inner, pages, len };
        proof {
            assert forall|g: int| 0 <= g < len implies #[trigger] r.view()[g] == r.base()[g] by {
                assert(r.pages@[g / PAGE_SIZE as int] is None);
            }
            assert(r.view() =~= r.base());
        }
        r
    }

    /// The length, which the overwrites never change.
    pub fn len(&self) -> (r: u64)
        requires
            self.wf(),
        ensures
            r == self.view().len(),
    {
        self.len
    }

    /// A page of the stream below, zero-padded to the page size.
    fn load_page(&self, start: u64) -> (r: Vec<u8>)
        requires
            self.wf(),
            start <= self.len,
        ensures
            r@.len() == PAGE_SIZE,
            forall|k: int| 0 <= k < PAGE_SIZE && start + k < self.len ==> #[trigger] r@[k] == self.base()[start + k],
    {
        let n: usize = if PAGE_SIZE < self.len - start { PAGE_SIZE as usize } else { (self.len - start) as usize };
        let mut page = self.inner.read_at(start, n);
        while (page.len() as u64) < PAGE_SIZE
            invariant
                n <= page@.len() <= PAGE_SIZE,
                n as int == if start + PAGE_SIZE < self.len { PAGE_SIZE as int } else { self.len - start },
                forall|k: int| 0 <= k < n ==> #[trigger] page@[k] == self.base()[start + k],
            decreases PAGE_SIZE - page@.len(),
        {
            page.push(0);
        }
        page
    }

    /// Overwrites the byte at `g`.
    fn write_byte(&mut self, g: u64, b: u8)
        requires
            old(self).wf(),
            g < old(self).len,
        ensures
            final(self).wf(),
            final(self).base() == old(self).base(),
            final(self).view() == old(self).view().update(g as int, b),
    {
        let off = g % PAGE_SIZE;
        let start = g - off;
        let np = self.pages.len();
        assert(g / PAGE_SIZE <= self.len / PAGE_SIZE) by {
            vstd::arithmetic::div_mod::lemma_div_is_ordered(g as int, self.len as int, PAGE_SIZE as int);
        }
        let p = (g / PAGE_SIZE) as usize;
        let held = match &self.pages[p] {
            Some(_) => true,
            None => false,
        };
        let fresh: Vec<u8> = if held {
            Vec::new()
        } else {
            self.load_page(start)
        };
        let mut slot: Option<Vec<u8>> = None;
        let ghost before = *self;
        std::mem::swap(&mut slot, &mut self.pages[p]);
        let mut page = match slot {
            Some(pg) => pg,
            None => fresh,
        };
        page.set(off as usize, b);
        self.pages.set(p, Some(page));
        proof {
            let pv = self.page_views();
            let bv = before.page_views();
            assert forall|q: int| 0 <= q < self.pages@.len() implies (#[trigger] self.pages@[q] matches Some(pg) ==> pg@.len() == PAGE_SIZE) by {
                if q != p {
                    assert(self.pages@[q] == before.pages@[q]);
                }
            }
            vstd::arithmetic::div_mod::lemma_fundamental_div_mod(g as int, PAGE_SIZE as int);
            assert forall|h: int| 0 <= h < self.len implies #[trigger] self.view()[h] == before.view().update(g as int, b)[h] by {
                vstd::arithmetic::div_mod::lemma_fundamental_div_mod(h, PAGE_SIZE as int);
                vstd::arithmetic::div_mod::lemma_mod_pos_bound(h, PAGE_SIZE as int);
                if h / PAGE_SIZE as int == p as int {
                    assert(h == g ==> h % PAGE_SIZE as int == off);
                    assert(h % PAGE_SIZE as int == off ==> h == g);
                    assert(start + h % PAGE_SIZE as int == h);
                } else {
                    assert(pv[h / PAGE_SIZE as int] == bv[h / PAGE_SIZE as int]);
                }
            }
            assert(self.view() =~= before.view().update(g as int, b));
        }
    }

    /// Overwrites the bytes from `pos` with `buf`.
    pub fn write_at(&mut self, pos: u64, buf: &[u8])
        requires
            old(self).wf(),
            pos + buf@.len() <= old(self).view().len(),
        ensures
            final(self).wf(),
            final(self).base() == old(self).base(),
            final(self).view().len() == old(self).view().len(),
            forall|g: int| 0 <= g < old(self).view().len() ==> #[trigger] final(self).view()[g] == if pos <= g < pos + buf@.len() {
                buf@[g - pos]
            } else {
                old(self).view()[g]
            },
    {
        let mut i: usize = 0;
        while i < buf.len()
            invariant
                self.wf(),
                self.base() == old(self).base(),
                self.view().len() == old(self).view().len(),
                pos + buf@.len() <= old(self).view().len(),
                i <= buf@.len(),
                forall|g: int| 0 <= g < old(self).view().len() ==> #[trigger] self.view()[g] == if pos <= g < pos + i {
                    buf@[g - pos]
                } else {
                    old(self).view()[g]
                },
            decreases buf@.len() - i,
        {
            self.write_byte(pos + i as u64, buf[i]);
            i = i + 1;
        }
    }

    /// Up to `n` bytes from `pos`, as reads see them.
    pub fn read_at(&self, pos: u64, n: usize) -> (r: Vec<u8>)
        requires
            self.wf(),
        ensures
            ({
                let total = self.view().len();
                let start = if pos < total { pos as int } else { total as int };
                let end = if start + n < total { start + n } else { total as int };
                r@ == self.view().subrange(start, end)
            }),
    {
        let total = self.len;
        let start: u64 = if pos < total { pos } else { total };
        let end: u64 = if (n as u64) < total - start { start + n as u64 } else { total };
        let mut out: Vec<u8> = Vec::new();
        let mut cur = start;
        while cur < end
            invariant
                self.wf(),
                total == self.len,
                start <= cur <= end <= total,
                out@ == self.view().subrange(start as int, cur as int),
            decreases end - cur,
        {
            let off = cur % PAGE_SIZE;
            let np = self.pages.len();
            assert(cur / PAGE_SIZE <= self.len / PAGE_SIZE) by {
                vstd::arithmetic::div_mod::lemma_div_is_ordered(cur as int, self.len as int, PAGE_SIZE as int);
            }
            let p = (cur / PAGE_SIZE) as usize;
            proof {
                vstd::arithmetic::div_mod::lemma_fundamental_div_mod(cur as int, PAGE_SIZE as int);
            }
            let room = PAGE_SIZE - off;
            let stop = if end - cur < room { end } else { cur + room };
            let piece: Vec<u8> = match &self.pages[p] {
                Some(pg) => copy_range(pg.as_slice(), off as usize, (off + (stop - cur)) as usize),
                None => self.inner.read_at(cur, (stop - cur) as usize),
            };
            proof {
                assert forall|k: int| 0 <= k < stop - cur implies #[trigger] piece@[k] == self.view()[cur + k] by {
                    vstd::arithmetic::div_mod::lemma_fundamental_div_mod_converse(
                        cur + k,
                        PAGE_SIZE as int,
                        p as int,
                        off + k,
                    );
                }
            }
            let ghost before = out@;
            let mut j: usize = 0;
            while j < piece.len()
                invariant
                    out@ == before + piece@.subrange(0, j as int),
                    j <= piece@.len(),
                decreases piece@.len() - j,
            {
                out.push(piece[j]);
                assert(out@ =~= before + piece@.subrange(0, j + 1));
                j = j + 1;
            }
            assert(out@ =~= self.view().subrange(start as int, stop as int));
            cur = stop;
        }
        out
    }
}

} // verus!

verus! {

/// Whether an end-of-central-directory record (signature `PK\x05\x06`) starts at `e`.
pub open spec fn eocd_at(v: Seq<u8>, e: int) -> bool {
    0 <= e && e + 22 <= v.len() && v[e] == 0x50 && v[e + 1] == 0x4B && v[e + 2] == 5 && v[e + 3] == 6
}

/// The last end record that starts at or below `e` and at or above `lo`.
pub open spec fn eocd_from(v: Seq<u8>, e: int, lo: int) -> Option<int>
    decreases e + 1 - lo,
{
    if e < lo || e < 0 {
        None
    } else if eocd_at(v, e) {
        Some(e)
    } else {
        eocd_from(v, e - 1, lo)
    }
}

/// The end record of an archive: the last one, within the 22 bytes of the
/// record plus the longest comment from the end.
pub open spec fn find_eocd(v: Seq<u8>) -> Option<int> {
    if v.len() < 22 {
        None
    } else {
        eocd_from(v, v.len() - 22, if v.len() - 22 - 65535 > 0 { v.len() - 22 - 65535 } else { 0 })
    }
}

/// Whether a central-directory entry (signature `PK\x01\x02`) starts at `p`.
pub open spec fn cd_entry_at(v: Seq<u8>, p: int) -> bool {
    0 <= p && p + 46 <= v.len() && v[p] == 0x50 && v[p + 1] == 0x4B && v[p + 2] == 1 && v[p + 3] == 2
}

/// The position after the central-directory entry at `p`.
pub open spec fn cd_entry_end(v: Seq<u8>, p: int) -> int {
    p + 46 + le_u16(v, p + 28) + le_u16(v, p + 30) + le_u16(v, p + 32)
}

/// The positions of `n` central-directory entries from `p` on.
pub open spec fn cd_walk(v: Seq<u8>, p: int, n: nat) -> Option<Seq<int>>
    decreases n,
{
    if n == 0 {
        Some(Seq::empty())
    } else if !cd_entry_at(v, p) {
        None
    } else {
        match cd_walk(v, cd_entry_end(v, p), (n - 1) as nat) {
            Some(rest) => Some(seq![p] + rest),
            None => None,
        }
    }
}

/// Where the central directory starts in the joined stream.
pub open spec fn cd_start(v: Seq<u8>, e: int, ranges: Seq<(u64, u64)>) -> int {
    ranges[le_u16(v, e + 6) as int].0 + le_u32(v, e + 16)
}

/// The repaired local-header offset of the entry at `p`.
pub open spec fn repaired_offset(v: Seq<u8>, p: int, ranges: Seq<(u64, u64)>) -> int {
    ranges[le_u16(v, p + 34) as int].0 + le_u32(v, p + 42)
}

/// Whether the entry at `p` names a disk that exists, gets an offset that
/// fits 32 bits, and ends before the end record at `e`.
pub open spec fn entry_repairable(v: Seq<u8>, p: int, ranges: Seq<(u64, u64)>, e: int) -> bool {
    &&& le_u16(v, p + 34) < ranges.len()
    &&& repaired_offset(v, p, ranges) <= u32::MAX
    &&& cd_entry_end(v, p) <= e
}

/// Whether every entry at the positions `ps` can be repaired.
pub open spec fn entries_repairable(v: Seq<u8>, ps: Seq<int>, ranges: Seq<(u64, u64)>, e: int) -> bool {
    forall|i: int| 0 <= i < ps.len() ==> #[trigger] entry_repairable(v, ps[i], ranges, e)
}

/// Whether an archive can be repaired: the end record is found, the disks it
/// and each entry name exist, the entries follow each other before the end
/// record, and every repaired offset fits 32 bits.
pub open spec fn repairable(v: Seq<u8>, ranges: Seq<(u64, u64)>) -> bool {
    match find_eocd(v) {
        None => false,
        Some(e) => {
            let walk = cd_walk(v, cd_start(v, e, ranges), le_u16(v, e + 10) as nat);
            &&& le_u16(v, e + 6) < ranges.len()
            &&& cd_start(v, e, ranges) <= u32::MAX
            &&& walk is Some
            &&& entries_repairable(v, walk->0, ranges, e)
        },
    }
}

proof fn lemma_entry_blocks_repair(v: Seq<u8>, ranges: Seq<(u64, u64)>, e: int, ps: Seq<int>, k: int)
    requires
        find_eocd(v) == Some(e),
        cd_walk(v, cd_start(v, e, ranges), le_u16(v, e + 10) as nat) == Some(ps),
        0 <= k < ps.len(),
        !entry_repairable(v, ps[k], ranges, e),
    ensures
        !repairable(v, ranges),
{
    if repairable(v, ranges) {
        assert(entries_repairable(v, ps, ranges, e));
        assert(entry_repairable(v, ps[k], ranges, e));
    }
}

/// Whether byte `g` is one of the two fields rewritten in the directory
/// entry at `p`: its disk number or its local-header offset.
pub open spec fn entry_field(p: int, g: int) -> bool {
    (p + 34 <= g < p + 36) || (p + 42 <= g < p + 46)
}

/// Whether byte `g` is one of the fields rewritten in the end record at `e`:
/// the disk numbers, the entry count on this disk, or the directory offset.
pub open spec fn eocd_field(e: int, g: int) -> bool {
    (e + 4 <= g < e + 10) || (e + 16 <= g < e + 20)
}

/// Writes `x` little-endian at `pos`.
fn write_u16_le(cow: &mut MemoryCowFile, pos: u64, x: u16)
    requires
        old(cow).wf(),
        pos + 2 <= old(cow).view().len(),
    ensures
        final(cow).wf(),
        final(cow).base() == old(cow).base(),
        final(cow).view().len() == old(cow).view().len(),
        le_u16(final(cow).view(), pos as int) == x,
        forall|g: int| 0 <= g < old(cow).view().len() && !(pos <= g < pos + 2) ==> #[trigger] final(cow).view()[g] == old(cow).view()[g],
{
    let b: [u8; 2] = [(x & 0xFF) as u8, (x >> 8u16) as u8];
    cow.write_at(pos, b.as_slice());
    let ghost v = cow.view();
    assert(v[pos as int] == b@[0] && v[pos + 1] == b@[1]);
    assert(((((x & 0xFF) as u8) as u16) | ((((x >> 8u16) as u8) as u16) << 8u16)) as u16 == x) by (bit_vector);
}

/// Writes `x` little-endian at `pos`.
fn write_u32_le(cow: &mut MemoryCowFile, pos: u64, x: u32)
    requires
        old(cow).wf(),
        pos + 4 <= old(cow).view().len(),
    ensures
        final(cow).wf(),
        final(cow).base() == old(cow).base(),
        final(cow).view().len() == old(cow).view().len(),
        le_u32(final(cow).view(), pos as int) == x,
        forall|g: int| 0 <= g < old(cow).view().len() && !(pos <= g < pos + 4) ==> #[trigger] final(cow).view()[g] == old(cow).view()[g],
{
    let b: [u8; 4] = [(x & 0xFF) as u8, ((x >> 8u32) & 0xFF) as u8, ((x >> 16u32) & 0xFF) as u8, (x >> 24u32) as u8];
    cow.write_at(pos, b.as_slice());
    let ghost v = cow.view();
    assert(v[pos as int] == b@[0] && v[pos + 1] == b@[1] && v[pos + 2] == b@[2] && v[pos + 3] == b@[3]);
    assert(((((x & 0xFF) as u8) as u32) | ((((x >> 8u32) & 0xFF) as u8 as u32) << 8u32) | ((((x >> 16u32) & 0xFF) as u8 as u32) << 16u32) | ((((x >> 24u32) as u8) as u32) << 24u32)) as u32 == x) by (bit_vector);
}

} // verus!

verus! {

/// The little-endian `u16` at `pos` of what reads see.
fn cow_u16(cow: &MemoryCowFile, pos: u64) -> (r: u16)
    requires
        cow.wf(),
        pos + 2 <= cow.view().len(),
    ensures
        r == le_u16(cow.view(), pos as int),
{
    let b = cow.read_at(pos, 2);
    crate::bytes::read_u16_le(b.as_slice(), 0)
}

/// The little-endian `u32` at `pos` of what reads see.
fn cow_u32(cow: &MemoryCowFile, pos: u64) -> (r: u32)
    requires
        cow.wf(),
        pos + 4 <= cow.view().len(),
    ensures
        r == le_u32(cow.view(), pos as int),
{
    let b = cow.read_at(pos, 4);
    crate::bytes::read_u32_le(b.as_slice(), 0)
}

/// Whether the signature `P K a b` stands at `pos`.
fn cow_sig(cow: &MemoryCowFile, pos: u64, a: u8, b: u8) -> (r: bool)
    requires
        cow.wf(),
        pos + 4 <= cow.view().len(),
    ensures
        r == (cow.view()[pos as int] == 0x50 && cow.view()[pos + 1] == 0x4B && cow.view()[pos + 2] == a
            && cow.view()[pos + 3] == b),
{
    let s = cow.read_at(pos, 4);
    s[0] == 0x50 && s[1] == 0x4B && s[2] == a && s[3] == b
}

proof fn lemma_eocd_from(v: Seq<u8>, e: int, lo: int)
    ensures
        eocd_from(v, e, lo) matches Some(x) ==> eocd_at(v, x),
    decreases e + 1 - lo,
{
    if e >= lo && e >= 0 && !eocd_at(v, e) {
        lemma_eocd_from(v, e - 1, lo);
    }
}

/// Finds the end record.
fn locate_eocd(cow: &MemoryCowFile) -> (r: Option<u64>)
    requires
        cow.wf(),
    ensures
        r matches Some(e) ==> find_eocd(cow.view()) == Some(e as int),
        r is None ==> find_eocd(cow.view()) is None,
{
    let len = cow.len();
    if len < 22 {
        return None;
    }
    let lo: u64 = if len - 22 > 65535 { len - 22 - 65535 } else { 0 };
    let mut e: u64 = len - 22;
    loop
        invariant
            cow.wf(),
            len == cow.view().len(),
            len >= 22,
            lo <= e + 1,
            e <= len - 22,
            lo == if len - 22 - 65535 > 0 { len - 22 - 65535 } else { 0 },
            find_eocd(cow.view()) == eocd_from(cow.view(), e as int, lo as int),
        decreases e + 1 - lo,
    {
        if e < lo {
            return None;
        }
        if cow_sig(cow, e, 5, 6) {
            return Some(e);
        }
        if e == 0 {
            assert(eocd_from(cow.view(), -1, lo as int) is None);
            return None;
        }
        e = e - 1;
    }
}

/// The entries to rewrite, each with its new offset: walks the directory
/// of the archive whose end record is at `e`, checking what [`repairable`]
/// asks for.
#[verifier::rlimit(60)]
fn plan_fixes(cow: &MemoryCowFile, ranges: &[(u64, u64)], e: u64) -> (r: Result<
    (Vec<(u64, u32)>, Ghost<Seq<int>>),
    Error,
>)
    requires
        cow.wf(),
        find_eocd(cow.view()) == Some(e as int),
        eocd_at(cow.view(), e as int),
    ensures
        r is Err ==> r == Err::<(Vec<(u64, u32)>, Ghost<Seq<int>>), Error>(Error::MalformedEntry)
            && !repairable(cow.view(), ranges@),
        r matches Ok((fixes, ps)) ==> {
            let v = cow.view();
            &&& repairable(v, ranges@)
            &&& cd_walk(v, cd_start(v, e as int, ranges@), le_u16(v, e + 10) as nat) == Some(ps@)
            &&& fixes@.len() == ps@.len()
            &&& forall|j: int| 0 <= j < ps@.len() ==> {
                &&& cd_entry_at(v, #[trigger] ps@[j])
                &&& fixes@[j].0 == ps@[j]
                &&& fixes@[j].1 == repaired_offset(v, ps@[j], ranges@)
                &&& cd_entry_end(v, ps@[j]) <= e
                &&& j + 1 < ps@.len() ==> ps@[j + 1] == cd_entry_end(v, ps@[j])
            }
        },
{
    let ghost v = cow.view();
    let disk_cd = cow_u16(cow, e + 6);
    let total = cow_u16(cow, e + 10);
    let cd_off = cow_u32(cow, e + 16);
    if disk_cd as usize >= ranges.len() {
        return Err(Error::MalformedEntry);
    }
    let base = ranges[disk_cd as usize].0;
    if base > u32::MAX as u64 - cd_off as u64 {
        return Err(Error::MalformedEntry);
    }
    let cd_abs: u64 = base + cd_off as u64;
    let len = cow.len();
    let mut fixes: Vec<(u64, u32)> = Vec::new();
    let mut p: u64 = cd_abs;
    let mut k: u16 = 0;
    let ghost done: Seq<int> = Seq::empty();
    while k < total
        invariant
            cow.wf(),
            cow.view() == v,
            len == v.len(),
            find_eocd(v) == Some(e as int),
            eocd_at(v, e as int),
            total == le_u16(v, e + 10),
            cd_abs == cd_start(v, e as int, ranges@),
            le_u16(v, e + 6) < ranges@.len(),
            cd_start(v, e as int, ranges@) <= u32::MAX,
            k <= total,
            done.len() == k,
            fixes@.len() == k,
            k > 0 ==> p == cd_entry_end(v, done.last()),
            k == 0 ==> p == cd_abs,
            forall|j: int| 0 <= j < k ==> {
                &&& cd_entry_at(v, #[trigger] done[j])
                &&& fixes@[j].0 == done[j]
                &&& entry_repairable(v, done[j], ranges@, e as int)
                &&& fixes@[j].1 == repaired_offset(v, done[j], ranges@)
                &&& cd_entry_end(v, done[j]) <= e
                &&& j + 1 < k ==> done[j + 1] == cd_entry_end(v, done[j])
            },
            cd_walk(v, cd_abs as int, total as nat) == match cd_walk(v, p as int, (total - k) as nat) {
                Some(rest) => Some(done + rest),
                None => None::<Seq<int>>,
            },
        decreases total - k,
    {
        if p > e || e - p < 46 || !cow_sig(cow, p, 1, 2) {
            proof {
                if let Some(rest) = cd_walk(v, p as int, (total - k) as nat) {
                    assert(rest[0] == p);
                    let ps = done + rest;
                    assert(ps[k as int] == p);
                    assert(cd_walk(v, cd_start(v, e as int, ranges@), le_u16(v, e + 10) as nat) == Some(ps));
                    assert(!entry_repairable(v, ps[k as int], ranges@, e as int));
                    lemma_entry_blocks_repair(v, ranges@, e as int, ps, k as int);
                } else {
                    assert(cd_walk(v, cd_start(v, e as int, ranges@), le_u16(v, e + 10) as nat) is None);
                }
            }
            return Err(Error::MalformedEntry);
        }
        let disk = cow_u16(cow, p + 34);
        let lho = cow_u32(cow, p + 42);
        let extra = cow_u16(cow, p + 28) as u64 + cow_u16(cow, p + 30) as u64 + cow_u16(cow, p + 32) as u64;
        let bad_disk = disk as usize >= ranges.len();
        let bad_offset = !bad_disk && ranges[disk as usize].0 > u32::MAX as u64 - lho as u64;
        let bad_end = extra > e - p - 46;
        if bad_disk || bad_offset || bad_end {
            proof {
                if let Some(rest) = cd_walk(v, p as int, (total - k) as nat) {
                    assert(rest[0] == p);
                    let ps = done + rest;
                    assert(ps[k as int] == p);
                    assert(cd_walk(v, cd_start(v, e as int, ranges@), le_u16(v, e + 10) as nat) == Some(ps));
                    assert(!entry_repairable(v, ps[k as int], ranges@, e as int));
                    lemma_entry_blocks_repair(v, ranges@, e as int, ps, k as int);
                } else {
                    assert(cd_walk(v, cd_start(v, e as int, ranges@), le_u16(v, e + 10) as nat) is None);
                }
            }
            return Err(Error::MalformedEntry);
        }
        let end = p + 46 + extra;
        fixes.push((p, (ranges[disk as usize].0 + lho as u64) as u32));
        proof {
            match cd_walk(v, end as int, (total - k - 1) as nat) {
                Some(rest) => {
                    assert(done + (seq![p as int] + rest) =~= (done + seq![p as int]) + rest);
                },
                None => {},
            }
            done = done + seq![p as int];
        }
        p = end;
        k = k + 1;
    }
    proof {
        assert(done + Seq::<int>::empty() =~= done);
        assert(repairable(v, ranges@));
    }
    Ok((fixes, Ghost(done)))
}

/// Rewrites a split archive's central directory, on the overlay over its
/// joined parts, so that it reads as a single-disk archive: each entry's
/// local-header offset becomes the start of its disk's range plus the offset
/// it records, and its disk number 0; the end record's disk numbers become 0,
/// its entry count on this disk the total, and its directory offset absolute.
/// `ranges` are the parts' ranges in the joined stream. Nothing is written
/// unless the whole directory can be repaired.
pub fn fix_offsets(cow: &mut MemoryCowFile, ranges: &[(u64, u64)]) -> (r: Result<(), Error>)
    requires
        old(cow).wf(),
    ensures
        final(cow).wf(),
        final(cow).base() == old(cow).base(),
        final(cow).view().len() == old(cow).view().len(),
        find_eocd(old(cow).view()) is None ==> r == Err::<(), Error>(Error::BadMagic),
        find_eocd(old(cow).view()) is Some ==> (r is Ok <==> repairable(old(cow).view(), ranges@)),
        r is Err ==> final(cow).view() == old(cow).view() && (r == Err::<(), Error>(Error::BadMagic) || r
            == Err::<(), Error>(Error::MalformedEntry)),
        r is Ok ==> ({
            let v = old(cow).view();
            let e = find_eocd(v)->0;
            let ps = cd_walk(v, cd_start(v, e, ranges@), le_u16(v, e + 10) as nat)->0;
            &&& forall|i: int| 0 <= i < ps.len() ==> le_u16(final(cow).view(), #[trigger] ps[i] + 34) == 0
                && le_u32(final(cow).view(), ps[i] + 42) == repaired_offset(v, ps[i], ranges@)
            &&& le_u16(final(cow).view(), e + 4) == 0
            &&& le_u16(final(cow).view(), e + 6) == 0
            &&& le_u16(final(cow).view(), e + 8) == le_u16(v, e + 10)
            &&& le_u32(final(cow).view(), e + 16) == cd_start(v, e, ranges@)
            &&& forall|g: int|
                0 <= g < v.len() && !eocd_field(e, g) && (forall|i: int| 0 <= i < ps.len() ==> !entry_field(#[trigger] ps[i], g))
                    ==> #[trigger] final(cow).view()[g] == v[g]
        }),
{
    let ghost v = cow.view();
    let e = match locate_eocd(cow) {
        Some(e) => e,
        None => {
            return Err(Error::BadMagic);
        },
    };
    proof {
        let lo = if v.len() - 22 - 65535 > 0 { v.len() - 22 - 65535 } else { 0 };
        lemma_eocd_from(v, v.len() - 22, lo);
    }
    let (fixes, ps) = plan_fixes(cow, ranges, e)?;
    let total = cow_u16(cow, e + 10);
    let cd_abs = ranges[cow_u16(cow, e + 6) as usize].0 + cow_u32(cow, e + 16) as u64;
    let mut i: usize = 0;
    while i < fixes.len()
        invariant
            cow.wf(),
            cow.base() == old(cow).base(),
            cow.view().len() == v.len(),
            eocd_at(v, e as int),
            i <= fixes@.len(),
            fixes@.len() == ps@.len(),
            forall|j: int| 0 <= j < ps@.len() ==> {
                &&& cd_entry_at(v, #[trigger] ps@[j])
                &&& fixes@[j].0 == ps@[j]
                &&& fixes@[j].1 == repaired_offset(v, ps@[j], ranges@)
                &&& cd_entry_end(v, ps@[j]) <= e
                &&& j + 1 < ps@.len() ==> ps@[j + 1] == cd_entry_end(v, ps@[j])
            },
            forall|j: int| 0 <= j < i ==> le_u16(cow.view(), #[trigger] ps@[j] + 34) == 0
                && le_u32(cow.view(), ps@[j] + 42) == fixes@[j].1,
            forall|j: int| 0 <= j < i ==> ps@[j] + 46 <= (if i < ps@.len() { ps@[i as int] } else { e as int }),
            forall|g: int| (if i < ps@.len() { ps@[i as int] } else { e as int }) <= g < v.len() ==> #[trigger] cow.view()[g] == v[g],
            forall|g: int| 0 <= g < v.len() && (forall|j: int| 0 <= j < i ==> !entry_field(#[trigger] ps@[j], g))
                ==> #[trigger] cow.view()[g] == v[g],
        decreases fixes@.len() - i,
    {
        let (fp, fo) = fixes[i];
        assert(cd_entry_at(v, ps@[i as int]) && fp == ps@[i as int]);
        write_u16_le(cow, fp + 34, 0);
        write_u32_le(cow, fp + 42, fo);
        proof {
            assert forall|g: int| 0 <= g < v.len() && (forall|j: int| 0 <= j < i + 1 ==> !entry_field(#[trigger] ps@[j], g))
                implies #[trigger] cow.view()[g] == v[g] by {
                assert(!entry_field(ps@[i as int], g));
                assert(forall|j: int| 0 <= j < i ==> !entry_field(#[trigger] ps@[j], g));
            }
        }
        i = i + 1;
    }
    write_u16_le(cow, e + 4, 0);
    write_u16_le(cow, e + 6, 0);
    write_u16_le(cow, e + 8, total);
    write_u32_le(cow, e + 16, cd_abs as u32);
    Ok(())
}

} // verus!
