//! Scanning installer images: literal needles, the linker's padding sentinel,
//! and the marker that tells which installer format follows it.

use vstd::prelude::*;

use crate::error::Error;

verus! {

/// Whether `needle` occurs in `hay` starting at `i`.
pub open spec fn matches_at(hay: Seq<u8>, needle: Seq<u8>, i: int) -> bool {
    0 <= i && i + needle.len() <= hay.len() && hay.subrange(i, i + needle.len()) == needle
}

/// Whether `i` is the first position at which `needle` occurs in `hay`.
pub open spec fn is_first_match(hay: Seq<u8>, needle: Seq<u8>, i: int) -> bool {
    matches_at(hay, needle, i) && forall|j: int| 0 <= j < i ==> !matches_at(hay, needle, j)
}

/// Relies on `memchr::memmem::find`: the index of the first occurrence of
/// `needle` in `haystack`, or `None` when there is none.
#[verifier::external_body]
fn memmem_find(haystack: &[u8], needle: &[u8]) -> (r: Option<usize>)
    ensures
        r matches Some(i) ==> is_first_match(haystack@, needle@, i as int),
        r is None ==> forall|j: int| !matches_at(haystack@, needle@, j),
{
    ::memchr::memmem::find(haystack, needle)
}

/// The size of the window that [`find_needle`] searches at a time.
pub const SCAN_BUF_SIZE: usize = 4096;

/// The first position at which `needle` occurs in `data`. The data is searched
/// window by window, each window of [`SCAN_BUF_SIZE`] bytes overlapping the one
/// before by one byte less than the needle, so that a match across a window
/// boundary is found.
pub fn find_needle(data: &[u8], needle: &[u8]) -> (r: Option<u64>)
    requires
        1 <= needle@.len() <= SCAN_BUF_SIZE,
    ensures
        r matches Some(i) ==> is_first_match(data@, needle@, i as int),
        r is None ==> forall|j: int| !matches_at(data@, needle@, j),
{
    let n = needle.len();
    let overlap = n - 1;
    let mut start: usize = 0;
    loop
        invariant
            n == needle@.len(),
            1 <= n <= SCAN_BUF_SIZE,
            overlap == n - 1,
            start <= data@.len(),
            forall|j: int| 0 <= j < start ==> !matches_at(data@, needle@, j),
        decreases data@.len() - start,
    {
        let end: usize = if data.len() - start > SCAN_BUF_SIZE {
            start + SCAN_BUF_SIZE
        } else {
            data.len()
        };
        if end - start < n {
            assert forall|j: int| #![auto] !matches_at(data@, needle@, j) by {
                if j >= start as int {
                    assert(j + n > data@.len());
                }
            }
            return None;
        }
        let window = &data[start..end];
        let found = memmem_find(window, needle);
        proof {
            assert forall|k: int| 0 <= k && k + n <= window@.len() implies (matches_at(
                window@,
                needle@,
                k,
            ) <==> matches_at(data@, needle@, start + k)) by {
                assert(window@.subrange(k, k + n) =~= data@.subrange(start + k, start + k + n));
            }
        }
        match found {
            Some(k) => {
                proof {
                    assert(matches_at(data@, needle@, start + k));
                    assert forall|j: int| 0 <= j < start + k implies !matches_at(
                        data@,
                        needle@,
                        j,
                    ) by {
                        if j >= start {
                            assert(!matches_at(window@, needle@, j - start));
                        }
                    }
                }
                return Some((start + k) as u64);
            },
            None => {
                proof {
                    assert forall|j: int| 0 <= j < end - overlap implies !matches_at(
                        data@,
                        needle@,
                        j,
                    ) by {
                        if j >= start {
                            assert(!matches_at(window@, needle@, j - start));
                        }
                    }
                }
                if end == data.len() {
                    assert forall|j: int| #![auto] !matches_at(data@, needle@, j) by {
                        if j >= end - overlap {
                            assert(j + n > data@.len());
                        }
                    }
                    return None;
                }
                start = end - overlap;
            },
        }
    }
}

} // verus!

verus! {

/// The 16-byte `PADDINGXXPADDING` pattern with which linkers pad PE sections.
pub open spec fn padding_pattern() -> Seq<u8> {
    seq![
        0x50u8, 0x41u8, 0x44u8, 0x44u8, 0x49u8, 0x4Eu8, 0x47u8, 0x58u8,
        0x58u8, 0x50u8, 0x41u8, 0x44u8, 0x44u8, 0x49u8, 0x4Eu8, 0x47u8,
    ]
}

/// The pattern as bytes that code can compare against.
fn padding_bytes() -> (r: [u8; 16])
    ensures
        r@ == padding_pattern(),
{
    let r: [u8; 16] = [
        0x50, 0x41, 0x44, 0x44, 0x49, 0x4E, 0x47, 0x58, 0x58, 0x50, 0x41, 0x44, 0x44, 0x49, 0x4E,
        0x47,
    ];
    assert(r@ =~= padding_pattern());
    r
}

/// The number of padding chunks that [`find_padding_data`] inspects.
pub const PADDING_CHUNKS: usize = 256;

/// The index within the 16 bytes at `q` of the first byte, from `j` on, that
/// differs from the pattern (0 when none does).
pub open spec fn first_mismatch(s: Seq<u8>, q: int, j: int) -> int
    decreases 16 - j,
{
    if j >= 16 {
        0
    } else if s[q + j] != padding_pattern()[j] {
        j
    } else {
        first_mismatch(s, q, j + 1)
    }
}

/// Where the run of whole patterns at `p`, from chunk `k` on, ends: the first
/// byte of the first chunk among the 256 that is not the pattern which differs
/// from it. `None` when every chunk is the pattern.
pub open spec fn padding_end_from(s: Seq<u8>, p: int, k: int) -> Option<int>
    decreases PADDING_CHUNKS - k,
{
    if k >= PADDING_CHUNKS {
        None
    } else if s.subrange(p + 16 * k, p + 16 * k + 16) == padding_pattern() {
        padding_end_from(s, p, k + 1)
    } else {
        Some(p + 16 * k + first_mismatch(s, p + 16 * k, 0))
    }
}

/// The bytes within `limit` of `offset` (none when `offset` is past the end).
pub open spec fn scan_window(s: Seq<u8>, offset: int, limit: int) -> Seq<u8> {
    if offset < s.len() {
        s.subrange(offset, if offset + limit < s.len() { offset + limit } else { s.len() as int })
    } else {
        Seq::empty()
    }
}

/// What [`find_padding_data`] returns once the first pattern is found at `p`:
/// the end of the run there, when all 4096 bytes from `p` are present.
pub open spec fn padding_after(s: Seq<u8>, p: int) -> Result<Option<int>, Error> {
    if p + 16 * PADDING_CHUNKS > s.len() {
        Err(Error::TruncatedStream)
    } else {
        Ok(padding_end_from(s, p, 0))
    }
}

/// The result as the caller sees it.
pub open spec fn padding_result(r: Result<Option<int>, Error>) -> Result<Option<u64>, Error> {
    match r {
        Ok(Some(p)) => Ok(Some(p as u64)),
        Ok(None) => Ok(None),
        Err(e) => Err(e),
    }
}

/// Finds the first padding pattern within `limit` bytes from `offset`, then
/// returns the first byte position, within the 4096 bytes from there, at which
/// the run of patterns ends: the first byte of the first chunk that is not the
/// pattern which differs from the pattern. `None` when no pattern is found or
/// all 4096 bytes are padding.
pub fn find_padding_data(data: &[u8], offset: u64, limit: u64) -> (r: Result<Option<u64>, Error>)
    ensures
        (forall|j: int| !matches_at(scan_window(data@, offset as int, limit as int), padding_pattern(), j))
            ==> r == Ok::<Option<u64>, Error>(None),
        forall|rel: int|
            #![trigger is_first_match(scan_window(data@, offset as int, limit as int), padding_pattern(), rel)]
            is_first_match(scan_window(data@, offset as int, limit as int), padding_pattern(), rel)
                ==> r == padding_result(padding_after(data@, offset + rel)),
{
    let pat = padding_bytes();
    let len = data.len() as u64;
    let (wstart, wend): (usize, usize) = if offset < len {
        let e: usize = if limit < len - offset {
            (offset + limit) as usize
        } else {
            data.len()
        };
        (offset as usize, e)
    } else {
        (0, 0)
    };
    let window = &data[wstart..wend];
    proof {
        if offset >= data@.len() {
            assert(window@ =~= Seq::<u8>::empty());
        }
        assert(window@ == scan_window(data@, offset as int, limit as int));
    }
    let found = find_needle(window, pat.as_slice());
    let rel = match found {
        None => {
            return Ok(None);
        },
        Some(rel) => rel,
    };
    proof {
        assert forall|c: int| is_first_match(window@, padding_pattern(), c) implies c == rel by {
            if c < rel {
                assert(!matches_at(window@, padding_pattern(), c));
            } else if c > rel {
                assert(!matches_at(window@, padding_pattern(), rel as int));
            }
        }
    }
    let p: usize = wstart + rel as usize;
    assert(p == offset + rel);
    if p > data.len() || data.len() - p < 4096 {
        return Err(Error::TruncatedStream);
    }
    let mut k: usize = 0;
    while k < 256
        invariant
            p + 4096 <= data@.len(),
            data@.len() <= usize::MAX,
            k <= 256,
            p == offset + rel,
            is_first_match(scan_window(data@, offset as int, limit as int), padding_pattern(), rel as int),
            forall|c: int| is_first_match(scan_window(data@, offset as int, limit as int), padding_pattern(), c) ==> c == rel,
            pat@ == padding_pattern(),
            padding_end_from(data@, p as int, 0) == padding_end_from(data@, p as int, k as int),
        decreases PADDING_CHUNKS - k,
    {
        let q = p + 16 * k;
        let mut j: usize = 0;
        while j < 16 && data[q + j] == pat[j]
            invariant
                q + 16 <= data@.len(),
                data@.len() <= usize::MAX,
                j <= 16,
                pat@ == padding_pattern(),
                forall|i: int| 0 <= i < j ==> data@[q + i] == padding_pattern()[i],
                first_mismatch(data@, q as int, 0) == first_mismatch(data@, q as int, j as int),
            decreases 16 - j,
        {
            j = j + 1;
        }
        if j < 16 {
            proof {
                assert(data@.subrange(q as int, q + 16)[j as int] != padding_pattern()[j as int]);
            }
            return Ok(Some((q + j) as u64));
        }
        assert(data@.subrange(q as int, q + 16) =~= padding_pattern());
        k = k + 1;
    }
    Ok(None)
}

} // verus!

verus! {

/// The first position at or after `i` at which `needle` occurs in `hay`.
pub open spec fn first_match_from(hay: Seq<u8>, needle: Seq<u8>, i: int) -> Option<int>
    decreases hay.len() + 1 - i,
{
    if i < 0 || i + needle.len() > hay.len() {
        None
    } else if matches_at(hay, needle, i) {
        Some(i)
    } else {
        first_match_from(hay, needle, i + 1)
    }
}

proof fn lemma_first_match_from(hay: Seq<u8>, needle: Seq<u8>, i: int)
    requires
        0 <= i,
    ensures
        first_match_from(hay, needle, i) matches Some(r) ==> i <= r && matches_at(hay, needle, r)
            && forall|j: int| i <= j < r ==> !matches_at(hay, needle, j),
        first_match_from(hay, needle, i) is None ==> forall|j: int|
            i <= j ==> !matches_at(hay, needle, j),
    decreases hay.len() + 1 - i,
{
    if i + needle.len() <= hay.len() && !matches_at(hay, needle, i) {
        lemma_first_match_from(hay, needle, i + 1);
    }
}

proof fn lemma_padding_end_bounds(s: Seq<u8>, p: int, k: int)
    requires
        0 <= k,
    ensures
        padding_end_from(s, p, k) matches Some(x) ==> p <= x < p + 16 * PADDING_CHUNKS,
    decreases PADDING_CHUNKS - k,
{
    if k < PADDING_CHUNKS {
        lemma_first_mismatch_bounds(s, p + 16 * k, 0);
        lemma_padding_end_bounds(s, p, k + 1);
    }
}

proof fn lemma_first_mismatch_bounds(s: Seq<u8>, q: int, j: int)
    requires
        0 <= j,
    ensures
        0 <= first_mismatch(s, q, j) < 16,
    decreases 16 - j,
{
    if j < 16 {
        lemma_first_mismatch_bounds(s, q, j + 1);
    }
}

/// The first match found from the start is the first match.
pub proof fn lemma_first_match(hay: Seq<u8>, needle: Seq<u8>)
    ensures
        first_match_from(hay, needle, 0) matches Some(r) ==> is_first_match(hay, needle, r),
        first_match_from(hay, needle, 0) is None ==> forall|j: int| !matches_at(hay, needle, j),
{
    lemma_first_match_from(hay, needle, 0);
}

/// What [`find_padding_data`] returns, as a function of its arguments.
pub open spec fn padding_data(s: Seq<u8>, offset: int, limit: int) -> Result<Option<int>, Error> {
    match first_match_from(scan_window(s, offset, limit), padding_pattern(), 0) {
        None => Ok(None),
        Some(rel) => padding_after(s, offset + rel),
    }
}

/// How far into an installer image the format marker is looked for.
pub const MAX_PE_SIZE: u64 = 41943040;

/// The two installer formats, each with the offset of its header.
#[derive(Clone, Copy, Debug, PartialEq, Eq, Structural)]
pub enum SetupFormat {
    InstallShield(u64),
    NFO300(u64),
}

/// The marker `NFO300`.
pub open spec fn nfo300_tag() -> Seq<u8> {
    seq![0x4Eu8, 0x46u8, 0x4Fu8, 0x33u8, 0x30u8, 0x30u8]
}

/// The marker `InstallShield`.
pub open spec fn installshield_tag() -> Seq<u8> {
    seq![0x49u8, 0x6Eu8, 0x73u8, 0x74u8, 0x61u8, 0x6Cu8, 0x6Cu8, 0x53u8, 0x68u8, 0x69u8, 0x65u8, 0x6Cu8, 0x64u8]
}

/// `NFO300` as bytes.
pub fn nfo300_tag_bytes() -> (r: [u8; 6])
    ensures
        r@ == nfo300_tag(),
{
    let r: [u8; 6] = [0x4E, 0x46, 0x4F, 0x33, 0x30, 0x30];
    assert(r@ =~= nfo300_tag());
    r
}

/// `InstallShield` as bytes.
pub fn installshield_tag_bytes() -> (r: [u8; 13])
    ensures
        r@ == installshield_tag(),
{
    let r: [u8; 13] = [0x49, 0x6E, 0x73, 0x74, 0x61, 0x6C, 0x6C, 0x53, 0x68, 0x69, 0x65, 0x6C, 0x64];
    assert(r@ =~= installshield_tag());
    r
}

/// Whether `s` holds `tag` at `pos`.
pub fn has_tag_at(s: &[u8], pos: usize, tag: &[u8]) -> (r: bool)
    ensures
        r == matches_at(s@, tag@, pos as int),
{
    if pos > s.len() || s.len() - pos < tag.len() {
        return false;
    }
    let mut i: usize = 0;
    while i < tag.len()
        invariant
            pos + tag@.len() <= s@.len(),
            s@.len() <= usize::MAX,
            i <= tag@.len(),
            forall|j: int| 0 <= j < i ==> s@[pos + j] == tag@[j],
        decreases tag@.len() - i,
    {
        if s[pos + i] != tag[i] {
            assert(s@.subrange(pos as int, pos + tag@.len())[i as int] != tag@[i as int]);
            return false;
        }
        i = i + 1;
    }
    assert(s@.subrange(pos as int, pos + tag@.len()) =~= tag@);
    true
}

/// The format found by scanning from `offset`: the first padding run's end,
/// if a format marker stands there, else the next run after it.
pub open spec fn detect_from(s: Seq<u8>, offset: int) -> Result<SetupFormat, Error>
    decreases MAX_PE_SIZE - offset,
{
    if offset < 0 || offset >= MAX_PE_SIZE {
        Err(Error::FormatUnknown)
    } else {
        match padding_data(s, offset, MAX_PE_SIZE - offset) {
            Err(e) => Err(e),
            Ok(None) => Err(Error::FormatUnknown),
            Ok(Some(ix)) => {
                if ix + 16 > s.len() {
                    Err(Error::TruncatedStream)
                } else if matches_at(s, nfo300_tag(), ix) {
                    Ok(SetupFormat::NFO300(ix as u64))
                } else if matches_at(s, installshield_tag(), ix) {
                    Ok(SetupFormat::InstallShield(ix as u64))
                } else if ix + 16 <= offset || ix + 16 >= MAX_PE_SIZE {
                    Err(Error::FormatUnknown)
                } else {
                    detect_from(s, ix + 16)
                }
            },
        }
    }
}

/// A detected header lies within the image.
pub proof fn lemma_detect_within(s: Seq<u8>, offset: int)
    requires
        s.len() <= u64::MAX,
    ensures
        detect_from(s, offset) matches Ok(SetupFormat::NFO300(x)) ==> x + 16 <= s.len(),
        detect_from(s, offset) matches Ok(SetupFormat::InstallShield(x)) ==> x + 16 <= s.len(),
    decreases MAX_PE_SIZE - offset,
{
    if 0 <= offset < MAX_PE_SIZE {
        if let Ok(Some(ix)) = padding_data(s, offset, MAX_PE_SIZE - offset) {
            if ix + 16 <= s.len() && !matches_at(s, nfo300_tag(), ix) && !matches_at(s, installshield_tag(), ix)
                && !(ix + 16 <= offset || ix + 16 >= MAX_PE_SIZE) {
                lemma_detect_within(s, ix + 16);
            }
        }
    }
}

impl SetupFormat {
    /// Scans an installer image for its format: finds a padding run, looks at
    /// the 16 bytes after it for a format marker, and otherwise goes on after
    /// them. Scanning stops at [`MAX_PE_SIZE`].
    pub fn from_reader(data: &[u8]) -> (r: Result<SetupFormat, Error>)
        ensures
            r == detect_from(data@, 0),
    {
        let nfo = nfo300_tag_bytes();
        let is = installshield_tag_bytes();
        let mut offset: u64 = 0;
        loop
            invariant
                nfo@ == nfo300_tag(),
                is@ == installshield_tag(),
                detect_from(data@, 0) == detect_from(data@, offset as int),
            decreases MAX_PE_SIZE - offset,
        {
            if offset >= MAX_PE_SIZE {
                return Err(Error::FormatUnknown);
            }
            let found = find_padding_data(data, offset, MAX_PE_SIZE - offset);
            proof {
                let w = scan_window(data@, offset as int, MAX_PE_SIZE - offset);
                lemma_first_match(w, padding_pattern());
                if let Some(rel) = first_match_from(w, padding_pattern(), 0) {
                    lemma_padding_end_bounds(data@, offset + rel, 0);
                }
            }
            let ix = match found {
                Err(e) => {
                    return Err(e);
                },
                Ok(None) => {
                    return Err(Error::FormatUnknown);
                },
                Ok(Some(ix)) => ix,
            };
            if ix >= data.len() as u64 || data.len() - (ix as usize) < 16 {
                return Err(Error::TruncatedStream);
            }
            let pos = ix as usize;
            if has_tag_at(data, pos, nfo.as_slice()) {
                return Ok(SetupFormat::NFO300(ix));
            } else if has_tag_at(data, pos, is.as_slice()) {
                return Ok(SetupFormat::InstallShield(ix));
            }
            if ix + 16 <= offset || ix + 16 >= MAX_PE_SIZE {
                return Err(Error::FormatUnknown);
            }
            offset = ix + 16;
        }
    }
}

} // verus!
