//! NFO300 installers: after the `NFO300` marker line comes a table of
//! `"<name>","<checksum>","<size>"` lines; the payloads follow it back to back.

use vstd::prelude::*;

use crate::bytes::copy_range;
use crate::error::Error;
use crate::is::all_ascii;
use crate::scan::{find_needle, is_first_match, matches_at, nfo300_tag, nfo300_tag_bytes, MAX_PE_SIZE};
use crate::text::{latin1, latin1_string};

verus! {

/// What [`strip_start`] and [`strip_end`] remove.
#[derive(Clone, Copy, PartialEq, Eq, Structural)]
pub enum StripKind {
    /// ASCII whitespace: tab, line feed, vertical tab, form feed, carriage
    /// return and space.
    Whitespace,
}

pub open spec fn strips(kind: StripKind, b: u8) -> bool {
    match kind {
        StripKind::Whitespace => b == 9 || b == 10 || b == 11 || b == 12 || b == 13 || b == 32,
    }
}

fn strips_exec(kind: StripKind, b: u8) -> (r: bool)
    ensures
        r == strips(kind, b),
{
    match kind {
        StripKind::Whitespace => b == 9 || b == 10 || b == 11 || b == 12 || b == 13 || b == 32,
    }
}

/// `s` without the leading bytes of the kind.
pub open spec fn stripped_start(s: Seq<u8>, kind: StripKind) -> Seq<u8>
    decreases s.len(),
{
    if s.len() > 0 && strips(kind, s[0]) {
        stripped_start(s.drop_first(), kind)
    } else {
        s
    }
}

/// `s` without the trailing bytes of the kind.
pub open spec fn stripped_end(s: Seq<u8>, kind: StripKind) -> Seq<u8>
    decreases s.len(),
{
    if s.len() > 0 && strips(kind, s.last()) {
        stripped_end(s.drop_last(), kind)
    } else {
        s
    }
}

/// `s` without leading and trailing bytes of the kind.
pub open spec fn stripped(s: Seq<u8>, kind: StripKind) -> Seq<u8> {
    stripped_end(stripped_start(s, kind), kind)
}

/// Removes the leading bytes of the kind.
pub fn strip_start(s: &[u8], kind: StripKind) -> (r: Vec<u8>)
    ensures
        r@ == stripped_start(s@, kind),
{
    let mut i: usize = 0;
    assert(s@.subrange(0, s@.len() as int) =~= s@);
    while i < s.len() && strips_exec(kind, s[i])
        invariant
            i <= s@.len(),
            stripped_start(s@, kind) == stripped_start(s@.subrange(i as int, s@.len() as int), kind),
        decreases s@.len() - i,
    {
        assert(s@.subrange(i as int, s@.len() as int).drop_first() =~= s@.subrange(i + 1, s@.len() as int));
        i = i + 1;
    }
    copy_range(s, i, s.len())
}

/// Removes the trailing bytes of the kind.
pub fn strip_end(s: &[u8], kind: StripKind) -> (r: Vec<u8>)
    ensures
        r@ == stripped_end(s@, kind),
{
    let mut j: usize = s.len();
    assert(s@.subrange(0, s@.len() as int) =~= s@);
    while j > 0 && strips_exec(kind, s[j - 1])
        invariant
            j <= s@.len(),
            stripped_end(s@, kind) == stripped_end(s@.subrange(0, j as int), kind),
        decreases j,
    {
        assert(s@.subrange(0, j as int).drop_last() =~= s@.subrange(0, j - 1));
        j = j - 1;
    }
    copy_range(s, 0, j)
}

/// Removes leading and trailing bytes of the kind.
pub fn strip(s: &[u8], kind: StripKind) -> (r: Vec<u8>)
    ensures
        r@ == stripped(s@, kind),
{
    let a = strip_start(s, kind);
    strip_end(a.as_slice(), kind)
}

/// The position of the first `b` in `s`.
pub open spec fn index_of(s: Seq<u8>, b: u8) -> Option<int> {
    if exists|i: int| 0 <= i < s.len() && s[i] == b {
        Some(choose|i: int| 0 <= i < s.len() && s[i] == b && forall|j: int| 0 <= j < i ==> s[j] != b)
    } else {
        None
    }
}

/// Splits `s` at its first `b`: the bytes before it and the bytes after it.
pub fn split_once(s: &[u8], b: u8) -> (r: Option<(Vec<u8>, Vec<u8>)>)
    ensures
        match index_of(s@, b) {
            Some(i) => r matches Some((a, b)) && a@ == s@.subrange(0, i) && b@ == s@.subrange(i + 1, s@.len() as int),
            None => r is None,
        },
{
    let mut i: usize = 0;
    while i < s.len() && s[i] != b
        invariant
            i <= s@.len(),
            forall|j: int| 0 <= j < i ==> s@[j] != b,
        decreases s@.len() - i,
    {
        i = i + 1;
    }
    if i == s.len() {
        return None;
    }
    proof {
        let c = choose|c: int| 0 <= c < s@.len() && s@[c] == b && forall|j: int| 0 <= j < c ==> s@[j] != b;
        assert(0 <= c < s@.len() && s@[c] == b && forall|j: int| 0 <= j < c ==> s@[j] != b);
        if c < i {
        } else if c > i {
            assert(s@[i as int] != b);
        }
    }
    Some((copy_range(s, 0, i), copy_range(s, i + 1, s.len())))
}

/// Whether every byte of `s` is an ASCII digit.
pub open spec fn all_digits(s: Seq<u8>) -> bool {
    forall|i: int| 0 <= i < s.len() ==> 0x30 <= #[trigger] s[i] <= 0x39
}

/// The number that the ASCII digits `s` spell.
pub open spec fn digits_value(s: Seq<u8>) -> int
    decreases s.len(),
{
    if s.len() == 0 {
        0
    } else {
        digits_value(s.drop_last()) * 10 + (s.last() - 0x30)
    }
}

/// The `i32` that `s` spells in decimal, with an optional `+` or `-` sign,
/// or `None` when it is not a number or out of range.
pub open spec fn parse_i32_spec(s: Seq<u8>) -> Option<i32> {
    let neg = s.len() > 0 && s[0] == 0x2D;
    let signed = s.len() > 0 && (s[0] == 0x2D || s[0] == 0x2B);
    let digits = if signed { s.drop_first() } else { s };
    if digits.len() == 0 || !all_digits(digits) {
        None
    } else {
        let v = if neg { -digits_value(digits) } else { digits_value(digits) };
        if i32::MIN <= v <= i32::MAX {
            Some(v as i32)
        } else {
            None
        }
    }
}

proof fn lemma_digits_value_nonneg(s: Seq<u8>)
    requires
        all_digits(s),
    ensures
        digits_value(s) >= 0,
    decreases s.len(),
{
    if s.len() > 0 {
        assert(all_digits(s.drop_last()));
        lemma_digits_value_nonneg(s.drop_last());
        assert(0x30 <= s[s.len() - 1]);
    }
}

/// Parses a decimal `i32` as `str::parse::<i32>` does.
pub fn parse_i32(s: &[u8]) -> (r: Option<i32>)
    ensures
        r == parse_i32_spec(s@),
{
    let neg = s.len() > 0 && s[0] == 0x2D;
    let signed = s.len() > 0 && (s[0] == 0x2D || s[0] == 0x2B);
    let start: usize = if signed { 1 } else { 0 };
    let ghost digits = if signed { s@.drop_first() } else { s@ };
    assert(digits =~= s@.subrange(start as int, s@.len() as int));
    if start == s.len() {
        return None;
    }
    let mut v: i64 = 0;
    let mut i: usize = start;
    while i < s.len()
        invariant
            start <= i <= s@.len(),
            neg == (s@.len() > 0 && s@[0] == 0x2D),
            signed == (s@.len() > 0 && (s@[0] == 0x2D || s@[0] == 0x2B)),
            digits == if signed { s@.drop_first() } else { s@ },
            start == if signed { 1usize } else { 0usize },
            digits =~= s@.subrange(start as int, s@.len() as int),
            all_digits(s@.subrange(start as int, i as int)),
            v == digits_value(s@.subrange(start as int, i as int)),
            0 <= v <= 0x8000_0000,
        decreases s@.len() - i,
    {
        let c = s[i];
        if c < 0x30 || c > 0x39 {
            assert(digits[i - start] == c);
            assert(!all_digits(digits));
            return None;
        }
        let ghost prev = s@.subrange(start as int, i as int);
        let ghost next = s@.subrange(start as int, i + 1);
        assert(next.drop_last() =~= prev);
        assert(all_digits(next));
        v = v * 10 + (c - 0x30) as i64;
        if v > 0x8000_0000 {
            proof {
                let rest = s@.subrange(start as int, s@.len() as int);
                assert(rest.subrange(0, i + 1 - start) =~= next);
                lemma_digits_prefix_grows(rest, i + 1 - start);
                assert(rest == digits);
            }
            return None;
        }
        i = i + 1;
    }
    assert(s@.subrange(start as int, i as int) =~= digits);
    if neg {
        Some((-v) as i32)
    } else if v > 0x7FFF_FFFF {
        None
    } else {
        Some(v as i32)
    }
}

/// A longer run of digits spells at least as much as its prefix.
proof fn lemma_digits_prefix_grows(s: Seq<u8>, k: int)
    requires
        0 <= k <= s.len(),
        all_digits(s.subrange(0, k)),
    ensures
        all_digits(s) ==> digits_value(s) >= digits_value(s.subrange(0, k)),
    decreases s.len() - k,
{
    if all_digits(s) && k < s.len() {
        let a = s.subrange(0, k);
        let b = s.subrange(0, k + 1);
        assert(b.drop_last() =~= a);
        assert(all_digits(b));
        lemma_digits_value_nonneg(a);
        assert(digits_value(b) == digits_value(a) * 10 + (b.last() - 0x30));
        lemma_digits_prefix_grows(s, k + 1);
        if k + 1 == s.len() {
            assert(b =~= s);
        }
    } else if all_digits(s) && k == s.len() {
        assert(s.subrange(0, k) =~= s);
    }
}

} // verus!

verus! {

/// The position after the line that starts at `p`: after its line feed, or
/// the end of `w`.
pub open spec fn line_end(w: Seq<u8>, p: int) -> int
    decreases w.len() - p,
{
    if p < 0 || p >= w.len() {
        w.len() as int
    } else if w[p] == 0x0A {
        p + 1
    } else {
        line_end(w, p + 1)
    }
}

/// The inside of a field written between double quotes.
pub open spec fn unquoted(f: Seq<u8>) -> Option<Seq<u8>> {
    if f.len() >= 2 && f[0] == 0x22 && f.last() == 0x22 {
        Some(f.subrange(1, f.len() - 1))
    } else {
        None
    }
}

/// The inside of `f` when it is written between double quotes.
pub fn unquote(f: &[u8]) -> (r: Option<Vec<u8>>)
    ensures
        match unquoted(f@) {
            Some(v) => r matches Some(x) && x@ == v,
            None => r is None,
        },
{
    let n = f.len();
    if n >= 2 && f[0] == 0x22 && f[n - 1] == 0x22 {
        Some(copy_range(f, 1, n - 1))
    } else {
        None
    }
}

/// A table line `"<name>","<checksum>","<size>"`: with surrounding
/// whitespace removed, it splits at its first two commas into three fields,
/// each written between double quotes; checksum and size are decimal `i32`s.
/// Gives the name, the checksum and the size.
#[verifier::opaque]
pub open spec fn parse_line_spec(l: Seq<u8>) -> Option<(Seq<u8>, i32, i32)> {
    if !all_ascii(l) {
        None
    } else {
        let t = stripped(l, StripKind::Whitespace);
        match index_of(t, 0x2C) {
            None => None,
            Some(c1) => {
                let rest = t.subrange(c1 + 1, t.len() as int);
                match index_of(rest, 0x2C) {
                    None => None,
                    Some(c2) => {
                        let name = unquoted(t.subrange(0, c1));
                        let cs = unquoted(rest.subrange(0, c2));
                        let ss = unquoted(rest.subrange(c2 + 1, rest.len() as int));
                        if name is Some && cs is Some && ss is Some && parse_i32_spec(ss->0) is Some
                            && parse_i32_spec(cs->0) is Some {
                            Some((name->0, parse_i32_spec(cs->0)->0, parse_i32_spec(ss->0)->0))
                        } else {
                            None
                        }
                    },
                }
            },
        }
    }
}

/// The table lines from `p` on, while a line starts with a double quote, and
/// the position after the last of them. The table must end, at a byte other
/// than a double quote, within the window: running into the window's end is
/// an error.
pub open spec fn nfo_table(w: Seq<u8>, p: int) -> Result<(Seq<(Seq<u8>, i32, i32)>, int), Error>
    decreases w.len() - p,
{
    if p < 0 || p >= w.len() {
        Err(Error::TruncatedStream)
    } else if w[p] != 0x22 {
        Ok((Seq::empty(), p))
    } else {
        let e = line_end(w, p);
        if e <= p || e > w.len() {
            Err(Error::MalformedEntry)
        } else {
            match parse_line_spec(w.subrange(p, e)) {
                None => Err(Error::MalformedEntry),
                Some(l) => match nfo_table(w, e) {
                    Ok((ls, end)) => Ok((seq![l] + ls, end)),
                    Err(x) => Err(x),
                },
            }
        }
    }
}

/// How many bytes of the table are looked at.
pub const NFO_TABLE_LIMIT: usize = 1000;

/// The table region: at most [`NFO_TABLE_LIMIT`] bytes from the marker.
pub open spec fn nfo_window(s: Seq<u8>, off: int) -> Seq<u8> {
    s.subrange(off, if off + NFO_TABLE_LIMIT < s.len() { off + NFO_TABLE_LIMIT } else { s.len() as int })
}

/// Where the payload of entry `i` starts: the payloads follow the table back
/// to back, each as long as its size read as unsigned.
pub open spec fn entry_offset(lines: Seq<(Seq<u8>, i32, i32)>, start: int, i: int) -> int
    decreases i,
{
    if i <= 0 {
        start
    } else {
        entry_offset(lines, start, i - 1) + (lines[i - 1].2 as u32)
    }
}

proof fn lemma_entry_offset_grows(lines: Seq<(Seq<u8>, i32, i32)>, start: int, i: int, j: int)
    requires
        0 <= i <= j,
    ensures
        entry_offset(lines, start, i) <= entry_offset(lines, start, j),
    decreases j - i,
{
    if i < j {
        lemma_entry_offset_grows(lines, start, i, j - 1);
    }
}

/// Checks that every byte is ASCII.
fn is_ascii_bytes(s: &[u8]) -> (r: bool)
    ensures
        r == all_ascii(s@),
{
    let mut i: usize = 0;
    while i < s.len()
        invariant
            i <= s@.len(),
            forall|j: int| 0 <= j < i ==> s@[j] < 128,
        decreases s@.len() - i,
    {
        if s[i] >= 128 {
            return false;
        }
        i = i + 1;
    }
    true
}

/// Reads one table line (its bytes, line feed included).
pub fn parse_line(l: &[u8]) -> (r: Option<(String, i32, i32)>)
    ensures
        match parse_line_spec(l@) {
            Some((name, checksum, size)) => r matches Some((n, c, s)) && n@ == latin1(name)
                && c == checksum && s == size,
            None => r is None,
        },
{
    proof {
        reveal(parse_line_spec);
    }
    if !is_ascii_bytes(l) {
        return None;
    }
    let t = strip(l, StripKind::Whitespace);
    let (name, rest) = match split_once(t.as_slice(), 0x2C) {
        Some(x) => x,
        None => {
            return None;
        },
    };
    let (checksum, size) = match split_once(rest.as_slice(), 0x2C) {
        Some(x) => x,
        None => {
            return None;
        },
    };
    let name = match unquote(name.as_slice()) {
        Some(v) => v,
        None => {
            return None;
        },
    };
    let checksum = match unquote(checksum.as_slice()) {
        Some(v) => v,
        None => {
            return None;
        },
    };
    let size = match unquote(size.as_slice()) {
        Some(v) => v,
        None => {
            return None;
        },
    };
    let size = match parse_i32(size.as_slice()) {
        Some(v) => v,
        None => {
            return None;
        },
    };
    let checksum = match parse_i32(checksum.as_slice()) {
        Some(v) => v,
        None => {
            return None;
        },
    };
    Some((latin1_string(name.as_slice()), checksum, size))
}

} // verus!

verus! {

/// The first [`MAX_PE_SIZE`] bytes of an image, where the marker is looked for.
pub open spec fn scan_head(s: Seq<u8>) -> Seq<u8> {
    s.subrange(0, if MAX_PE_SIZE < s.len() { MAX_PE_SIZE as int } else { s.len() as int })
}

/// An embedded file of an NFO300 installer.
#[derive(Clone, Debug)]
pub struct Nfo300Entry {
    pub name: String,
    pub size: i32,
    pub checksum: i32,
    pub offset: u64,
}

impl crate::setup::Entry for Nfo300Entry {
    open spec fn name_view(&self) -> Seq<char> {
        self.name@
    }

    open spec fn size_view(&self) -> u64 {
        self.size as u32 as u64
    }

    fn name(&self) -> &str {
        self.name.as_str()
    }

    /// The size read as unsigned.
    fn size(&self) -> u64 {
        self.size as u32 as u64
    }
}

/// The position after the line that starts at `p`.
fn find_line_end(w: &[u8], p: usize) -> (r: usize)
    requires
        p <= w@.len(),
    ensures
        r == line_end(w@, p as int),
        p < w@.len() ==> p < r,
        r <= w@.len(),
{
    let mut i: usize = p;
    while i < w.len() && w[i] != 0x0A
        invariant
            p <= i <= w@.len(),
            line_end(w@, p as int) == line_end(w@, i as int),
        decreases w@.len() - i,
    {
        i = i + 1;
    }
    if i < w.len() {
        i + 1
    } else {
        i
    }
}

/// Whether the parsed lines `v` hold the names, checksums and sizes of `ls`.
pub open spec fn lines_match(v: Seq<(String, i32, i32)>, ls: Seq<(Seq<u8>, i32, i32)>) -> bool {
    &&& v.len() == ls.len()
    &&& forall|i: int| 0 <= i < ls.len() ==> {
        let l = #[trigger] v[i];
        &&& l.0@ == latin1(ls[i].0)
        &&& l.1 == ls[i].1
        &&& l.2 == ls[i].2
    }
}

/// Reads the table lines of `w` from `first` on and returns them with the
/// position after the last one.
fn read_table(w: &[u8], first: usize) -> (r: Result<(Vec<(String, i32, i32)>, usize), Error>)
    requires
        first <= w@.len(),
    ensures
        match nfo_table(w@, first as int) {
            Err(e) => r == Err::<(Vec<(String, i32, i32)>, usize), Error>(e),
            Ok((ls, end)) => r matches Ok((v, p)) && p == end && lines_match(v@, ls),
        },
        r matches Ok((v, p)) ==> first <= p <= w@.len(),
{
    let ghost ws = w@;
    let mut p: usize = first;
    let mut lines: Vec<(String, i32, i32)> = Vec::new();
    let ghost done: Seq<(Seq<u8>, i32, i32)> = Seq::empty();
    while p < w.len() && w[p] == 0x22
        invariant
            w@ == ws,
            first <= p <= ws.len(),
            lines_match(lines@, done),
            nfo_table(ws, first as int) == match nfo_table(ws, p as int) {
                Ok((ls, end)) => Ok::<(Seq<(Seq<u8>, i32, i32)>, int), Error>((done + ls, end)),
                Err(x) => Err(x),
            },
        decreases ws.len() - p,
    {
        let e = find_line_end(w, p);
        let parsed = parse_line(&w[p..e]);
        match parsed {
            None => {
                return Err(Error::MalformedEntry);
            },
            Some((name, checksum, size)) => {
                let ghost prev = lines@;
                let ghost prev_done = done;
                proof {
                    let l = parse_line_spec(ws.subrange(p as int, e as int))->0;
                    match nfo_table(ws, e as int) {
                        Ok((ls, end)) => {
                            assert(done + (seq![l] + ls) =~= (done + seq![l]) + ls);
                        },
                        Err(x) => {},
                    }
                    done = done + seq![l];
                }
                lines.push((name, checksum, size));
                assert(lines_match(lines@, done)) by {
                    assert forall|i: int| 0 <= i < done.len() implies {
                        let l = #[trigger] lines@[i];
                        &&& l.0@ == latin1(done[i].0)
                        &&& l.1 == done[i].1
                        &&& l.2 == done[i].2
                    } by {
                        if i < prev.len() {
                            assert(lines@[i] == prev[i]);
                            assert(done[i] == prev_done[i]);
                        }
                    }
                }
            },
        }
        p = e;
    }
    if p >= w.len() {
        return Err(Error::TruncatedStream);
    }
    assert(done + Seq::<(Seq<u8>, i32, i32)>::empty() =~= done);
    Ok((lines, p))
}

/// Reads a payload the way a bounded reader does: at most the remaining bytes.
#[derive(Debug)]
pub struct EntryReader {
    data: Vec<u8>,
    pos: usize,
}

impl EntryReader {
    pub closed spec fn bytes(&self) -> Seq<u8> {
        self.data@
    }

    pub closed spec fn pos(&self) -> int {
        self.pos as int
    }

    pub closed spec fn wf(&self) -> bool {
        self.pos <= self.data@.len()
    }

    /// Up to `max` more bytes.
    pub fn read(&mut self, max: usize) -> (r: Vec<u8>)
        requires
            old(self).wf(),
        ensures
            final(self).wf(),
            final(self).bytes() == old(self).bytes(),
            0 <= old(self).pos() <= old(self).bytes().len(),
            0 <= final(self).pos() <= final(self).bytes().len(),
            r@.len() == if max < old(self).bytes().len() - old(self).pos() {
                max as int
            } else {
                old(self).bytes().len() - old(self).pos()
            },
            final(self).pos() == old(self).pos() + r@.len(),
            r@ == old(self).bytes().subrange(old(self).pos(), final(self).pos()),
    {
        let rest = self.data.len() - self.pos;
        let n = if max < rest {
            max
        } else {
            rest
        };
        let out = copy_range(self.data.as_slice(), self.pos, self.pos + n);
        self.pos = self.pos + n;
        out
    }
}

/// An NFO300 installer held in memory.
#[derive(Debug)]
pub struct Nfo300Setup {
    reader: Vec<u8>,
    nfo_offset: u64,
    size: u64,
}

impl Nfo300Setup {
    pub closed spec fn bytes(&self) -> Seq<u8> {
        self.reader@
    }

    pub closed spec fn marker_offset(&self) -> int {
        self.nfo_offset as int
    }

    pub closed spec fn wf(&self) -> bool {
        &&& self.nfo_offset <= self.reader@.len()
        &&& self.size == self.reader@.len()
    }

    /// Opens the installer in `data` whose marker line starts at `offset`.
    pub fn new(data: Vec<u8>, offset: u64) -> (r: Result<Nfo300Setup, Error>)
        ensures
            offset > data@.len() ==> r == Err::<Nfo300Setup, Error>(Error::TruncatedStream),
            offset <= data@.len() ==> r is Ok && r->Ok_0.wf() && r->Ok_0.bytes() == data@
                && r->Ok_0.marker_offset() == offset,
    {
        let size = data.len() as u64;
        if offset > size {
            return Err(Error::TruncatedStream);
        }
        Ok(Nfo300Setup { reader: data, nfo_offset: offset, size })
    }

    /// Finds the `NFO300` marker within the first [`MAX_PE_SIZE`] bytes and
    /// opens the installer there.
    pub fn new_detect(data: Vec<u8>) -> (r: Result<Nfo300Setup, Error>)
        ensures
            (forall|j: int| !matches_at(scan_head(data@), nfo300_tag(), j)) ==> r == Err::<
                Nfo300Setup,
                Error,
            >(Error::FormatUnknown),
            forall|i: int| #[trigger]
                is_first_match(scan_head(data@), nfo300_tag(), i) ==> r is Ok && r->Ok_0.wf()
                    && r->Ok_0.bytes() == data@ && r->Ok_0.marker_offset() == i,
    {
        let tag = nfo300_tag_bytes();
        let end: usize = if (data.len() as u64) > MAX_PE_SIZE {
            MAX_PE_SIZE as usize
        } else {
            data.len()
        };
        let head = &data.as_slice()[0..end];
        assert(head@ == scan_head(data@));
        let found = find_needle(head, tag.as_slice());
        match found {
            None => {
                assert forall|i: int| #[trigger] is_first_match(scan_head(data@), nfo300_tag(), i) implies false by {
                    assert(matches_at(head@, tag@, i));
                }
                Err(Error::FormatUnknown)
            },
            Some(offset) => {
                proof {
                    let head = data@.subrange(0, end as int);
                    assert forall|i: int| is_first_match(head, nfo300_tag(), i) implies i == offset by {
                        if i < offset {
                            assert(!matches_at(head, nfo300_tag(), i));
                        } else if i > offset {
                            assert(!matches_at(head, nfo300_tag(), offset as int));
                        }
                    }
                }
                Nfo300Setup::new(data, offset)
            },
        }
    }

    /// The marker that announces the format.
    pub fn tag() -> (r: [u8; 6])
        ensures
            r@ == nfo300_tag(),
    {
        nfo300_tag_bytes()
    }

    /// The payload size: from the marker to the end of the installer.
    pub fn size(&self) -> (r: u64)
        requires
            self.wf(),
        ensures
            r == self.bytes().len() - self.marker_offset(),
    {
        self.size - self.nfo_offset
    }

    /// The embedded files: the table lines after the marker line, while a line
    /// starts with a double quote. The payloads follow the table back to back.
    /// An error when a line is malformed, or when the payload offsets pass
    /// the range of `u64`.
    pub fn entries(&self) -> (r: Result<Vec<Nfo300Entry>, Error>)
        requires
            self.wf(),
        ensures
            ({
                let w = nfo_window(self.bytes(), self.marker_offset());
                match nfo_table(w, line_end(w, 0)) {
                    Err(e) => r == Err::<Vec<Nfo300Entry>, Error>(e),
                    Ok((lines, end)) => {
                        let start = self.marker_offset() + end;
                        if entry_offset(lines, start, lines.len() as int) > u64::MAX {
                            r == Err::<Vec<Nfo300Entry>, Error>(Error::TruncatedStream)
                        } else {
                            r is Ok && r->Ok_0@.len() == lines.len() && forall|i: int|
                                0 <= i < lines.len() ==> {
                                    let e = #[trigger] r->Ok_0@[i];
                                    &&& e.name@ == latin1(lines[i].0)
                                    &&& e.checksum == lines[i].1
                                    &&& e.size == lines[i].2
                                    &&& e.offset == entry_offset(lines, start, i)
                                }
                        }
                    },
                }
            }),
    {
        let data = self.reader.as_slice();
        let off = self.nfo_offset as usize;
        let wend: usize = if data.len() - off > NFO_TABLE_LIMIT {
            off + NFO_TABLE_LIMIT
        } else {
            data.len()
        };
        let w = &data[off..wend];
        let ghost ws = w@;
        assert(ws == nfo_window(self.bytes(), self.marker_offset()));
        let first = find_line_end(w, 0);
        let (lines, p) = match read_table(w, first) {
            Ok(x) => x,
            Err(e) => {
                return Err(e);
            },
        };
        let ghost done = nfo_table(ws, first as int)->Ok_0.0;
        let start: u64 = (off + p) as u64;
        let ghost end = p as int;
        let mut entries: Vec<Nfo300Entry> = Vec::new();
        let mut cur: u64 = start;
        let mut i: usize = 0;
        while i < lines.len()
            invariant
                i <= lines@.len(),
                lines@.len() == done.len(),
                ws == nfo_window(self.bytes(), self.marker_offset()),
                first == line_end(ws, 0),
                nfo_table(ws, first as int) == Ok::<(Seq<(Seq<u8>, i32, i32)>, int), Error>((done, end)),
                entries@.len() == i,
                start == self.marker_offset() + end,
                cur == entry_offset(done, start as int, i as int),
                forall|k: int| 0 <= k < done.len() ==> {
                    let l = #[trigger] lines@[k];
                    &&& l.0@ == latin1(done[k].0)
                    &&& l.1 == done[k].1
                    &&& l.2 == done[k].2
                },
                forall|k: int| 0 <= k < i ==> {
                    let e = #[trigger] entries@[k];
                    &&& e.name@ == latin1(done[k].0)
                    &&& e.checksum == done[k].1
                    &&& e.size == done[k].2
                    &&& e.offset == entry_offset(done, start as int, k)
                },
            decreases lines@.len() - i,
        {
            let (name, checksum, size) = &lines[i];
            let next = match cur.checked_add(*size as u32 as u64) {
                Some(v) => v,
                None => {
                    proof {
                        lemma_entry_offset_grows(done, start as int, i + 1, done.len() as int);
                    }
                    return Err(Error::TruncatedStream);
                },
            };
            entries.push(Nfo300Entry { name: name.clone(), size: *size, checksum: *checksum, offset: cur });
            cur = next;
            i = i + 1;
        }
        Ok(entries)
    }

    /// A reader over the payload of `entry`: `size` bytes read as unsigned
    /// from its offset, as many of them as the installer holds.
    pub fn entry_reader(&self, entry: &Nfo300Entry) -> (r: EntryReader)
        requires
            self.wf(),
        ensures
            r.wf(),
            r.pos() == 0,
            ({
                let len = self.bytes().len();
                let start = if entry.offset < len { entry.offset as int } else { len as int };
                let end = if start + (entry.size as u32) < len { start + (entry.size as u32) } else { len as int };
                r.bytes() == self.bytes().subrange(start, end)
            }),
    {
        let data = self.reader.as_slice();
        let start: usize = if entry.offset < data.len() as u64 {
            entry.offset as usize
        } else {
            data.len()
        };
        let len = entry.size as u32 as usize;
        let end = if len < data.len() - start {
            start + len
        } else {
            data.len()
        };
        EntryReader { data: copy_range(data, start, end), pos: 0 }
    }
}

} // verus!
