//! What both installer formats share: entries with a name and a size, and the
//! file names under which extracted entries are stored.

use vstd::prelude::*;

use crate::error::Error;
use crate::text::push_char;

verus! {

/// An embedded file of an installer.
pub trait Entry {
    /// The entry's name.
    spec fn name_view(&self) -> Seq<char>;

    /// The entry's payload size.
    spec fn size_view(&self) -> u64;

    fn name(&self) -> (r: &str)
        ensures
            r@ == self.name_view(),
    ;

    fn size(&self) -> (r: u64)
        ensures
            r == self.size_view(),
    ;
}

/// Whether a character may stay in a stored file name: an ASCII letter, an
/// ASCII digit or a dot.
pub open spec fn keeps_char(c: char) -> bool {
    ('a' <= c && c <= 'z') || ('A' <= c && c <= 'Z') || ('0' <= c && c <= '9') || c == '.'
}

/// The stored file name for an entry name: every character other than an
/// ASCII letter, an ASCII digit or a dot becomes `_`.
pub open spec fn sanitized(name: Seq<char>) -> Seq<char> {
    name.map_values(|c: char| if keeps_char(c) { c } else { '_' })
}

/// The characters of `s`, in order.
fn chars_of(s: &str) -> (r: Vec<char>)
    ensures
        r@ == s@,
{
    broadcast use vstd::string::axiom_spec_iter;

    let mut v: Vec<char> = Vec::new();
    for c in it: s.chars()
        invariant
            it.seq() == s@,
            v@ == it.seq().subrange(0, it.index() as int),
    {
        v.push(c);
        assert(v@ =~= it.seq().subrange(0, it.index() + 1));
    }
    assert(v@ =~= s@);
    v
}

/// The file name under which an entry named `name` is stored.
pub fn sanitize_name(name: &str) -> (r: String)
    ensures
        r@ == sanitized(name@),
{
    let chars = chars_of(name);
    let mut r = String::new();
    let mut i: usize = 0;
    while i < chars.len()
        invariant
            chars@ == name@,
            i <= chars@.len(),
            r@ == sanitized(chars@.subrange(0, i as int)),
        decreases chars@.len() - i,
    {
        let c = chars[i];
        let keep = ('a' <= c && c <= 'z') || ('A' <= c && c <= 'Z') || ('0' <= c && c <= '9') || c
            == '.';
        push_char(&mut r, if keep { c } else { '_' });
        assert(sanitized(chars@.subrange(0, i + 1)) =~= sanitized(chars@.subrange(0, i as int)).push(
            if keeps_char(c) { c } else { '_' },
        ));
        i = i + 1;
    }
    assert(chars@.subrange(0, i as int) =~= chars@);
    r
}

/// What the extracted files of an installer hold.
#[derive(Clone, Copy, Debug, PartialEq, Eq, Structural)]
pub enum PayloadKind {
    /// Cabinet files, expanded from the first one.
    Cab,
    /// A zip archive split over `.z0`.. parts and a `.zip`.
    ZipSplit,
    /// An MSI package that wraps a cabinet.
    Msi,
}

/// The extension of a file name: what follows its last dot, if it has one
/// other than a leading dot (a name such as `.cab` has none).
pub open spec fn extension_of(name: Seq<char>) -> Option<Seq<char>> {
    if exists|i: int| 1 <= i < name.len() && name[i] == '.' {
        let d = choose|i: int| 1 <= i < name.len() && name[i] == '.' && forall|j: int| i < j < name.len() ==> name[j] != '.';
        Some(name.subrange(d + 1, name.len() as int))
    } else {
        None
    }
}

/// Whether some name has the extension `ext`.
pub open spec fn any_has_extension(names: Seq<Seq<char>>, ext: Seq<char>) -> bool {
    exists|i: int| 0 <= i < names.len() && extension_of(#[trigger] names[i]) == Some(ext)
}

/// The payload kind for files with the names `names`: cabinets first, then a
/// split zip, then an MSI package.
pub open spec fn payload_kind(names: Seq<Seq<char>>) -> Result<PayloadKind, Error> {
    if any_has_extension(names, seq!['c', 'a', 'b']) {
        Ok(PayloadKind::Cab)
    } else if any_has_extension(names, seq!['z', 'i', 'p']) || any_has_extension(names, seq!['z', '0']) {
        Ok(PayloadKind::ZipSplit)
    } else if any_has_extension(names, seq!['m', 's', 'i']) {
        Ok(PayloadKind::Msi)
    } else {
        Err(Error::UnknownPayload)
    }
}

/// The extension of `name`.
pub fn extension(name: &[char]) -> (r: Option<Vec<char>>)
    ensures
        match extension_of(name@) {
            Some(e) => r matches Some(v) && v@ == e,
            None => r is None,
        },
{
    let mut i: usize = name.len();
    while i > 0 && name[i - 1] != '.'
        invariant
            i <= name@.len(),
            forall|j: int| i <= j < name@.len() ==> name@[j] != '.',
        decreases i,
    {
        i = i - 1;
    }
    if i <= 1 {
        return None;
    }
    proof {
        let d = (i - 1) as int;
        assert(name@[d] == '.');
        let c = choose|c: int| 1 <= c < name@.len() && name@[c] == '.' && forall|j: int| c < j < name@.len() ==> name@[j] != '.';
        if c < d {
            assert(name@[d] != '.');
        } else if c > d {
            assert(name@[c] != '.');
        }
    }
    let mut v: Vec<char> = Vec::new();
    let mut k: usize = i;
    while k < name.len()
        invariant
            i <= k <= name@.len(),
            v@ == name@.subrange(i as int, k as int),
        decreases name@.len() - k,
    {
        v.push(name[k]);
        assert(v@ =~= name@.subrange(i as int, k + 1));
        k = k + 1;
    }
    Some(v)
}

fn chars_eq(a: &[char], b: &[char]) -> (r: bool)
    ensures
        r == (a@ == b@),
{
    if a.len() != b.len() {
        return false;
    }
    let mut i: usize = 0;
    while i < a.len()
        invariant
            a@.len() == b@.len(),
            i <= a@.len(),
            forall|j: int| 0 <= j < i ==> a@[j] == b@[j],
        decreases a@.len() - i,
    {
        if a[i] != b[i] {
            return false;
        }
        i = i + 1;
    }
    assert(a@ =~= b@);
    true
}

/// Whether some name in `names` has the extension `ext`.
fn has_extension(names: &Vec<Vec<char>>, ext: &[char]) -> (r: bool)
    ensures
        r == any_has_extension(names@.map_values(|n: Vec<char>| n@), ext@),
{
    let ghost ns = names@.map_values(|n: Vec<char>| n@);
    let mut i: usize = 0;
    while i < names.len()
        invariant
            ns == names@.map_values(|n: Vec<char>| n@),
            i <= names@.len(),
            forall|j: int| 0 <= j < i ==> extension_of(#[trigger] ns[j]) != Some(ext@),
        decreases names@.len() - i,
    {
        assert(ns[i as int] == names@[i as int]@);
        if let Some(e) = extension(names[i].as_slice()) {
            if chars_eq(e.as_slice(), ext) {
                return true;
            }
        }
        i = i + 1;
    }
    false
}

/// Decides how to expand the files extracted from an installer, from their
/// names: cabinets go to an external tool, a split zip is joined and
/// repaired, an MSI package is unpacked for its cabinet.
pub fn classify_payload(names: &Vec<String>) -> (r: Result<PayloadKind, Error>)
    ensures
        r == payload_kind(names@.map_values(|n: String| n@)),
{
    let ghost ns = names@.map_values(|n: String| n@);
    let mut cs: Vec<Vec<char>> = Vec::new();
    let mut i: usize = 0;
    while i < names.len()
        invariant
            ns == names@.map_values(|n: String| n@),
            i <= names@.len(),
            cs@.len() == i,
            forall|j: int| 0 <= j < i ==> #[trigger] cs@[j]@ == ns[j],
        decreases names@.len() - i,
    {
        cs.push(chars_of(names[i].as_str()));
        i = i + 1;
    }
    assert(cs@.map_values(|n: Vec<char>| n@) =~= ns);
    let cab: [char; 3] = ['c', 'a', 'b'];
    let zip: [char; 3] = ['z', 'i', 'p'];
    let z0: [char; 2] = ['z', '0'];
    let msi: [char; 3] = ['m', 's', 'i'];
    assert(cab@ =~= seq!['c', 'a', 'b']);
    assert(zip@ =~= seq!['z', 'i', 'p']);
    assert(z0@ =~= seq!['z', '0']);
    assert(msi@ =~= seq!['m', 's', 'i']);
    if has_extension(&cs, cab.as_slice()) {
        Ok(PayloadKind::Cab)
    } else if has_extension(&cs, zip.as_slice()) || has_extension(&cs, z0.as_slice()) {
        Ok(PayloadKind::ZipSplit)
    } else if has_extension(&cs, msi.as_slice()) {
        Ok(PayloadKind::Msi)
    } else {
        Err(Error::UnknownPayload)
    }
}

/// Whether `s` starts with `prefix`.
pub open spec fn starts_with(s: Seq<char>, prefix: Seq<char>) -> bool {
    prefix.len() <= s.len() && s.subrange(0, prefix.len() as int) == prefix
}

/// Whether an extracted file is deleted after the report: its name starts
/// with one of the prefixes (the empty prefix starts every name), or its
/// extension is one of `exts`.
pub open spec fn removal_wanted(name: Seq<char>, prefixes: Seq<Seq<char>>, exts: Seq<Seq<char>>) -> bool {
    (exists|i: int| 0 <= i < prefixes.len() && starts_with(name, #[trigger] prefixes[i]))
        || (exists|i: int| 0 <= i < exts.len() && extension_of(name) == Some(#[trigger] exts[i]))
}

fn starts_with_exec(s: &[char], prefix: &[char]) -> (r: bool)
    ensures
        r == starts_with(s@, prefix@),
{
    if prefix.len() > s.len() {
        return false;
    }
    let mut i: usize = 0;
    while i < prefix.len()
        invariant
            prefix@.len() <= s@.len(),
            i <= prefix@.len(),
            forall|j: int| 0 <= j < i ==> s@[j] == prefix@[j],
        decreases prefix@.len() - i,
    {
        if s[i] != prefix[i] {
            assert(s@.subrange(0, prefix@.len() as int)[i as int] != prefix@[i as int]);
            return false;
        }
        i = i + 1;
    }
    assert(s@.subrange(0, prefix@.len() as int) =~= prefix@);
    true
}

/// Decides whether the extracted file `name` is to be deleted.
pub fn should_remove(name: &str, remove_prefix: &Vec<String>, remove_exts: &Vec<String>) -> (r: bool)
    ensures
        r == removal_wanted(
            name@,
            remove_prefix@.map_values(|p: String| p@),
            remove_exts@.map_values(|e: String| e@),
        ),
{
    let ghost ps = remove_prefix@.map_values(|p: String| p@);
    let ghost es = remove_exts@.map_values(|e: String| e@);
    let n = chars_of(name);
    let mut i: usize = 0;
    while i < remove_prefix.len()
        invariant
            ps == remove_prefix@.map_values(|p: String| p@),
            n@ == name@,
            i <= remove_prefix@.len(),
            forall|j: int| 0 <= j < i ==> !starts_with(name@, #[trigger] ps[j]),
        decreases remove_prefix@.len() - i,
    {
        let p = chars_of(remove_prefix[i].as_str());
        assert(ps[i as int] == p@);
        if starts_with_exec(n.as_slice(), p.as_slice()) {
            return true;
        }
        i = i + 1;
    }
    let ext = extension(n.as_slice());
    let mut k: usize = 0;
    while k < remove_exts.len()
        invariant
            es == remove_exts@.map_values(|e: String| e@),
            n@ == name@,
            k <= remove_exts@.len(),
            match extension_of(name@) {
                Some(e) => ext matches Some(v) && v@ == e,
                None => ext is None,
            },
            forall|j: int| 0 <= j < k ==> extension_of(name@) != Some(#[trigger] es[j]),
        decreases remove_exts@.len() - k,
    {
        let e = chars_of(remove_exts[k].as_str());
        assert(es[k as int] == e@);
        if let Some(v) = &ext {
            if chars_eq(v.as_slice(), e.as_slice()) {
                return true;
            }
        }
        k = k + 1;
    }
    false
}

} // verus!

verus! {

/// An opened installer of either format.
#[derive(Debug)]
pub enum SetupFile {
    Nfo300(crate::nfo300::Nfo300Setup),
    InstallShield(crate::is::IsSetup),
}

/// Whether an InstallShield header with its signature starts at `off`.
pub open spec fn is_header_at(data: Seq<u8>, off: int) -> bool {
    off + crate::is::IS_HEADER_LEN <= data.len() && data.subrange(off, off + 14) == crate::is::is_signature()
}

/// Detects the format of the installer image `data` and opens it there.
pub fn open_setup(data: Vec<u8>) -> (r: Result<SetupFile, Error>)
    ensures
        crate::scan::detect_from(data@, 0) matches Err(e) ==> r == Err::<SetupFile, Error>(e),
        crate::scan::detect_from(data@, 0) matches Ok(crate::scan::SetupFormat::NFO300(off))
            ==> (r matches Ok(SetupFile::Nfo300(s)) && s.wf() && s.bytes() == data@ && s.marker_offset() == off),
        crate::scan::detect_from(data@, 0) matches Ok(crate::scan::SetupFormat::InstallShield(off))
            ==> (is_header_at(data@, off as int) <==> r is Ok),
        crate::scan::detect_from(data@, 0) matches Ok(crate::scan::SetupFormat::InstallShield(off))
            ==> (off + crate::is::IS_HEADER_LEN > data@.len() ==> r matches Err(Error::TruncatedStream)),
        crate::scan::detect_from(data@, 0) matches Ok(crate::scan::SetupFormat::InstallShield(off))
            ==> (off + crate::is::IS_HEADER_LEN <= data@.len() && !is_header_at(data@, off as int)
            ==> r matches Err(Error::BadMagic)),
        crate::scan::detect_from(data@, 0) matches Ok(crate::scan::SetupFormat::InstallShield(off))
            ==> (r is Ok ==> (r matches Ok(SetupFile::InstallShield(s)) && s.wf() && s.bytes() == data@
            && s.header_offset() == off)),
{
    let len = data.len();
    proof {
        assert(data@.len() == len);
        crate::scan::lemma_detect_within(data@, 0);
    }
    match crate::scan::SetupFormat::from_reader(data.as_slice()) {
        Err(e) => Err(e),
        Ok(crate::scan::SetupFormat::NFO300(off)) => match crate::nfo300::Nfo300Setup::new(data, off) {
            Ok(s) => Ok(SetupFile::Nfo300(s)),
            Err(e) => Err(e),
        },
        Ok(crate::scan::SetupFormat::InstallShield(off)) => match crate::is::IsSetup::new(data, off) {
            Ok(s) => Ok(SetupFile::InstallShield(s)),
            Err(e) => Err(e),
        },
    }
}

} // verus!
