//! Applying a patch: each modify record turns an old file into a new one by
//! running its block program, with the CRC of both checked; adds and removes
//! are recorded for the caller to carry out.

use vstd::prelude::*;

use crate::bytes::copy_range;
use crate::crc::{crc32_wz, wz_patch_verify_crc, WzDigest};
use crate::error::{ChecksumScope, Error};
use crate::patch::{handed_over, is_block_event, protocol_ok, PatchEvent, WzPatchDataStream, WzPatchFilePath, WzPatchHandler};

verus! {

/// The bytes `offset .. offset + len` of `old`, as many as it holds.
pub open spec fn old_range(old: Seq<u8>, offset: int, len: int) -> Seq<u8> {
    let s = if offset < old.len() { offset } else { old.len() as int };
    let e = if s + len < old.len() { s + len } else { old.len() as int };
    old.subrange(s, e)
}

/// What one block step writes to the new file.
pub open spec fn step_output(old: Seq<u8>, e: PatchEvent) -> Seq<u8> {
    match e {
        PatchEvent::Repeat { byte, len } => Seq::new(len as nat, |i: int| byte),
        PatchEvent::NewBlock { data } => data,
        PatchEvent::OldBlock { offset, len } => old_range(old, offset as int, len as int),
        _ => Seq::empty(),
    }
}

/// The new file that a block program writes.
pub open spec fn program_output(old: Seq<u8>, steps: Seq<PatchEvent>) -> Seq<u8>
    decreases steps.len(),
{
    if steps.len() == 0 {
        Seq::empty()
    } else {
        program_output(old, steps.drop_last()) + step_output(old, steps.last())
    }
}

/// A file of the installation being patched.
pub struct OldFile {
    pub rdr: Vec<u8>,
}

impl OldFile {
    pub fn new(rdr: Vec<u8>) -> (r: OldFile)
        ensures
            r.rdr@ == rdr@,
    {
        OldFile { rdr }
    }

    /// Checks the file's CRC before it is patched.
    pub fn verify_checksum(&self, checksum: u32) -> (r: Result<(), Error>)
        ensures
            r is Ok <==> crc32_wz(self.rdr@) == checksum,
            r is Err ==> r == Err::<(), Error>(
                Error::ChecksumMismatch { expected: checksum, got: crc32_wz(self.rdr@), scope: ChecksumScope::SourceFile },
            ),
    {
        wz_patch_verify_crc(self.rdr.as_slice(), checksum, ChecksumScope::SourceFile)
    }

    /// The bytes an old-file block copies: `len` from `offset`, as many as the
    /// file holds.
    pub fn block_reader(&self, offset: u32, len: u32) -> (r: Vec<u8>)
        ensures
            r@ == old_range(self.rdr@, offset as int, len as int),
    {
        let n = self.rdr.len();
        let s: usize = if (offset as u64) < n as u64 { offset as usize } else { n };
        let e: usize = if (len as u64) < (n - s) as u64 { s + len as usize } else { n };
        copy_range(self.rdr.as_slice(), s, e)
    }
}

/// A file being produced, with the CRC of what was written so far.
pub struct NewFile {
    pub wrtr: Vec<u8>,
    pub digest: WzDigest,
}

impl NewFile {
    pub open spec fn wf(&self) -> bool {
        self.digest.wf() && self.digest.data() == self.wrtr@
    }

    pub fn new() -> (r: NewFile)
        ensures
            r.wf(),
            r.wrtr@ == Seq::<u8>::empty(),
    {
        NewFile { wrtr: Vec::new(), digest: WzDigest::new() }
    }

    /// Appends `data`.
    pub fn write_from(&mut self, data: &[u8])
        requires
            old(self).wf(),
        ensures
            final(self).wf(),
            final(self).wrtr@ == old(self).wrtr@ + data@,
    {
        let ghost before = self.wrtr@;
        let mut i: usize = 0;
        while i < data.len()
            invariant
                self.wrtr@ == before + data@.subrange(0, i as int),
                self.digest == old(self).digest,
                before == old(self).wrtr@,
                i <= data@.len(),
            decreases data@.len() - i,
        {
            self.wrtr.push(data[i]);
            assert(self.wrtr@ =~= before + data@.subrange(0, i + 1));
            i = i + 1;
        }
        assert(data@.subrange(0, i as int) =~= data@);
        self.digest.update(data);
    }

    /// Appends `len` copies of `b`.
    pub fn write_repeat(&mut self, b: u8, len: usize)
        requires
            old(self).wf(),
        ensures
            final(self).wf(),
            final(self).wrtr@ == old(self).wrtr@ + Seq::new(len as nat, |i: int| b),
    {
        let mut run: Vec<u8> = Vec::new();
        let mut i: usize = 0;
        while i < len
            invariant
                run@ == Seq::new(i as nat, |k: int| b),
                i <= len,
            decreases len - i,
        {
            run.push(b);
            assert(run@ =~= Seq::new((i + 1) as nat, |k: int| b));
            i = i + 1;
        }
        self.write_from(run.as_slice());
    }

    /// The CRC of everything written so far.
    pub fn checksum(&self) -> (r: u32)
        requires
            self.wf(),
        ensures
            r == crc32_wz(self.wrtr@),
    {
        self.digest.finalize()
    }
}

struct CurrentPatchFile {
    old_file: OldFile,
    new_file: NewFile,
    path: WzPatchFilePath,
}

/// The open modify transaction, if any, with the block steps run so far.
struct Transaction {
    current: Option<CurrentPatchFile>,
    steps: Ghost<Seq<PatchEvent>>,
}

impl Transaction {
    #[verifier::type_invariant]
    closed spec fn inv(&self) -> bool {
        match &self.current {
            Some(c) => c.new_file.wf() && c.new_file.wrtr@ == program_output(c.old_file.rdr@, self.steps@),
            None => true,
        }
    }

    /// Takes the open transaction out, leaving none.
    fn take(&mut self) -> (r: Option<CurrentPatchFile>)
        ensures
            final(self).current is None,
            final(self).steps == old(self).steps,
            r == old(self).current,
            r matches Some(c) ==> c.new_file.wf() && c.new_file.wrtr@ == program_output(c.old_file.rdr@, old(self).steps@),
    {
        proof {
            use_type_invariant(&*self);
        }
        let mut slot: Option<CurrentPatchFile> = None;
        std::mem::swap(&mut slot, &mut self.current);
        slot
    }

    /// The CRC of the open transaction's new file so far.
    fn checksum(&self) -> (r: Option<u32>)
        ensures
            r is Some <==> self.current is Some,
            r matches Some(c) ==> c == crc32_wz(program_output(self.current->0.old_file.rdr@, self.steps@)),
    {
        proof {
            use_type_invariant(self);
        }
        match &self.current {
            Some(c) => Some(c.new_file.checksum()),
            None => None,
        }
    }

    /// Puts a transaction back with its steps.
    fn put(&mut self, c: CurrentPatchFile, steps: Ghost<Seq<PatchEvent>>)
        requires
            c.new_file.wf(),
            c.new_file.wrtr@ == program_output(c.old_file.rdr@, steps@),
        ensures
            final(self).current == Some(c),
            final(self).steps == steps,
    {
        self.current = None;
        self.steps = steps;
        self.current = Some(c);
    }
}

/// Applies a patch to files held in memory. The caller supplies the old files
/// that modify records name, and afterwards writes out what was produced and
/// deletes what was removed.
pub struct WzPatcher {
    old_files: Vec<(String, Vec<u8>)>,
    tx: Transaction,
    added: Vec<(String, Vec<u8>)>,
    modified: Vec<(String, Vec<u8>)>,
    removed: Vec<String>,
    log: Ghost<Seq<PatchEvent>>,
}

/// A path names some old file: then a first one names it.
pub proof fn lemma_first_old_exists(files: Seq<(String, Vec<u8>)>, path: Seq<char>, i: int)
    requires
        0 <= i < files.len(),
        files[i].0@ == path,
    ensures
        exists|j: int| first_old(files, path, j),
    decreases i,
{
    if exists|j: int| 0 <= j < i && files[j].0@ == path {
        let j = choose|j: int| 0 <= j < i && files[j].0@ == path;
        lemma_first_old_exists(files, path, j);
    } else {
        assert(first_old(files, path, i));
    }
}

/// Whether `i` is the first old file whose path is `path`.
pub open spec fn first_old(files: Seq<(String, Vec<u8>)>, path: Seq<char>, i: int) -> bool {
    &&& 0 <= i < files.len()
    &&& files[i].0@ == path
    &&& forall|j: int| 0 <= j < i ==> files[j].0@ != path
}

impl WzPatcher {
    /// The accepted events.
    pub closed spec fn log_of(&self) -> Seq<PatchEvent> {
        self.log@
    }

    /// The files that add records create: path and contents.
    pub closed spec fn spec_added(&self) -> Seq<(String, Vec<u8>)> {
        self.added@
    }

    /// The files that modify records produced: path and contents.
    pub closed spec fn spec_modified(&self) -> Seq<(String, Vec<u8>)> {
        self.modified@
    }

    /// The paths that remove records delete.
    pub closed spec fn spec_removed(&self) -> Seq<String> {
        self.removed@
    }

    pub fn added(&self) -> (r: &Vec<(String, Vec<u8>)>)
        ensures
            r@ == self.spec_added(),
    {
        &self.added
    }

    pub fn modified(&self) -> (r: &Vec<(String, Vec<u8>)>)
        ensures
            r@ == self.spec_modified(),
    {
        &self.modified
    }

    pub fn removed(&self) -> (r: &Vec<String>)
        ensures
            r@ == self.spec_removed(),
    {
        &self.removed
    }

    /// Whether a modify transaction is open.
    pub closed spec fn in_modify(&self) -> bool {
        self.tx.current is Some
    }

    /// The old file of the open transaction.
    pub closed spec fn current_old(&self) -> Seq<u8> {
        self.tx.current->0.old_file.rdr@
    }

    /// The path of the open transaction.
    pub closed spec fn current_path(&self) -> Seq<char> {
        self.tx.current->0.path.0@
    }

    /// The block steps of the open transaction so far.
    pub closed spec fn steps(&self) -> Seq<PatchEvent> {
        self.tx.steps@
    }

    pub closed spec fn old_files(&self) -> Seq<(String, Vec<u8>)> {
        self.old_files@
    }

    /// A patcher over the old files `old_files` (path and contents).
    pub fn new(old_files: Vec<(String, Vec<u8>)>) -> (r: WzPatcher)
        ensures
            !r.in_modify(),
            r.old_files() == old_files@,
            r.spec_added().len() == 0 && r.spec_modified().len() == 0 && r.spec_removed().len() == 0,
            r.log_of() == Seq::<PatchEvent>::empty(),
    {
        WzPatcher {
            old_files,
            tx: Transaction { current: None, steps: Ghost(Seq::empty()) },
            added: Vec::new(),
            modified: Vec::new(),
            removed: Vec::new(),
            log: Ghost(Seq::empty()),
        }
    }

    /// The index of the old file at `path`.
    fn find_old(&self, path: &String) -> (r: Option<usize>)
        ensures
            r matches Some(i) ==> first_old(self.old_files@, path@, i as int),
            r is None ==> forall|i: int| 0 <= i < self.old_files@.len() ==> self.old_files@[i].0@ != path@,
    {
        let mut i: usize = 0;
        while i < self.old_files.len()
            invariant
                i <= self.old_files@.len(),
                forall|j: int| 0 <= j < i ==> self.old_files@[j].0@ != path@,
            decreases self.old_files@.len() - i,
        {
            if self.old_files[i].0 == *path {
                return Some(i);
            }
            i = i + 1;
        }
        None
    }

    /// An add record: the file is to be created with exactly `data`.
    pub fn add(&mut self, p: &WzPatchFilePath, data: &[u8])
        ensures
            final(self).log_of() == old(self).log_of(),
            add_effect(*old(self), *final(self), p.0@, data@),

    {
        let bytes = copy_range(data, 0, data.len());
        assert(data@.subrange(0, data@.len() as int) =~= data@);
        self.added.push((p.0.clone(), bytes));
    }

    /// A remove record: the file is to be deleted.
    pub fn remove(&mut self, p: &WzPatchFilePath)
        ensures
            final(self).log_of() == old(self).log_of(),
            remove_effect(*old(self), *final(self), p.0@),

    {
        self.removed.push(p.0.clone());
    }

    /// Opens a modify transaction: finds the old file, checks its CRC and
    /// starts an empty new file.
    pub fn begin_modify(&mut self, p: &WzPatchFilePath, old_checksum: u32) -> (r: Result<(), Error>)
        ensures
            final(self).log_of() == old(self).log_of(),
            begin_effect(*old(self), *final(self), p.0@, old_checksum, r),

    {
        if self.tx.current.is_some() {
            return Err(Error::ProtocolViolation);
        }
        let i = match self.find_old(&p.0) {
            Some(i) => i,
            None => {
                return Err(Error::MissingFile);
            },
        };
        assert(old(self).old_files()[i as int].0@ == p.0@);
        let old_file = OldFile::new(copy_range(self.old_files[i].1.as_slice(), 0, self.old_files[i].1.len()));
        assert(self.old_files@[i as int].1@.subrange(0, self.old_files@[i as int].1@.len() as int) =~= self.old_files@[i as int].1@);
        old_file.verify_checksum(old_checksum)?;
        let new_file = NewFile::new();
        let path = WzPatchFilePath(p.0.clone());
        self.tx.put(CurrentPatchFile { old_file, new_file, path }, Ghost(Seq::empty()));
        assert(self.old_files@[i as int].1@ == self.current_old());
        assert(0 <= i < old(self).old_files().len() && old(self).old_files()[i as int].0@ == p.0@
            && old(self).old_files()[i as int].1@ == self.current_old());
        Ok(())
    }

    /// A block step of the open transaction.
    pub fn step(&mut self, e: &crate::patch::WzPatchEvent) -> (r: Result<(), Error>)
        requires
            crate::patch::is_block_event(e@),
        ensures
            final(self).log_of() == old(self).log_of(),
            step_effect(*old(self), *final(self), e@, r),

    {
        if !self.tx.current.is_some() {
            return Err(Error::ProtocolViolation);
        }
        let ghost old_steps = self.tx.steps@;
        let mut cur = match self.tx.take() {
            Some(c) => c,
            None => {
                return Err(Error::ProtocolViolation);
            },
        };
        match e {
            crate::patch::WzPatchEvent::Repeat { byte, len } => {
                cur.new_file.write_repeat(*byte, *len as usize);
            },
            crate::patch::WzPatchEvent::NewBlock { data } => {
                cur.new_file.write_from(data.data());
            },
            crate::patch::WzPatchEvent::OldBlock { offset, len } => {
                let bytes = cur.old_file.block_reader(*offset, *len);
                cur.new_file.write_from(bytes.as_slice());
            },
            _ => {},
        }
        let ghost steps = old_steps.push(e@);
        proof {
            assert(steps.drop_last() =~= old_steps);
        }
        self.tx.put(cur, Ghost(steps));
        Ok(())
    }

    /// Closes the open transaction: the new file's CRC must be `checksum`;
    /// then the file is recorded as produced.
    pub fn end_modify(&mut self, checksum: u32) -> (r: Result<(), Error>)
        ensures
            final(self).log_of() == old(self).log_of(),
            end_effect(*old(self), *final(self), checksum, r),

    {
        let actual = match self.tx.checksum() {
            Some(c) => c,
            None => {
                return Err(Error::ProtocolViolation);
            },
        };
        if actual != checksum {
            return Err(Error::ChecksumMismatch { expected: checksum, got: actual, scope: ChecksumScope::TargetFile });
        }
        let cur = match self.tx.take() {
            Some(c) => c,
            None => {
                return Err(Error::ProtocolViolation);
            },
        };
        self.modified.push((cur.path.0, cur.new_file.wrtr));
        Ok(())
    }
}

/// What `add` does, relating the patcher before (`o`) and after (`n`).
pub open spec fn add_effect(o: WzPatcher, n: WzPatcher, p: Seq<char>, data: Seq<u8>) -> bool {
    &&& n.spec_added() == o.spec_added().push(n.spec_added().last())
    &&& n.spec_added().last().0@ == p
    &&& n.spec_added().last().1@ == data
    &&& n.spec_modified() == o.spec_modified()
    &&& n.spec_removed() == o.spec_removed()
    &&& n.in_modify() == o.in_modify()
    &&& n.old_files() == o.old_files()
}

/// What `remove` does, relating the patcher before (`o`) and after (`n`).
pub open spec fn remove_effect(o: WzPatcher, n: WzPatcher, p: Seq<char>) -> bool {
    &&& n.spec_removed() == o.spec_removed().push(n.spec_removed().last())
    &&& n.spec_removed().last()@ == p
    &&& n.spec_added() == o.spec_added()
    &&& n.spec_modified() == o.spec_modified()
    &&& n.in_modify() == o.in_modify()
    &&& n.old_files() == o.old_files()
}

/// What `begin_modify` does, relating the patcher before (`o`) and after (`n`).
pub open spec fn begin_effect(o: WzPatcher, n: WzPatcher, p: Seq<char>, old_checksum: u32, r: Result<(), Error>) -> bool {
    &&& n.spec_added() == o.spec_added()
    &&& n.spec_modified() == o.spec_modified()
    &&& n.spec_removed() == o.spec_removed()
    &&& n.old_files() == o.old_files()
    &&& o.in_modify() ==> r == Err::<(), Error>(Error::ProtocolViolation)
    &&& !o.in_modify() && (forall|i: int| 0 <= i < o.old_files().len() ==> o.old_files()[i].0@ != p)
            ==> r == Err::<(), Error>(Error::MissingFile)
    &&& r is Ok ==> n.in_modify() && n.current_path() == p
            && n.steps() == Seq::<PatchEvent>::empty() && crc32_wz(n.current_old()) == old_checksum
            && exists|i: int| 0 <= i < o.old_files().len() && o.old_files()[i].0@ == p
                && #[trigger] o.old_files()[i].1@ == n.current_old()
    &&& r is Err ==> n.in_modify() == o.in_modify()
    &&& !o.in_modify() ==> forall|i: int| #[trigger] first_old(o.old_files(), p, i) ==> {
            &&& crc32_wz(o.old_files()[i].1@) == old_checksum ==> r is Ok
                && n.current_old() == o.old_files()[i].1@
            &&& crc32_wz(o.old_files()[i].1@) != old_checksum ==> r == Err::<(), Error>(
                Error::ChecksumMismatch {
                    expected: old_checksum,
                    got: crc32_wz(o.old_files()[i].1@),
                    scope: ChecksumScope::SourceFile,
                },
            )
        }
    &&& r is Err ==> n == o
}

/// What `step` does, relating the patcher before (`o`) and after (`n`).
pub open spec fn step_effect(o: WzPatcher, n: WzPatcher, e: PatchEvent, r: Result<(), Error>) -> bool {
    &&& n.spec_added() == o.spec_added()
    &&& n.spec_modified() == o.spec_modified()
    &&& n.spec_removed() == o.spec_removed()
    &&& n.old_files() == o.old_files()
    &&& n.in_modify() == o.in_modify()
    &&& !o.in_modify() ==> r == Err::<(), Error>(Error::ProtocolViolation)
    &&& o.in_modify() ==> r is Ok && n.steps() == o.steps().push(e)
            && n.current_old() == o.current_old()
            && n.current_path() == o.current_path()
    &&& r is Err ==> n == o
}

/// What `end_modify` does, relating the patcher before (`o`) and after (`n`).
pub open spec fn end_effect(o: WzPatcher, n: WzPatcher, checksum: u32, r: Result<(), Error>) -> bool {
    &&& r is Ok ==> !n.in_modify()
    &&& n.spec_added() == o.spec_added()
    &&& n.spec_removed() == o.spec_removed()
    &&& n.old_files() == o.old_files()
    &&& !o.in_modify() ==> r == Err::<(), Error>(Error::ProtocolViolation)
    &&& o.in_modify() ==> ({
            let out = program_output(o.current_old(), o.steps());
            &&& (r is Ok <==> crc32_wz(out) == checksum)
            &&& r is Ok ==> n.spec_modified() == o.spec_modified().push(n.spec_modified().last())
                && n.spec_modified().last().0@ == o.current_path()
                && n.spec_modified().last().1@ == out
                && crc32_wz(n.spec_modified().last().1@) == checksum
            &&& r is Err ==> n.spec_modified() == o.spec_modified() && r == Err::<(), Error>(
                Error::ChecksumMismatch { expected: checksum, got: crc32_wz(out), scope: ChecksumScope::TargetFile },
            )
        })
    &&& r is Err ==> n == o
}

/// Which events a patcher in state `w` takes: adds and removes always; a
/// modify when no transaction is open and the first old file at its path has
/// the expected CRC; a block step inside a transaction; an end when the new
/// file has the expected CRC.
pub open spec fn patcher_accepts(w: WzPatcher, e: PatchEvent) -> bool {
    if e is Modify {
        !w.in_modify() && old_file_matches(w.old_files(), e->Modify_path, e->Modify_old_checksum)
    } else if e is End {
        w.in_modify() && crc32_wz(program_output(w.current_old(), w.steps())) == e->End_checksum
    } else if e is Add || e is Remove {
        true
    } else {
        w.in_modify()
    }
}

/// Whether the first old file at `path` has the CRC `c`.
pub open spec fn old_file_matches(files: Seq<(String, Vec<u8>)>, path: Seq<char>, c: u32) -> bool {
    exists|i: int| #[trigger] first_old(files, path, i) && crc32_wz(files[i].1@) == c
}

impl WzPatchHandler for WzPatcher {
    closed spec fn log(&self) -> Seq<PatchEvent> {
        self.log@
    }

    open spec fn inv(&self) -> bool {
        true
    }

    /// Adds and removes are always taken; a modify when no transaction is
    /// open and the first old file at its path has the expected CRC; a block
    /// step inside a transaction; an end when the new file has the expected
    /// CRC.
    open spec fn accepts(&self, e: PatchEvent) -> bool {
        patcher_accepts(*self, e)
    }

    open spec fn refusal(&self, e: PatchEvent) -> Error {
        match e {
            PatchEvent::Modify { path, old_checksum, .. } => if self.in_modify() {
                Error::ProtocolViolation
            } else if !(exists|i: int| first_old(self.old_files(), path, i)) {
                Error::MissingFile
            } else {
                Error::ChecksumMismatch {
                    expected: old_checksum,
                    got: crc32_wz(self.old_files()[choose|i: int| first_old(self.old_files(), path, i)].1@),
                    scope: ChecksumScope::SourceFile,
                }
            },
            PatchEvent::End { checksum } => if !self.in_modify() {
                Error::ProtocolViolation
            } else {
                Error::ChecksumMismatch {
                    expected: checksum,
                    got: crc32_wz(program_output(self.current_old(), self.steps())),
                    scope: ChecksumScope::TargetFile,
                }
            },
            _ => Error::ProtocolViolation,
        }
    }

    /// The file is recorded to be created with exactly the literal bytes.
    fn handle_add(&mut self, p: &WzPatchFilePath, data: &WzPatchDataStream) -> (r: Result<(), Error>)
        ensures
            r is Ok,
            add_effect(*old(self), *final(self), p.0@, data.bytes()),
    {
        self.add(p, data.data());
        self.log = Ghost(self.log@.push(PatchEvent::Add { path: p.0@, checksum: data.spec_checksum(), data: data.bytes() }));
        Ok(())
    }

    /// The path is recorded to be deleted.
    fn handle_remove(&mut self, p: &WzPatchFilePath) -> (r: Result<(), Error>)
        ensures
            r is Ok,
            remove_effect(*old(self), *final(self), p.0@),
    {
        self.remove(p);
        self.log = Ghost(self.log@.push(PatchEvent::Remove { path: p.0@ }));
        Ok(())
    }

    /// Opens a transaction on the old file at `p` after checking its CRC.
    fn handle_modify(&mut self, p: &WzPatchFilePath, old_checksum: u32, new_checksum: u32) -> (r: Result<(), Error>)
        ensures
            begin_effect(*old(self), *final(self), p.0@, old_checksum, r),
    {
        proof {
            if !self.in_modify() {
                if exists|i: int| 0 <= i < self.old_files().len() && self.old_files()[i].0@ == p.0@ {
                    let i = choose|i: int| 0 <= i < self.old_files().len() && self.old_files()[i].0@ == p.0@;
                    lemma_first_old_exists(self.old_files(), p.0@, i);
                }
                assert forall|i: int, j: int| first_old(self.old_files(), p.0@, i) && first_old(self.old_files(), p.0@, j)
                    implies i == j by {
                    if i < j {
                        assert(self.old_files()[i].0@ != p.0@);
                    } else if j < i {
                        assert(self.old_files()[j].0@ != p.0@);
                    }
                }
            }
        }
        let r = self.begin_modify(p, old_checksum);
        proof {
            if !old(self).in_modify() && (exists|i: int| first_old(old(self).old_files(), p.0@, i)) {
                let i0 = choose|i: int| first_old(old(self).old_files(), p.0@, i);
                assert(first_old(old(self).old_files(), p.0@, i0));
                if crc32_wz(old(self).old_files()[i0].1@) == old_checksum {
                    assert(r is Ok);
                    assert(!old(self).in_modify());
                    assert(old_file_matches(old(self).old_files(), p.0@, old_checksum));
                    assert(patcher_accepts(*old(self), PatchEvent::Modify { path: p.0@, old_checksum, new_checksum }));
                } else {
                    assert(r is Err);
                    assert forall|i: int| first_old(old(self).old_files(), p.0@, i) implies crc32_wz(
                        old(self).old_files()[i].1@,
                    ) != old_checksum by {
                        if i < i0 {
                            assert(old(self).old_files()[i].0@ != p.0@);
                        } else if i0 < i {
                            assert(old(self).old_files()[i0].0@ != p.0@);
                        }
                    }
                    assert(!old(self).accepts(PatchEvent::Modify { path: p.0@, old_checksum, new_checksum }));
                }
            } else if !old(self).in_modify() {
                assert(r is Err);
            }
        }
        if r.is_ok() {
            self.log = Ghost(self.log@.push(PatchEvent::Modify { path: p.0@, old_checksum, new_checksum }));
        }
        r
    }

    /// Writes `len` copies of `byte` to the open transaction's new file.
    fn handle_mod_repeat(&mut self, byte: u8, len: u32) -> (r: Result<(), Error>)
        ensures
            step_effect(*old(self), *final(self), PatchEvent::Repeat { byte, len }, r),
    {
        let r = self.step(&crate::patch::WzPatchEvent::Repeat { byte, len });
        if r.is_ok() {
            self.log = Ghost(self.log@.push(PatchEvent::Repeat { byte, len }));
        }
        r
    }

    /// Writes the literal bytes to the open transaction's new file.
    fn handle_mod_new_block(&mut self, data: &WzPatchDataStream) -> (r: Result<(), Error>)
        ensures
            step_effect(*old(self), *final(self), PatchEvent::NewBlock { data: data.bytes() }, r),
    {
        let r = self.step(&crate::patch::WzPatchEvent::NewBlock { data: data.copy() });
        if r.is_ok() {
            self.log = Ghost(self.log@.push(PatchEvent::NewBlock { data: data.bytes() }));
        }
        r
    }

    /// Copies `len` bytes of the old file from `offset` to the new file.
    fn handle_mod_old_block(&mut self, offset: u32, len: u32) -> (r: Result<(), Error>)
        ensures
            step_effect(*old(self), *final(self), PatchEvent::OldBlock { offset, len }, r),
    {
        let r = self.step(&crate::patch::WzPatchEvent::OldBlock { offset, len });
        if r.is_ok() {
            self.log = Ghost(self.log@.push(PatchEvent::OldBlock { offset, len }));
        }
        r
    }

    /// Closes the transaction; the new file is kept only when its CRC is
    /// `checksum`.
    fn handle_mod_end(&mut self, checksum: u32) -> (r: Result<(), Error>)
        ensures
            end_effect(*old(self), *final(self), checksum, r),
    {
        let r = self.end_modify(checksum);
        if r.is_ok() {
            self.log = Ghost(self.log@.push(PatchEvent::End { checksum }));
        }
        r
    }
}

} // verus!

verus! {

/// The byte count after adding `len` to `n`, capped at the largest `usize`.
pub open spec fn add_capped(n: usize, len: nat) -> usize {
    if n + len > usize::MAX {
        usize::MAX
    } else {
        (n + len) as usize
    }
}

/// The modified-file list after a block step that writes `len` bytes: the
/// last entry grows by `len`.
pub open spec fn grow_last(m: Seq<(Seq<char>, usize)>, len: nat) -> Seq<(Seq<char>, usize)> {
    if m.len() > 0 {
        m.update(m.len() - 1, (m.last().0, add_capped(m.last().1, len)))
    } else {
        m
    }
}

/// What a summary holds after the events `evs`: the added files with their
/// sizes, the removed files, and the modified files with the bytes written
/// by their block steps.
pub open spec fn info_state(evs: Seq<PatchEvent>) -> (Seq<(Seq<char>, usize)>, Seq<Seq<char>>, Seq<(Seq<char>, usize)>)
    decreases evs.len(),
{
    if evs.len() == 0 {
        (Seq::empty(), Seq::empty(), Seq::empty())
    } else {
        let (a, rm, m) = info_state(evs.drop_last());
        match evs.last() {
            PatchEvent::Add { path, data, .. } => (a.push((path, data.len() as usize)), rm, m),
            PatchEvent::Remove { path } => (a, rm.push(path), m),
            PatchEvent::Modify { path, .. } => (a, rm, m.push((path, 0usize))),
            PatchEvent::Repeat { len, .. } => (a, rm, grow_last(m, len as nat)),
            PatchEvent::NewBlock { data } => (a, rm, grow_last(m, data.len())),
            PatchEvent::OldBlock { len, .. } => (a, rm, grow_last(m, len as nat)),
            PatchEvent::End { .. } => (a, rm, m),
        }
    }
}

/// Path and size pairs with the paths as characters.
pub open spec fn pairs_view(v: Seq<(String, usize)>) -> Seq<(Seq<char>, usize)> {
    v.map_values(|x: (String, usize)| (x.0@, x.1))
}

/// Paths as characters.
pub open spec fn paths_view(v: Seq<String>) -> Seq<Seq<char>> {
    v.map_values(|x: String| x@)
}

/// A summary of a patch: the files it adds with their sizes, the files it
/// removes, and the files it modifies with the number of bytes their block
/// programs write.
pub struct WzPatcherInfo {
    pub added_files: Vec<(String, usize)>,
    pub removed_files: Vec<String>,
    pub modified_files: Vec<(String, usize)>,
    /// The events accepted so far.
    pub log: Ghost<Seq<PatchEvent>>,
}

impl Default for WzPatcherInfo {
    fn default() -> (r: WzPatcherInfo)
        ensures
            r.consistent(),
            WzPatchHandler::log(&r) == Seq::<PatchEvent>::empty(),
    {
        WzPatcherInfo::new()
    }
}

impl WzPatcherInfo {
    /// Whether the lists are those of the accepted events.
    pub open spec fn consistent(&self) -> bool {
        let st = info_state(WzPatchHandler::log(self));
        &&& pairs_view(self.added_files@) == st.0
        &&& paths_view(self.removed_files@) == st.1
        &&& pairs_view(self.modified_files@) == st.2
    }

    pub fn new() -> (r: WzPatcherInfo)
        ensures
            r.consistent(),
            WzPatchHandler::log(&r) == Seq::<PatchEvent>::empty(),
    {
        let r = WzPatcherInfo {
            added_files: Vec::new(),
            removed_files: Vec::new(),
            modified_files: Vec::new(),
            log: Ghost(Seq::empty()),
        };
        assert(pairs_view(r.added_files@) =~= Seq::empty());
        assert(paths_view(r.removed_files@) =~= Seq::empty());
        assert(pairs_view(r.modified_files@) =~= Seq::empty());
        r
    }

    /// Records an added file of `len` bytes.
    pub fn record_add(&mut self, p: &WzPatchFilePath, len: usize)
        ensures
            pairs_view(final(self).added_files@) == pairs_view(old(self).added_files@).push((p.0@, len)),
            final(self).removed_files == old(self).removed_files,
            final(self).modified_files == old(self).modified_files,
            final(self).log == old(self).log,
    {
        self.added_files.push((p.0.clone(), len));
        assert(pairs_view(self.added_files@) =~= pairs_view(old(self).added_files@).push((p.0@, len)));
    }

    /// Records a removed file.
    pub fn record_remove(&mut self, p: &WzPatchFilePath)
        ensures
            paths_view(final(self).removed_files@) == paths_view(old(self).removed_files@).push(p.0@),
            final(self).added_files == old(self).added_files,
            final(self).modified_files == old(self).modified_files,
            final(self).log == old(self).log,
    {
        self.removed_files.push(p.0.clone());
        assert(paths_view(self.removed_files@) =~= paths_view(old(self).removed_files@).push(p.0@));
    }

    /// Records the start of a modified file, with no bytes yet.
    pub fn record_modify(&mut self, p: &WzPatchFilePath)
        ensures
            pairs_view(final(self).modified_files@) == pairs_view(old(self).modified_files@).push((p.0@, 0usize)),
            final(self).added_files == old(self).added_files,
            final(self).removed_files == old(self).removed_files,
            final(self).log == old(self).log,
    {
        self.modified_files.push((p.0.clone(), 0));
        assert(pairs_view(self.modified_files@) =~= pairs_view(old(self).modified_files@).push((p.0@, 0usize)));
    }

    /// Adds `len` written bytes to the file being modified.
    pub fn record_block(&mut self, len: usize) -> (r: Result<(), Error>)
        ensures
            old(self).modified_files@.len() == 0 ==> r == Err::<(), Error>(Error::ProtocolViolation)
                && *final(self) == *old(self),
            old(self).modified_files@.len() > 0 ==> r is Ok,
            pairs_view(final(self).modified_files@) == grow_last(pairs_view(old(self).modified_files@), len as nat),
            final(self).added_files == old(self).added_files,
            final(self).removed_files == old(self).removed_files,
            final(self).log == old(self).log,
    {
        let n = self.modified_files.len();
        if n == 0 {
            return Err(Error::ProtocolViolation);
        }
        let name = self.modified_files[n - 1].0.clone();
        let total = self.modified_files[n - 1].1.saturating_add(len);
        self.modified_files.set(n - 1, (name, total));
        assert(pairs_view(self.modified_files@) =~= grow_last(pairs_view(old(self).modified_files@), len as nat));
        Ok(())
    }
}

impl WzPatchHandler for WzPatcherInfo {
    open spec fn log(&self) -> Seq<PatchEvent> {
        self.log@
    }

    open spec fn inv(&self) -> bool {
        self.consistent()
    }

    open spec fn accepts(&self, e: PatchEvent) -> bool {
        (e is Repeat || e is NewBlock || e is OldBlock) ==> self.modified_files@.len() > 0
    }

    open spec fn refusal(&self, e: PatchEvent) -> Error {
        Error::ProtocolViolation
    }

    fn handle_add(&mut self, p: &WzPatchFilePath, data: &WzPatchDataStream) -> (r: Result<(), Error>)
        ensures
            r is Ok,
            old(self).consistent() ==> final(self).consistent(),
    {
        self.record_add(p, data.data().len());
        let ghost old_log = self.log@;
        self.log = Ghost(old_log.push(PatchEvent::Add { path: p.0@, checksum: data.spec_checksum(), data: data.bytes() }));
        assert(self.log@.drop_last() =~= old_log);
        Ok(())
    }

    fn handle_remove(&mut self, p: &WzPatchFilePath) -> (r: Result<(), Error>)
        ensures
            r is Ok,
            old(self).consistent() ==> final(self).consistent(),
    {
        self.record_remove(p);
        let ghost old_log = self.log@;
        self.log = Ghost(old_log.push(PatchEvent::Remove { path: p.0@ }));
        assert(self.log@.drop_last() =~= old_log);
        Ok(())
    }

    fn handle_modify(&mut self, p: &WzPatchFilePath, old_checksum: u32, new_checksum: u32) -> (r: Result<(), Error>)
        ensures
            r is Ok,
            old(self).consistent() ==> final(self).consistent(),
    {
        self.record_modify(p);
        let ghost old_log = self.log@;
        self.log = Ghost(old_log.push(PatchEvent::Modify { path: p.0@, old_checksum, new_checksum }));
        assert(self.log@.drop_last() =~= old_log);
        Ok(())
    }

    fn handle_mod_repeat(&mut self, byte: u8, len: u32) -> (r: Result<(), Error>)
        ensures
            r is Ok <==> old(self).modified_files@.len() > 0,
            old(self).consistent() ==> final(self).consistent(),
    {
        let r = self.record_block(len as usize);
        if r.is_ok() {
            let ghost old_log = self.log@;
            self.log = Ghost(old_log.push(PatchEvent::Repeat { byte, len }));
            assert(self.log@.drop_last() =~= old_log);
        }
        r
    }

    fn handle_mod_new_block(&mut self, data: &WzPatchDataStream) -> (r: Result<(), Error>)
        ensures
            r is Ok <==> old(self).modified_files@.len() > 0,
            old(self).consistent() ==> final(self).consistent(),
    {
        let r = self.record_block(data.data().len());
        if r.is_ok() {
            let ghost old_log = self.log@;
            self.log = Ghost(old_log.push(PatchEvent::NewBlock { data: data.bytes() }));
            assert(self.log@.drop_last() =~= old_log);
        }
        r
    }

    fn handle_mod_old_block(&mut self, offset: u32, len: u32) -> (r: Result<(), Error>)
        ensures
            r is Ok <==> old(self).modified_files@.len() > 0,
            old(self).consistent() ==> final(self).consistent(),
    {
        let r = self.record_block(len as usize);
        if r.is_ok() {
            let ghost old_log = self.log@;
            self.log = Ghost(old_log.push(PatchEvent::OldBlock { offset, len }));
            assert(self.log@.drop_last() =~= old_log);
        }
        r
    }

    fn handle_mod_end(&mut self, checksum: u32) -> (r: Result<(), Error>)
        ensures
            r is Ok,
            old(self).consistent() ==> final(self).consistent(),
    {
        let ghost old_log = self.log@;
        self.log = Ghost(old_log.push(PatchEvent::End { checksum }));
        assert(self.log@.drop_last() =~= old_log);
        Ok(())
    }
}

} // verus!

verus! {

/// A block step in a sequence that follows the protocol comes inside a
/// transaction: one was open before, or a modify precedes it.
proof fn lemma_block_inside_transaction(evs: Seq<PatchEvent>, open: bool, k: int)
    requires
        protocol_ok(evs, open),
        0 <= k < evs.len(),
        is_block_event(evs[k]),
    ensures
        open || exists|j: int| 0 <= j < k && #[trigger] evs[j] is Modify,
    decreases evs.len(),
{
    if k > 0 {
        let rest = evs.drop_first();
        let next_open = match evs[0] {
            PatchEvent::Modify { .. } => true,
            PatchEvent::End { .. } => false,
            PatchEvent::Add { .. } => false,
            PatchEvent::Remove { .. } => false,
            _ => true,
        };
        assert(rest[k - 1] == evs[k]);
        lemma_block_inside_transaction(rest, next_open, k - 1);
        if !(evs[0] is Modify) && next_open {
            assert(open);
        }
        if exists|j: int| 0 <= j < k - 1 && #[trigger] rest[j] is Modify {
            let j = choose|j: int| 0 <= j < k - 1 && #[trigger] rest[j] is Modify;
            assert(evs[j + 1] is Modify);
        }
        if evs[0] is Modify {
            assert(evs[0] is Modify);
        }
    }
}

/// Once a modify has been seen, the summary lists a modified file.
proof fn lemma_info_lists_modify(evs: Seq<PatchEvent>, j: int)
    requires
        0 <= j < evs.len(),
        evs[j] is Modify,
    ensures
        info_state(evs).2.len() > 0,
    decreases evs.len(),
{
    if j < evs.len() - 1 {
        assert(evs.drop_last()[j] == evs[j]);
        lemma_info_lists_modify(evs.drop_last(), j);
    }
}

/// Handing the events of a well-formed command stream to a fresh summary
/// succeeds, and the summary then lists exactly the stream's added files
/// with their sizes, its removed files, and its modified files with the
/// bytes their block steps write.
pub proof fn lemma_info_takes_well_formed(
    before: WzPatcherInfo,
    after: WzPatcherInfo,
    evs: Seq<PatchEvent>,
    r: Result<(), Error>,
)
    requires
        WzPatchHandler::log(&before) == Seq::<PatchEvent>::empty(),
        after.consistent(),
        handed_over(before, after, evs, r),
        protocol_ok(evs, false),
    ensures
        r is Ok,
        pairs_view(after.added_files@) == info_state(evs).0,
        paths_view(after.removed_files@) == info_state(evs).1,
        pairs_view(after.modified_files@) == info_state(evs).2,
{
    if let Err(e) = r {
        let k = choose|k: int|
            0 <= k < evs.len() && WzPatchHandler::log(&after) == WzPatchHandler::log(&before) + evs.subrange(0, k)
                && !after.accepts(#[trigger] evs[k]) && e == after.refusal(evs[k]);
        assert(WzPatchHandler::log(&after) =~= evs.subrange(0, k));
        lemma_block_inside_transaction(evs, false, k);
        let j = choose|j: int| 0 <= j < k && #[trigger] evs[j] is Modify;
        assert(evs.subrange(0, k)[j] == evs[j]);
        lemma_info_lists_modify(evs.subrange(0, k), j);
        assert(false);
    }
    assert(WzPatchHandler::log(&after) =~= evs);
}

} // verus!
