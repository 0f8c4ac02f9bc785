//! The PackMan container archive: folders of opaque file buffers keyed
//! by a folder ID, with a sparse offset table in which a zero entry
//! means an empty file and sizes follow from the next non-zero entry.
//!
//! File layout: a big-endian `u32` folder count; one `u8` file count
//! per folder; zero padding to a 4-byte boundary; one big-endian `u16`
//! first-file index per folder; one big-endian `u16` folder ID per
//! folder; one big-endian `u32` offset per file slot, zero meaning an
//! empty slot; zero padding to the 32-byte-aligned first file offset;
//! the file buffers, each padded to a 32-byte boundary.

use crate::endian::{
    lemma_u16_be_bytes_at, lemma_u32_be_bytes_at, push_u16_be, push_u32_be, read_u16_be,
    read_u32_be, u16_be_at, u16_be_bytes, u32_be_at, u32_be_bytes,
};
use crate::util::{copy_range, spec_align};
use crate::FormatError;
use vstd::prelude::*;

verus! {

/// A single file in a PackMan folder.
pub struct PackManFile {
    /// The file's bytes; empty means an absent slot.
    pub data: Vec<u8>,
    /// An offset a caller may record for this file when it exports the
    /// archive; the codec itself computes offsets afresh and neither
    /// reads nor updates this field.
    pub exported_offset: u32,
}

impl Default for PackManFile {
    /// An empty file: an absent slot.
    fn default() -> (r: Self)
        ensures
            r.data@ == Seq::<u8>::empty(),
            r.exported_offset == 0,
    {
        PackManFile { data: Vec::new(), exported_offset: 0 }
    }
}

impl PackManFile {
    /// Creates a file holding the given `data` buffer.
    pub fn new(data: Vec<u8>) -> (r: Self)
        ensures
            r.data@ == data@,
            r.exported_offset == 0,
    {
        Self { data, exported_offset: 0 }
    }
}

/// A folder in a PackMan archive: an ID the game dispatches on, and the
/// folder's files in order.
pub struct PackManFolder {
    /// True once an ID has actually been assigned; a folder fresh from
    /// the editor has `id == 0` but no valid ID yet.
    pub is_id_valid: bool,
    /// The folder ID the game uses to interpret the files.
    pub id: u16,
    /// The file count read from an existing archive; `files.len()`
    /// is authoritative otherwise.
    pub file_count: u8,
    /// The files in this folder, in order.
    pub files: Vec<PackManFile>,
}

impl Default for PackManFolder {
    /// A fresh folder: no ID assigned yet and no files.
    fn default() -> (r: Self)
        ensures
            r.is_id_valid == false,
            r.id == 0,
            r.file_count == 0,
            r.files@.len() == 0,
    {
        PackManFolder { is_id_valid: false, id: 0, file_count: 0, files: Vec::new() }
    }
}

impl PackManFolder {
    /// Creates a folder that expects `file_count` files, as recorded in
    /// an archive being read; pass 0 for a fresh empty folder.
    pub fn new(file_count: u8) -> (r: Self)
        ensures
            r.is_id_valid == false,
            r.id == 0,
            r.file_count == file_count,
            r.files@.len() == 0,
    {
        Self { is_id_valid: false, id: 0, file_count, files: Vec::new() }
    }
}

/// A PackMan archive: an ordered sequence of folders.
pub struct PackManArchive {
    /// The folders of the archive, in file order.
    pub folders: Vec<PackManFolder>,
}

/// The folder count of the archive header.
pub open spec fn pm_fc(b: Seq<u8>) -> int {
    u32_be_at(b, 0)
}

/// The file count recorded for folder `j`.
pub open spec fn pm_count(b: Seq<u8>, j: int) -> u8 {
    b[4 + j]
}

/// How many file slots the folders before folder `j` hold together.
pub open spec fn pm_count_prefix(b: Seq<u8>, j: nat) -> int
    decreases j,
{
    if j == 0 {
        0
    } else {
        pm_count_prefix(b, (j - 1) as nat) + pm_count(b, j - 1)
    }
}

/// Where the first-file-index table starts: the file counts rounded up
/// to a 4-byte boundary.
pub open spec fn pm_a4(b: Seq<u8>) -> int {
    spec_align(4 + pm_fc(b), 4)
}

/// Where the file offset table starts: past the index table and the
/// folder IDs.
pub open spec fn pm_base(b: Seq<u8>) -> int {
    pm_a4(b) + 4 * pm_fc(b)
}

/// The ID recorded for folder `j`.
pub open spec fn pm_id(b: Seq<u8>, j: int) -> int {
    u16_be_at(b, pm_a4(b) + 2 * pm_fc(b) + 2 * j)
}

/// The total file slot count of the archive.
pub open spec fn pm_total(b: Seq<u8>) -> int {
    pm_count_prefix(b, pm_fc(b) as nat)
}

/// What scanning the offset table from entry `m` for the next non-zero
/// entry returns: the first non-zero entry's index, `total` when the
/// table ends first, or `UnexpectedEof` when the scan runs off the end
/// of the buffer.
pub open spec fn scan_next(b: Seq<u8>, base: int, total: int, m: int) -> Result<int, FormatError>
    decreases total - m,
{
    if m >= total {
        Ok(total)
    } else if base + 4 * (m + 1) > b.len() {
        Err(FormatError::UnexpectedEof)
    } else if u32_be_at(b, base + 4 * m) != 0 {
        Ok(m)
    } else {
        scan_next(b, base, total, m + 1)
    }
}

/// What reading file slot `k` of the offset table returns: an empty
/// buffer for a zero entry, and otherwise the bytes from the entry's
/// offset up to the next non-zero entry, or to the end of the buffer
/// when there is none. A slot whose entry cannot be read, or whose
/// bytes run past the end of the buffer, is `UnexpectedEof`; an offset
/// table that goes backwards is `InvalidArchive`.
pub open spec fn slot_result(b: Seq<u8>, base: int, total: int, k: int) -> Result<
    Seq<u8>,
    FormatError,
> {
    if base + 4 * (k + 1) > b.len() {
        Err(FormatError::UnexpectedEof)
    } else {
        let off = u32_be_at(b, base + 4 * k);
        if off == 0 {
            Ok(Seq::empty())
        } else {
            match scan_next(b, base, total, k + 1) {
                Err(e) => Err(e),
                Ok(j) => {
                    let boundary = if j < total {
                        u32_be_at(b, base + 4 * j)
                    } else {
                        b.len() as int
                    };
                    if boundary < off {
                        Err(FormatError::InvalidArchive)
                    } else if boundary > b.len() {
                        Err(FormatError::UnexpectedEof)
                    } else {
                        Ok(b.subrange(off, boundary))
                    }
                },
            }
        }
    }
}

/// The data of the first `k` file slots, in slot order; the first slot
/// that fails decides the error.
pub open spec fn read_slots_to(b: Seq<u8>, base: int, total: int, k: nat) -> Result<
    Seq<Seq<u8>>,
    FormatError,
>
    decreases k,
{
    if k == 0 {
        Ok(Seq::empty())
    } else {
        match read_slots_to(b, base, total, (k - 1) as nat) {
            Err(e) => Err(e),
            Ok(prev) => match slot_result(b, base, total, k - 1) {
                Err(e) => Err(e),
                Ok(d) => Ok(prev.push(d)),
            },
        }
    }
}

/// A folder as the archive reader recovers it.
pub struct FolderModel {
    /// The folder's ID.
    pub id: u16,
    /// The folder's recorded file count.
    pub file_count: u8,
    /// The data of the folder's file slots, in order; an empty entry is
    /// an empty slot.
    pub files: Seq<Seq<u8>>,
}

/// The folder models of the archive once the slot data `slots` is
/// known: folder `j` takes its recorded ID and file count, and the
/// slots of the flat table that fall to it.
pub open spec fn pm_folders_model(b: Seq<u8>, slots: Seq<Seq<u8>>) -> Seq<FolderModel> {
    Seq::new(
        pm_fc(b) as nat,
        |j: int|
            FolderModel {
                id: pm_id(b, j) as u16,
                file_count: pm_count(b, j),
                files: slots.subrange(
                    pm_count_prefix(b, j as nat),
                    pm_count_prefix(b, (j + 1) as nat),
                ),
            },
    )
}

/// What reading a PackMan archive from `b` returns: the recovered
/// folders, or the first error the reader meets, in the reader's
/// order: the folder count, the file counts, the folder IDs, then the
/// file slots one by one.
pub open spec fn spec_read(b: Seq<u8>) -> Result<Seq<FolderModel>, FormatError> {
    if b.len() < 4 {
        Err(FormatError::UnexpectedEof)
    } else if 4 + pm_fc(b) > b.len() {
        Err(FormatError::UnexpectedEof)
    } else if pm_base(b) > b.len() {
        Err(FormatError::UnexpectedEof)
    } else {
        match read_slots_to(b, pm_base(b), pm_total(b), pm_total(b) as nat) {
            Err(e) => Err(e),
            Ok(slots) => Ok(pm_folders_model(b, slots)),
        }
    }
}

/// True when the files held in `fs` carry exactly the slot data `ds`.
pub open spec fn files_match(fs: Seq<PackManFile>, ds: Seq<Seq<u8>>) -> bool {
    &&& fs.len() == ds.len()
    &&& forall|l: int|
        0 <= l < ds.len() ==> (#[trigger] fs[l]).data@ == ds[l] && fs[l].exported_offset == 0
}

/// True when folder `jj`, as assembled by the reader, carries the ID,
/// file count, and slot data the buffer records for it.
spec fn folder_ok(f: PackManFolder, b: Seq<u8>, done: Seq<Seq<u8>>, jj: int) -> bool {
    &&& f.id == pm_id(b, jj)
    &&& f.is_id_valid == true
    &&& f.file_count == pm_count(b, jj)
    &&& f.files@.len() == pm_count(b, jj)
    &&& forall|ll: int|
        0 <= ll < f.files@.len() ==> (#[trigger] f.files@[ll]).data@ == done[pm_count_prefix(
            b,
            jj as nat,
        ) + ll] && f.files@[ll].exported_offset == 0
}

/// True when the folders held in `v` are exactly the recovered folders
/// `m`, every ID marked valid.
pub open spec fn folders_match(v: Seq<PackManFolder>, m: Seq<FolderModel>) -> bool {
    &&& v.len() == m.len()
    &&& forall|j: int|
        0 <= j < m.len() ==> {
            &&& (#[trigger] v[j]).id == m[j].id
            &&& v[j].is_id_valid == true
            &&& v[j].file_count == m[j].file_count
            &&& files_match(v[j].files@, m[j].files)
        }
}

/// Slot counts only grow as more folders are counted.
pub proof fn lemma_prefix_monotone(b: Seq<u8>, i: nat, j: nat)
    requires
        i <= j,
    ensures
        pm_count_prefix(b, i) <= pm_count_prefix(b, j),
    decreases j,
{
    if i < j {
        lemma_prefix_monotone(b, i, (j - 1) as nat);
    }
}

/// Once a slot has failed, reading further slots reports the same
/// error.
pub proof fn lemma_slots_err_persists(b: Seq<u8>, base: int, total: int, k: nat, j: nat)
    requires
        k <= j,
        read_slots_to(b, base, total, k) is Err,
    ensures
        read_slots_to(b, base, total, j) == read_slots_to(b, base, total, k),
    decreases j,
{
    if k < j {
        lemma_slots_err_persists(b, base, total, k, (j - 1) as nat);
    }
}

/// What a successful scan guarantees: the found entry lies in range,
/// and a found entry short of the table end is readable and non-zero.
pub proof fn lemma_scan_next_props(b: Seq<u8>, base: int, total: int, m: int)
    requires
        m <= total,
    ensures
        match scan_next(b, base, total, m) {
            Ok(j) => m <= j <= total && (j < total ==> base + 4 * (j + 1) <= b.len() && u32_be_at(
                b,
                base + 4 * j,
            ) != 0),
            Err(e) => e == FormatError::UnexpectedEof,
        },
    decreases total - m,
{
    if m < total && base + 4 * (m + 1) <= b.len() && u32_be_at(b, base + 4 * m) == 0 {
        lemma_scan_next_props(b, base, total, m + 1);
    }
}

/// Scans the offset table from entry `m0` for the next non-zero entry.
fn scan_next_entry(data: &Vec<u8>, base: u64, total: u64, m0: u64) -> (r: Result<u64, FormatError>)
    requires
        data.len() <= 0xFFFFFFFF,
        base <= 0xFFFFFFFF,
        total <= 0xFF00000000,
        m0 <= total,
    ensures
        match r {
            Ok(j) => scan_next(data@, base as int, total as int, m0 as int) == Ok::<
                int,
                FormatError,
            >(j as int),
            Err(e) => scan_next(data@, base as int, total as int, m0 as int) == Err::<
                int,
                FormatError,
            >(e),
        },
{
    let n = data.len();
    let mut m = m0;
    while m < total
        invariant
            data.len() <= 0xFFFFFFFF,
            n == data.len(),
            base <= 0xFFFFFFFF,
            total <= 0xFF00000000,
            m0 <= m <= total,
            scan_next(data@, base as int, total as int, m0 as int) == scan_next(
                data@,
                base as int,
                total as int,
                m as int,
            ),
        decreases total - m,
    {
        if base + 4 * (m + 1) > n as u64 {
            return Err(FormatError::UnexpectedEof);
        }
        let v = read_u32_be(data, (base + 4 * m) as usize);
        if v != 0 {
            return Ok(m);
        }
        m = m + 1;
    }
    Ok(total)
}

impl Default for PackManArchive {
    /// An archive with no folders.
    fn default() -> (r: Self)
        ensures
            r.folders@.len() == 0,
    {
        PackManArchive { folders: Vec::new() }
    }
}

impl PackManArchive {
    /// Creates an archive with no folders.
    pub fn new_empty() -> (r: Self)
        ensures
            r.folders@.len() == 0,
    {
        Self { folders: Vec::new() }
    }

    /// The total file slot count over all folders, as recorded in their
    /// `file_count` fields.
    pub fn get_all_file_count(&self) -> (r: usize)
        requires
            spec_all_file_count(self.folders@, self.folders@.len() as nat) <= usize::MAX,
        ensures
            r == spec_all_file_count(self.folders@, self.folders@.len() as nat),
    {
        let mut file_count: usize = 0;
        let n = self.folders.len();
        let mut j: usize = 0;
        while j < n
            invariant
                n == self.folders@.len(),
                j <= n,
                spec_all_file_count(self.folders@, n as nat) <= usize::MAX,
                file_count == spec_all_file_count(self.folders@, j as nat),
            decreases n - j,
        {
            proof {
                lemma_all_file_count_monotone(self.folders@, (j + 1) as nat, n as nat);
            }
            file_count = file_count + self.folders[j].file_count as usize;
            j = j + 1;
        }
        file_count
    }

    /// Reads a PackMan archive from `data`. A header, ID table, offset
    /// table, or file cut short is refused as `UnexpectedEof`; a
    /// non-zero offset smaller than the non-zero offset before it is
    /// refused as `InvalidArchive`. An empty slot stays an empty file.
    pub fn read(data: &Vec<u8>) -> (r: Result<Self, FormatError>)
        requires
            data.len() <= 0xFFFFFFFF,
        ensures
            match spec_read(data@) {
                Ok(m) => r matches Ok(a) && folders_match(a.folders@, m),
                Err(e) => r == Err::<PackManArchive, FormatError>(e),
            },
    {
        let n = data.len();
        if n < 4 {
            return Err(FormatError::UnexpectedEof);
        }
        let fc = read_u32_be(data, 0);
        if fc as u64 > n as u64 - 4 {
            return Err(FormatError::UnexpectedEof);
        }
        let fc_us = fc as usize;

        let mut counts: Vec<u8> = Vec::new();
        let mut total: u64 = 0;
        let mut j: usize = 0;
        while j < fc_us
            invariant
                n == data.len() <= 0xFFFFFFFF,
                fc_us == pm_fc(data@),
                4 + fc_us <= n,
                j <= fc_us,
                counts@.len() == j,
                forall|l: int| 0 <= l < j ==> counts@[l] == pm_count(data@, l),
                total == pm_count_prefix(data@, j as nat),
                total <= 0xFF * (j as u64),
            decreases fc_us - j,
        {
            let c = data[4 + j];
            counts.push(c);
            total = total + c as u64;
            j = j + 1;
        }

        let a4: u64 = (4 + fc as u64 + 3) / 4 * 4;
        proof {
            assert(a4 == pm_a4(data@));
        }
        let base: u64 = a4 + 4 * (fc as u64);
        if base > n as u64 {
            return Err(FormatError::UnexpectedEof);
        }

        let mut ids: Vec<u16> = Vec::new();
        let mut j: usize = 0;
        while j < fc_us
            invariant
                n == data.len() <= 0xFFFFFFFF,
                fc_us == pm_fc(data@),
                fc as usize == fc_us,
                4 + fc_us <= n,
                a4 == pm_a4(data@),
                base == pm_base(data@),
                base <= n as u64,
                j <= fc_us,
                ids@.len() == j,
                forall|l: int| 0 <= l < j ==> ids@[l] == pm_id(data@, l),
            decreases fc_us - j,
        {
            proof {
                crate::util::lemma_align_props(4 + pm_fc(data@), 4);
            }
            let pos = a4 + 2 * (fc as u64) + 2 * (j as u64);
            proof {
                assert(pos + 2 <= base);
                assert((pos as usize) as int == pos as int);
            }
            let id = read_u16_be(data, pos as usize);
            ids.push(id);
            j = j + 1;
        }

        proof {
            assert(total == pm_total(data@));
        }

        let mut folders: Vec<PackManFolder> = Vec::new();
        let mut k: u64 = 0;
        let ghost mut done: Seq<Seq<u8>> = Seq::empty();
        let mut j: usize = 0;
        while j < fc_us
            invariant
                n == data.len() <= 0xFFFFFFFF,
                fc_us == pm_fc(data@),
                4 + fc_us <= n,
                base == pm_base(data@),
                base <= n as u64,
                total == pm_total(data@),
                total <= 0xFF * (fc_us as u64),
                counts@.len() == fc_us,
                forall|l: int| 0 <= l < fc_us ==> counts@[l] == pm_count(data@, l),
                ids@.len() == fc_us,
                forall|l: int| 0 <= l < fc_us ==> ids@[l] == pm_id(data@, l),
                j <= fc_us,
                folders@.len() == j,
                k == pm_count_prefix(data@, j as nat),
                k <= total,
                read_slots_to(data@, base as int, total as int, k as nat) == Ok::<
                    Seq<Seq<u8>>,
                    FormatError,
                >(done),
                done.len() == k,
                forall|jj: int| 0 <= jj < j ==> folder_ok(#[trigger] folders@[jj], data@, done, jj),
            decreases fc_us - j,
        {
            let cnt = counts[j];
            let mut folder = PackManFolder::new(cnt);
            folder.id = ids[j];
            folder.is_id_valid = true;
            let ghost k0 = k as int;
            let mut l: usize = 0;
            while l < cnt as usize
                invariant
                    n == data.len() <= 0xFFFFFFFF,
                    fc_us == pm_fc(data@),
                    4 + fc_us <= n,
                    base == pm_base(data@),
                    base <= n as u64,
                    total == pm_total(data@),
                    total <= 0xFF * (fc_us as u64),
                    j < fc_us,
                    folders@.len() == j,
                    cnt == pm_count(data@, j as int),
                    l <= cnt as usize,
                    0 <= k0,
                    k0 == pm_count_prefix(data@, j as nat),
                    k == k0 + l,
                    k <= total,
                    read_slots_to(data@, base as int, total as int, k as nat) == Ok::<
                        Seq<Seq<u8>>,
                        FormatError,
                    >(done),
                    done.len() == k,
                    folder.id == pm_id(data@, j as int),
                    folder.is_id_valid == true,
                    folder.file_count == pm_count(data@, j as int),
                    folder.files@.len() == l,
                    forall|ll: int|
                        0 <= ll < l ==> (#[trigger] folder.files@[ll]).data@ == done[k0 + ll]
                            && folder.files@[ll].exported_offset == 0,
                    forall|jj: int|
                        0 <= jj < j ==> folder_ok(#[trigger] folders@[jj], data@, done, jj),
                decreases cnt as usize - l,
            {
                proof {
                    lemma_prefix_monotone(data@, (j + 1) as nat, fc_us as nat);
                    assert(pm_count_prefix(data@, (j + 1) as nat) == k0 + cnt);
                    assert(k < total);
                }
                if base + 4 * k + 4 > n as u64 {
                    proof {
                        assert(slot_result(data@, base as int, total as int, k as int)
                            == Err::<Seq<u8>, FormatError>(FormatError::UnexpectedEof));
                        assert(read_slots_to(data@, base as int, total as int, (k + 1) as nat)
                            is Err);
                        lemma_slots_err_persists(
                            data@,
                            base as int,
                            total as int,
                            (k + 1) as nat,
                            total as nat,
                        );
                    }
                    return Err(FormatError::UnexpectedEof);
                }
                proof {
                    assert(((base + 4 * k) as usize) as int == base + 4 * k);
                }
                let off = read_u32_be(data, (base + 4 * k) as usize);
                if off == 0 {
                    folder.files.push(PackManFile::new(Vec::new()));
                    proof {
                        assert(slot_result(data@, base as int, total as int, k as int) == Ok::<
                            Seq<u8>,
                            FormatError,
                        >(Seq::empty()));
                        let done0 = done;
                        done = done.push(Seq::empty());
                        assert forall|jj: int| 0 <= jj < j implies folder_ok(
                            #[trigger] folders@[jj],
                            data@,
                            done,
                            jj,
                        ) by {
                            lemma_prefix_monotone(data@, (jj + 1) as nat, j as nat);
                            lemma_prefix_monotone(data@, 0, jj as nat);
                        }
                        assert forall|ll: int| 0 <= ll < l + 1 implies (#[trigger] folder.files@[ll]).data@
                            == done[k0 + ll] && folder.files@[ll].exported_offset == 0 by {}
                    }
                } else {
                    let jn = match scan_next_entry(data, base, total, k + 1) {
                        Err(e) => {
                            proof {
                                assert(slot_result(data@, base as int, total as int, k as int)
                                    == Err::<Seq<u8>, FormatError>(e));
                                lemma_slots_err_persists(
                                    data@,
                                    base as int,
                                    total as int,
                                    (k + 1) as nat,
                                    total as nat,
                                );
                            }
                            return Err(e);
                        },
                        Ok(v) => v,
                    };
                    proof {
                        lemma_scan_next_props(data@, base as int, total as int, k as int + 1);
                    }
                    let boundary: u64 = if jn < total {
                        proof {
                            assert(((base + 4 * jn) as usize) as int == base + 4 * jn);
                        }
                        read_u32_be(data, (base + 4 * jn) as usize) as u64
                    } else {
                        n as u64
                    };
                    if boundary < off as u64 {
                        proof {
                            assert(slot_result(data@, base as int, total as int, k as int)
                                == Err::<Seq<u8>, FormatError>(FormatError::InvalidArchive));
                            lemma_slots_err_persists(
                                data@,
                                base as int,
                                total as int,
                                (k + 1) as nat,
                                total as nat,
                            );
                        }
                        return Err(FormatError::InvalidArchive);
                    }
                    if boundary > n as u64 {
                        proof {
                            assert(slot_result(data@, base as int, total as int, k as int)
                                == Err::<Seq<u8>, FormatError>(FormatError::UnexpectedEof));
                            lemma_slots_err_persists(
                                data@,
                                base as int,
                                total as int,
                                (k + 1) as nat,
                                total as nat,
                            );
                        }
                        return Err(FormatError::UnexpectedEof);
                    }
                    proof {
                        assert((boundary as usize) as int == boundary as int);
                    }
                    let fdata = copy_range(data, off as usize, boundary as usize);
                    folder.files.push(PackManFile::new(fdata));
                    proof {
                        assert(slot_result(data@, base as int, total as int, k as int) == Ok::<
                            Seq<u8>,
                            FormatError,
                        >(data@.subrange(off as int, boundary as int)));
                        done = done.push(data@.subrange(off as int, boundary as int));
                        assert forall|jj: int| 0 <= jj < j implies folder_ok(
                            #[trigger] folders@[jj],
                            data@,
                            done,
                            jj,
                        ) by {
                            lemma_prefix_monotone(data@, (jj + 1) as nat, j as nat);
                            lemma_prefix_monotone(data@, 0, jj as nat);
                        }
                        assert forall|ll: int| 0 <= ll < l + 1 implies (#[trigger] folder.files@[ll]).data@
                            == done[k0 + ll] && folder.files@[ll].exported_offset == 0 by {}
                    }
                }
                k = k + 1;
                l = l + 1;
            }
            folders.push(folder);
            proof {
                assert(folder_ok(folder, data@, done, j as int));
            }
            j = j + 1;
        }

        proof {
            assert(k == total);
            let m = pm_folders_model(data@, done);
            assert forall|jj: int| 0 <= jj < fc_us implies {
                &&& (#[trigger] folders@[jj]).id == m[jj].id
                &&& folders@[jj].is_id_valid == true
                &&& folders@[jj].file_count == m[jj].file_count
                &&& files_match(folders@[jj].files@, m[jj].files)
            } by {
                lemma_prefix_monotone(data@, 0, jj as nat);
                lemma_prefix_monotone(data@, (jj + 1) as nat, fc_us as nat);
                assert(pm_count_prefix(data@, (jj + 1) as nat) == pm_count_prefix(
                    data@,
                    jj as nat,
                ) + pm_count(data@, jj));
            }
            assert(folders_match(folders@, m));
        }
        Ok(PackManArchive { folders })
    }

    /// Checks what the exporter needs of the folders: every folder has
    /// a valid ID and a non-empty file, no folder holds more than 255
    /// files, and the archive holds at most 65535 folders and file
    /// slots. Returns the total file slot count.
    fn check_folders(&self) -> (r: Result<u64, FormatError>)
        ensures
            match r {
                Ok(total) => {
                    &&& self.folders@.len() <= 0xFFFF
                    &&& total == pm_flat(*self).len()
                    &&& total <= 0xFFFF
                    &&& forall|jj: int|
                        0 <= jj < self.folders@.len() ==> {
                            &&& (#[trigger] self.folders@[jj]).is_id_valid == true
                            &&& self.folders@[jj].files@.len() <= 0xFF
                            &&& exists|l: int|
                                0 <= l < self.folders@[jj].files@.len()
                                    && (#[trigger] self.folders@[jj].files@[l]).data@.len() > 0
                        }
                },
                Err(e) => !pm_exportable(*self) && e == FormatError::InvalidArchive,
            },
    {
        let n = self.folders.len();
        if n > 0xFFFF {
            return Err(FormatError::InvalidArchive);
        }
        let mut total: u64 = 0;
        let mut j: usize = 0;
        while j < n
            invariant
                n == self.folders@.len() <= 0xFFFF,
                j <= n,
                total == pm_flat_to(self.folders@, j as nat).len(),
                total <= 0xFFFF,
                forall|jj: int|
                    0 <= jj < j ==> {
                        &&& (#[trigger] self.folders@[jj]).is_id_valid == true
                        &&& self.folders@[jj].files@.len() <= 0xFF
                        &&& exists|l: int|
                            0 <= l < self.folders@[jj].files@.len() && (#[trigger] self.folders@[jj].files@[l]).data@.len()
                                > 0
                    },
            decreases n - j,
        {
            if !self.folders[j].is_id_valid {
                return Err(FormatError::InvalidArchive);
            }
            let fl = self.folders[j].files.len();
            if fl > 0xFF {
                return Err(FormatError::InvalidArchive);
            }
            let mut nonempty_found = false;
            let mut l: usize = 0;
            while l < fl
                invariant
                    n == self.folders@.len(),
                    j < n,
                    fl == self.folders@[j as int].files@.len(),
                    l <= fl,
                    nonempty_found ==> exists|ll: int|
                        0 <= ll < fl && (#[trigger] self.folders@[j as int].files@[ll]).data@.len()
                            > 0,
                    !nonempty_found ==> forall|ll: int|
                        0 <= ll < l ==> (#[trigger] self.folders@[j as int].files@[ll]).data@.len()
                            == 0,
                decreases fl - l,
            {
                if self.folders[j].files[l].data.len() > 0 {
                    nonempty_found = true;
                }
                l = l + 1;
            }
            if !nonempty_found {
                proof {
                    if pm_exportable(*self) {
                        let lw = choose|l: int|
                            0 <= l < self.folders@[j as int].files@.len() && self.folders@[j as int].files@[l].data@.len()
                                > 0;
                        assert(self.folders@[j as int].files@[lw].data@.len() == 0);
                    }
                }
                return Err(FormatError::InvalidArchive);
            }
            if fl as u64 > 0xFFFF - total {
                proof {
                    lemma_flat_prefix(self.folders@, (j + 1) as nat, n as nat);
                }
                return Err(FormatError::InvalidArchive);
            }
            total = total + fl as u64;
            j = j + 1;
        }
        Ok(total)
    }

    /// Writes everything before the offset table: the folder count, the
    /// file counts, padding to a 4-byte boundary, the first-file
    /// indices, and the folder IDs.
    fn write_header(&self, total: u64) -> (out: Vec<u8>)
        requires
            self.folders@.len() <= 0xFFFF,
            total == pm_flat(*self).len(),
            total <= 0xFFFF,
            forall|jj: int|
                0 <= jj < self.folders@.len() ==> (#[trigger] self.folders@[jj]).files@.len()
                    <= 0xFF,
        ensures
            ({
                let folders = self.folders@;
                let n = folders.len() as int;
                let nn = folders.len() as nat;
                out@ == u32_be_bytes(n) + pm_counts_bytes(folders, nn) + crate::util::zeros(
                    (spec_align(4 + n, 4) - (4 + n)) as nat,
                ) + pm_indices_bytes(folders, nn) + pm_ids_bytes(folders, nn) && out@.len()
                    == spec_align(4 + n, 4) + 4 * n
            }),
    {
        let n = self.folders.len();
        let a4: u64 = (4 + n as u64 + 3) / 4 * 4;
        proof {
            assert(a4 == spec_align(4 + n as int, 4));
            crate::util::lemma_align_props(4 + n as int, 4);
        }
        let mut out: Vec<u8> = Vec::new();
        push_u32_be(&mut out, n as u32);
        let ghost h1 = u32_be_bytes(n as int);
        proof {
            assert(out@ =~= h1);
        }

        let mut j: usize = 0;
        while j < n
            invariant
                n == self.folders@.len() <= 0xFFFF,
                j <= n,
                forall|jj: int|
                    0 <= jj < n ==> (#[trigger] self.folders@[jj]).files@.len() <= 0xFF,
                out@ == h1 + pm_counts_bytes(self.folders@, j as nat),
            decreases n - j,
        {
            out.push(self.folders[j].files.len() as u8);
            proof {
                assert(out@ =~= h1 + pm_counts_bytes(self.folders@, (j + 1) as nat));
            }
            j = j + 1;
        }
        let ghost h2 = h1 + pm_counts_bytes(self.folders@, n as nat);
        proof {
            lemma_pm_region_lens(self.folders@, pm_flat(*self), 0, n as nat);
            assert(out@.len() == 4 + n);
        }

        let a4us = a4 as usize;
        while out.len() < a4us
            invariant
                n == self.folders@.len() <= 0xFFFF,
                a4us == spec_align(4 + n as int, 4),
                a4us < 0x20000,
                h2.len() == 4 + n,
                4 + n <= out@.len() <= a4us,
                out@ == h2 + crate::util::zeros((out@.len() - (4 + n)) as nat),
            decreases a4us - out@.len(),
        {
            out.push(0);
            proof {
                assert(out@ =~= h2 + crate::util::zeros((out@.len() - (4 + n)) as nat));
            }
        }
        let ghost h3 = h2 + crate::util::zeros((spec_align(4 + n as int, 4) - (4 + n)) as nat);
        proof {
            assert(out@ =~= h3);
        }

        let mut idx: u16 = 0;
        let mut j: usize = 0;
        while j < n
            invariant
                n == self.folders@.len() <= 0xFFFF,
                j <= n,
                total == pm_flat(*self).len(),
                total <= 0xFFFF,
                forall|jj: int|
                    0 <= jj < n ==> (#[trigger] self.folders@[jj]).files@.len() <= 0xFF,
                idx == pm_flat_to(self.folders@, j as nat).len(),
                out@ == h3 + pm_indices_bytes(self.folders@, j as nat),
            decreases n - j,
        {
            proof {
                lemma_flat_prefix(self.folders@, (j + 1) as nat, n as nat);
            }
            push_u16_be(&mut out, idx);
            proof {
                assert(out@ =~= h3 + pm_indices_bytes(self.folders@, (j + 1) as nat));
            }
            idx = idx + self.folders[j].files.len() as u16;
            j = j + 1;
        }
        let ghost h4 = h3 + pm_indices_bytes(self.folders@, n as nat);

        let mut j: usize = 0;
        while j < n
            invariant
                n == self.folders@.len() <= 0xFFFF,
                j <= n,
                out@ == h4 + pm_ids_bytes(self.folders@, j as nat),
            decreases n - j,
        {
            push_u16_be(&mut out, self.folders[j].id);
            proof {
                assert(out@ =~= h4 + pm_ids_bytes(self.folders@, (j + 1) as nat));
            }
            j = j + 1;
        }
        proof {
            lemma_pm_region_lens(self.folders@, pm_flat(*self), 0, n as nat);
            assert(out@ =~= u32_be_bytes(n as int) + pm_counts_bytes(self.folders@, n as nat)
                + crate::util::zeros((spec_align(4 + n as int, 4) - (4 + n)) as nat)
                + pm_indices_bytes(self.folders@, n as nat) + pm_ids_bytes(
                self.folders@,
                n as nat,
            ));
        }
        out
    }

    /// Appends the offset table: zero for each empty slot, the assigned
    /// write position for each non-empty one. Refuses the archive when
    /// an assigned offset would not fit in 32 bits.
    fn write_table(&self, out: &mut Vec<u8>, first: u64, total: u64) -> (r: Result<
        (),
        FormatError,
    >)
        requires
            self.folders@.len() <= 0xFFFF,
            total == pm_flat(*self).len(),
            total <= 0xFFFF,
            first == pm_first_offset(*self),
            first <= 0x200000,
        ensures
            match r {
                Ok(_) => final(out)@ == old(out)@ + pm_table_bytes(
                    pm_flat(*self),
                    first as int,
                    total as nat,
                ) && pm_cur(pm_flat(*self), first as int, total as nat) <= u32::MAX,
                Err(e) => !pm_exportable(*self) && e == FormatError::InvalidArchive,
            },
    {
        let n = self.folders.len();
        let ghost flat = pm_flat(*self);
        let ghost h0 = out@;
        let mut cur: u64 = first;
        let mut k: u64 = 0;
        let mut j: usize = 0;
        while j < n
            invariant
                n == self.folders@.len() <= 0xFFFF,
                j <= n,
                flat == pm_flat(*self),
                total == flat.len() <= 0xFFFF,
                first == pm_first_offset(*self),
                first <= 0x200000,
                k == pm_flat_to(self.folders@, j as nat).len(),
                k <= total,
                cur == pm_cur(flat, first as int, k as nat),
                cur <= 0xFFFFFFFF,
                out@ == h0 + pm_table_bytes(flat, first as int, k as nat),
            decreases n - j,
        {
            let fl = self.folders[j].files.len();
            proof {
                lemma_flat_prefix(self.folders@, (j + 1) as nat, n as nat);
            }
            let mut l: usize = 0;
            while l < fl
                invariant
                    n == self.folders@.len() <= 0xFFFF,
                    j < n,
                    fl == self.folders@[j as int].files@.len(),
                    l <= fl,
                    flat == pm_flat(*self),
                    total == flat.len() <= 0xFFFF,
                    first == pm_first_offset(*self),
                    first <= 0x200000,
                    k == pm_flat_to(self.folders@, j as nat).len() + l,
                    k <= total,
                    cur == pm_cur(flat, first as int, k as nat),
                    cur <= 0xFFFFFFFF,
                    out@ == h0 + pm_table_bytes(flat, first as int, k as nat),
                decreases fl - l,
            {
                proof {
                    lemma_flat_prefix(self.folders@, (j + 1) as nat, n as nat);
                    assert(pm_flat_to(self.folders@, (j + 1) as nat) == pm_flat_to(
                        self.folders@,
                        j as nat,
                    ) + folder_files_views(self.folders@[j as int]));
                    assert(flat[k as int] == self.folders@[j as int].files@[l as int].data@);
                }
                let len = self.folders[j].files[l].data.len();
                if len == 0 {
                    push_u32_be(&mut *out, 0);
                } else {
                    if len as u64 > 0xFFFFFFFF {
                        proof {
                            crate::util::lemma_align_props(cur as int + len as int, 32);
                            lemma_pm_cur_bounds(flat, first as int, (k + 1) as nat, total as nat);
                        }
                        return Err(FormatError::InvalidArchive);
                    }
                    proof {
                        crate::util::lemma_align_props(cur as int + len as int, 32);
                    }
                    let next: u64 = (cur + len as u64 + 31) / 32 * 32;
                    proof {
                        assert(next == spec_align(cur as int + len as int, 32));
                        assert(next == pm_cur(flat, first as int, (k + 1) as nat));
                    }
                    if next > 0xFFFFFFFF {
                        proof {
                            lemma_pm_cur_bounds(flat, first as int, (k + 1) as nat, total as nat);
                        }
                        return Err(FormatError::InvalidArchive);
                    }
                    push_u32_be(&mut *out, cur as u32);
                    cur = next;
                }
                proof {
                    assert(out@ =~= h0 + pm_table_bytes(flat, first as int, (k + 1) as nat));
                }
                k = k + 1;
                l = l + 1;
            }
            j = j + 1;
        }
        Ok(())
    }

    /// Appends the data region: each non-empty file's bytes at its
    /// assigned position, padded with zeros to a 32-byte boundary.
    fn write_data_region(&self, out: &mut Vec<u8>, first: u64, total: u64)
        requires
            self.folders@.len() <= 0xFFFF,
            total == pm_flat(*self).len(),
            total <= 0xFFFF,
            first == pm_first_offset(*self),
            pm_cur(pm_flat(*self), first as int, total as nat) <= u32::MAX,
            old(out)@.len() == first,
        ensures
            final(out)@ == old(out)@ + pm_data_bytes(pm_flat(*self), first as int, total as nat),
    {
        let n = self.folders.len();
        let ghost flat = pm_flat(*self);
        let ghost h0 = out@;
        let mut cur: u64 = first;
        let mut k: u64 = 0;
        let mut j: usize = 0;
        while j < n
            invariant
                n == self.folders@.len() <= 0xFFFF,
                j <= n,
                flat == pm_flat(*self),
                total == flat.len() <= 0xFFFF,
                first == pm_first_offset(*self),
                pm_cur(flat, first as int, total as nat) <= 0xFFFFFFFF,
                k == pm_flat_to(self.folders@, j as nat).len(),
                k <= total,
                cur == pm_cur(flat, first as int, k as nat),
                cur <= 0xFFFFFFFF,
                h0.len() == first,
                out@ == h0 + pm_data_bytes(flat, first as int, k as nat),
                out@.len() == cur,
            decreases n - j,
        {
            let fl = self.folders[j].files.len();
            proof {
                lemma_flat_prefix(self.folders@, (j + 1) as nat, n as nat);
            }
            let mut l: usize = 0;
            while l < fl
                invariant
                    n == self.folders@.len() <= 0xFFFF,
                    j < n,
                    fl == self.folders@[j as int].files@.len(),
                    l <= fl,
                    flat == pm_flat(*self),
                    total == flat.len() <= 0xFFFF,
                    first == pm_first_offset(*self),
                    pm_cur(flat, first as int, total as nat) <= 0xFFFFFFFF,
                    k == pm_flat_to(self.folders@, j as nat).len() + l,
                    k <= total,
                    cur == pm_cur(flat, first as int, k as nat),
                    cur <= 0xFFFFFFFF,
                    h0.len() == first,
                    out@ == h0 + pm_data_bytes(flat, first as int, k as nat),
                    out@.len() == cur,
                decreases fl - l,
            {
                proof {
                    lemma_flat_prefix(self.folders@, (j + 1) as nat, n as nat);
                    assert(pm_flat_to(self.folders@, (j + 1) as nat) == pm_flat_to(
                        self.folders@,
                        j as nat,
                    ) + folder_files_views(self.folders@[j as int]));
                    assert(flat[k as int] == self.folders@[j as int].files@[l as int].data@);
                    lemma_pm_cur_bounds(flat, first as int, (k + 1) as nat, total as nat);
                }
                let len = self.folders[j].files[l].data.len();
                if len > 0 {
                    proof {
                        crate::util::lemma_align_props(cur as int + len as int, 32);
                        assert(pm_cur(flat, first as int, (k + 1) as nat) == spec_align(
                            cur as int + len as int,
                            32,
                        ));
                    }
                    let ghost h_here = out@;
                    let mut b: usize = 0;
                    while b < len
                        invariant
                            n == self.folders@.len(),
                            j < n,
                            l < fl == self.folders@[j as int].files@.len(),
                            len == self.folders@[j as int].files@[l as int].data@.len(),
                            b <= len,
                            out@ == h_here + self.folders@[j as int].files@[l as int].data@.subrange(
                                0,
                                b as int,
                            ),
                        decreases len - b,
                    {
                        let byte = self.folders[j].files[l].data[b];
                        out.push(byte);
                        proof {
                            assert(out@ =~= h_here
                                + self.folders@[j as int].files@[l as int].data@.subrange(
                                0,
                                b + 1,
                            ));
                        }
                        b = b + 1;
                    }
                    proof {
                        assert(self.folders@[j as int].files@[l as int].data@.subrange(
                            0,
                            len as int,
                        ) =~= self.folders@[j as int].files@[l as int].data@);
                        assert(out@.len() == cur + len);
                    }
                    let next: u64 = (cur + len as u64 + 31) / 32 * 32;
                    proof {
                        assert(next == pm_cur(flat, first as int, (k + 1) as nat));
                    }
                    let ghost h_data = out@;
                    let next_us = next as usize;
                    while out.len() < next_us
                        invariant
                            next_us == next,
                            next <= 0xFFFFFFFF,
                            h_data.len() == cur + len,
                            cur + len <= out@.len() <= next,
                            out@ == h_data + crate::util::zeros(
                                (out@.len() - (cur + len)) as nat,
                            ),
                        decreases next_us - out@.len(),
                    {
                        out.push(0);
                        proof {
                            assert(out@ =~= h_data + crate::util::zeros(
                                (out@.len() - (cur + len)) as nat,
                            ));
                        }
                    }
                    cur = next;
                    proof {
                        assert(out@ =~= h0 + pm_data_bytes(flat, first as int, (k + 1) as nat));
                    }
                } else {
                    proof {
                        assert(pm_data_bytes(flat, first as int, (k + 1) as nat) == pm_data_bytes(
                            flat,
                            first as int,
                            k as nat,
                        ));
                    }
                }
                k = k + 1;
                l = l + 1;
            }
            j = j + 1;
        }
    }

    /// Exports the archive to its binary file image, or refuses it with
    /// `InvalidArchive` exactly when it cannot be represented: a folder
    /// without a valid ID or without a non-empty file, more than 65535
    /// folders or file slots, a folder with more than 255 files, or
    /// file data so large an assigned offset would not fit the 32-bit
    /// offset table.
    pub fn export(&self) -> (r: Result<Vec<u8>, FormatError>)
        ensures
            match r {
                Ok(out) => pm_exportable(*self) && out@ == pm_spec_export(*self),
                Err(e) => !pm_exportable(*self) && e == FormatError::InvalidArchive,
            },
    {
        let total = match self.check_folders() {
            Err(e) => {
                return Err(e);
            },
            Ok(t) => t,
        };
        let n = self.folders.len();
        let a4: u64 = (4 + n as u64 + 3) / 4 * 4;
        let raw2: u64 = a4 + 4 * (n as u64) + 4 * total;
        let first: u64 = (raw2 + 31) / 32 * 32;
        proof {
            assert(a4 == spec_align(4 + n as int, 4));
            assert(first == pm_first_offset(*self));
            crate::util::lemma_align_props(4 + n as int, 4);
            crate::util::lemma_align_props(raw2 as int, 32);
        }

        let mut out = self.write_header(total);
        let ghost h5 = out@;
        match self.write_table(&mut out, first, total) {
            Err(e) => {
                return Err(e);
            },
            Ok(_) => {},
        }
        proof {
            lemma_pm_region_lens(self.folders@, pm_flat(*self), first as int, total as nat);
            assert(out@.len() == raw2);
            assert(pm_exportable(*self));
        }
        let ghost h6 = out@;

        let first_us = first as usize;
        while out.len() < first_us
            invariant
                first_us == first,
                first <= raw2 + 31,
                raw2 < 0x200000,
                h6.len() == raw2,
                raw2 <= out@.len() <= first,
                out@ == h6 + crate::util::zeros((out@.len() - raw2) as nat),
            decreases first_us - out@.len(),
        {
            out.push(0);
            proof {
                assert(out@ =~= h6 + crate::util::zeros((out@.len() - raw2) as nat));
            }
        }
        proof {
            assert(out@ =~= h6 + crate::util::zeros((first - raw2) as nat));
            assert(out@.len() == first);
        }

        self.write_data_region(&mut out, first, total);
        proof {
            assert(out@ =~= pm_spec_export(*self));
        }
        Ok(out)
    }
}

/// The data views of a folder's files, in order.
pub open spec fn folder_files_views(f: PackManFolder) -> Seq<Seq<u8>> {
    Seq::new(f.files@.len(), |l: int| f.files@[l].data@)
}

/// The file data of the first `i` folders, flattened into slot order.
pub open spec fn pm_flat_to(folders: Seq<PackManFolder>, i: nat) -> Seq<Seq<u8>>
    decreases i,
{
    if i == 0 {
        Seq::empty()
    } else {
        pm_flat_to(folders, (i - 1) as nat) + folder_files_views(folders[i - 1])
    }
}

/// All file data of the archive, flattened into slot order.
pub open spec fn pm_flat(a: PackManArchive) -> Seq<Seq<u8>> {
    pm_flat_to(a.folders@, a.folders@.len() as nat)
}

/// A shorter flattening is a prefix of a longer one.
pub proof fn lemma_flat_prefix(folders: Seq<PackManFolder>, i: nat, j: nat)
    requires
        i <= j,
    ensures
        pm_flat_to(folders, i).len() <= pm_flat_to(folders, j).len(),
        forall|idx: int|
            0 <= idx < pm_flat_to(folders, i).len() ==> #[trigger] pm_flat_to(folders, j)[idx]
                == pm_flat_to(folders, i)[idx],
    decreases j,
{
    if i < j {
        lemma_flat_prefix(folders, i, (j - 1) as nat);
    }
}

/// The write position before file slot `k` of an export that starts its
/// data region at `first`: each non-empty slot advances the position by
/// its length rounded up to a 32-byte boundary, and an empty slot does
/// not move it.
pub open spec fn pm_cur(flat: Seq<Seq<u8>>, first: int, k: nat) -> int
    decreases k,
{
    if k == 0 {
        first
    } else if flat[k - 1].len() == 0 {
        pm_cur(flat, first, (k - 1) as nat)
    } else {
        spec_align(pm_cur(flat, first, (k - 1) as nat) + flat[k - 1].len(), 32)
    }
}

/// Write positions start at `first` and never decrease along the slots.
pub proof fn lemma_pm_cur_bounds(flat: Seq<Seq<u8>>, first: int, i: nat, j: nat)
    requires
        0 <= first,
        i <= j,
    ensures
        first <= pm_cur(flat, first, i) <= pm_cur(flat, first, j),
    decreases j,
{
    if j > 0 {
        if i == j {
            lemma_pm_cur_bounds(flat, first, (j - 1) as nat, (j - 1) as nat);
        } else {
            lemma_pm_cur_bounds(flat, first, i, (j - 1) as nat);
        }
        if flat[j - 1].len() != 0 {
            crate::util::lemma_align_props(pm_cur(flat, first, (j - 1) as nat) + flat[j
                - 1].len(), 32);
        }
    }
}

/// Write positions are always multiples of 32: the first is aligned,
/// and every step aligns again.
proof fn lemma_pm_cur_mod(flat: Seq<Seq<u8>>, first: int, k: nat)
    requires
        0 <= first,
        first % 32 == 0,
    ensures
        pm_cur(flat, first, k) % 32 == 0,
    decreases k,
{
    if k > 0 {
        lemma_pm_cur_mod(flat, first, (k - 1) as nat);
        lemma_pm_cur_bounds(flat, first, 0, (k - 1) as nat);
        if flat[k - 1].len() != 0 {
            crate::util::lemma_align_props(pm_cur(flat, first, (k - 1) as nat) + flat[k
                - 1].len(), 32);
        }
    }
}

/// The file-count region: one byte per folder.
pub open spec fn pm_counts_bytes(folders: Seq<PackManFolder>, i: nat) -> Seq<u8>
    decreases i,
{
    if i == 0 {
        Seq::empty()
    } else {
        pm_counts_bytes(folders, (i - 1) as nat) + seq![folders[i - 1].files@.len() as u8]
    }
}

/// The first-file-index region: for each folder, how many file slots
/// precede it, as a big-endian word.
pub open spec fn pm_indices_bytes(folders: Seq<PackManFolder>, i: nat) -> Seq<u8>
    decreases i,
{
    if i == 0 {
        Seq::empty()
    } else {
        pm_indices_bytes(folders, (i - 1) as nat) + u16_be_bytes(
            pm_flat_to(folders, (i - 1) as nat).len() as int,
        )
    }
}

/// The folder-ID region: one big-endian word per folder.
pub open spec fn pm_ids_bytes(folders: Seq<PackManFolder>, i: nat) -> Seq<u8>
    decreases i,
{
    if i == 0 {
        Seq::empty()
    } else {
        pm_ids_bytes(folders, (i - 1) as nat) + u16_be_bytes(folders[i - 1].id as int)
    }
}

/// The offset-table region: per slot, zero for an empty file, else the
/// slot's assigned write position.
pub open spec fn pm_table_bytes(flat: Seq<Seq<u8>>, first: int, i: nat) -> Seq<u8>
    decreases i,
{
    if i == 0 {
        Seq::empty()
    } else {
        pm_table_bytes(flat, first, (i - 1) as nat) + u32_be_bytes(
            if flat[i - 1].len() == 0 {
                0
            } else {
                pm_cur(flat, first, (i - 1) as nat)
            },
        )
    }
}

/// The data region: each non-empty file's bytes at its assigned
/// position, padded with zeros to a 32-byte boundary.
pub open spec fn pm_data_bytes(flat: Seq<Seq<u8>>, first: int, i: nat) -> Seq<u8>
    decreases i,
{
    if i == 0 {
        Seq::empty()
    } else {
        let prev = pm_data_bytes(flat, first, (i - 1) as nat);
        if flat[i - 1].len() == 0 {
            prev
        } else {
            prev + flat[i - 1] + crate::util::zeros(
                (pm_cur(flat, first, i) - (pm_cur(flat, first, (i - 1) as nat) + flat[i
                    - 1].len())) as nat,
            )
        }
    }
}

/// The data region fills the span between `first` and the position
/// after the last slot: every file lands exactly at the position the
/// offset table assigned it.
pub proof fn lemma_pm_data_len(flat: Seq<Seq<u8>>, first: int, i: nat)
    requires
        0 <= first,
    ensures
        pm_data_bytes(flat, first, i).len() == pm_cur(flat, first, i) - first,
    decreases i,
{
    if i > 0 {
        lemma_pm_data_len(flat, first, (i - 1) as nat);
        lemma_pm_cur_bounds(flat, first, (i - 1) as nat, (i - 1) as nat);
        if flat[i - 1].len() != 0 {
            crate::util::lemma_align_props(pm_cur(flat, first, (i - 1) as nat) + flat[i
                - 1].len(), 32);
        }
    }
}

/// The byte lengths of the fixed-width export regions.
pub proof fn lemma_pm_region_lens(folders: Seq<PackManFolder>, flat: Seq<Seq<u8>>, first: int, i: nat)
    ensures
        pm_counts_bytes(folders, i).len() == i,
        pm_indices_bytes(folders, i).len() == 2 * i,
        pm_ids_bytes(folders, i).len() == 2 * i,
        pm_table_bytes(flat, first, i).len() == 4 * i,
    decreases i,
{
    if i > 0 {
        lemma_pm_region_lens(folders, flat, first, (i - 1) as nat);
    }
}

/// Where the data region of an exported archive starts: past the
/// header, the aligned count table, the index and ID tables, and the
/// offset table, rounded up to a 32-byte boundary.
pub open spec fn pm_first_offset(a: PackManArchive) -> int {
    let n = a.folders@.len() as int;
    spec_align(spec_align(4 + n, 4) + 4 * n + 4 * pm_flat(a).len(), 32)
}

/// What the archive's exporter can represent: every folder carries a
/// valid ID and at least one non-empty file, folder and file counts fit
/// their count fields, and the assigned offsets fit the 32-bit offset
/// table.
pub open spec fn pm_exportable(a: PackManArchive) -> bool {
    let folders = a.folders@;
    let flat = pm_flat(a);
    &&& folders.len() <= 0xFFFF
    &&& forall|j: int|
        0 <= j < folders.len() ==> {
            &&& (#[trigger] folders[j]).is_id_valid == true
            &&& folders[j].files@.len() <= 0xFF
            &&& exists|l: int|
                0 <= l < folders[j].files@.len() && (#[trigger] folders[j].files@[l]).data@.len()
                    > 0
        }
    &&& flat.len() <= 0xFFFF
    &&& pm_cur(flat, pm_first_offset(a), flat.len()) <= u32::MAX
}

/// The exported bytes of a PackMan archive: the folder count, the file
/// counts, padding to a 4-byte boundary, the first-file indices, the
/// folder IDs, the offset table, padding to the 32-byte-aligned first
/// file offset, and the file data, each file padded to a 32-byte
/// boundary.
pub open spec fn pm_spec_export(a: PackManArchive) -> Seq<u8> {
    let folders = a.folders@;
    let n = folders.len() as int;
    let flat = pm_flat(a);
    let a4 = spec_align(4 + n, 4);
    let raw2 = a4 + 4 * n + 4 * flat.len();
    let first = pm_first_offset(a);
    crate::endian::u32_be_bytes(n) + pm_counts_bytes(folders, n as nat) + crate::util::zeros(
        (a4 - (4 + n)) as nat,
    ) + pm_indices_bytes(folders, n as nat) + pm_ids_bytes(folders, n as nat) + pm_table_bytes(
        flat,
        first,
        flat.len(),
    ) + crate::util::zeros((first - raw2) as nat) + pm_data_bytes(flat, first, flat.len())
}

/// The total file slot count of the first `j` folders, by their
/// `file_count` fields.
pub open spec fn spec_all_file_count(folders: Seq<PackManFolder>, j: nat) -> int
    decreases j,
{
    if j == 0 {
        0
    } else {
        spec_all_file_count(folders, (j - 1) as nat) + folders[j - 1].file_count
    }
}

/// The recorded slot count only grows as more folders are counted.
pub proof fn lemma_all_file_count_monotone(folders: Seq<PackManFolder>, i: nat, j: nat)
    requires
        i <= j,
    ensures
        spec_all_file_count(folders, i) <= spec_all_file_count(folders, j),
    decreases j,
{
    if i < j {
        lemma_all_file_count_monotone(folders, i, (j - 1) as nat);
    }
}

/// True of an archive whose export reads back file-for-file: it is
/// exportable and every file's length is a multiple of 32, so that the
/// 32-byte padding after each file adds nothing.
pub open spec fn pm_round_trippable(a: PackManArchive) -> bool {
    &&& pm_exportable(a)
    &&& forall|k: int| 0 <= k < pm_flat(a).len() ==> #[trigger] pm_flat(a)[k].len() % 32 == 0
}

/// Each file-count byte of an export reads back.
proof fn lemma_pm_counts_index(folders: Seq<PackManFolder>, c: nat, j: int)
    requires
        0 <= j < c,
    ensures
        pm_counts_bytes(folders, c).len() == c,
        pm_counts_bytes(folders, c)[j] == folders[j].files@.len() as u8,
    decreases c,
{
    lemma_pm_region_lens(folders, Seq::empty(), 0, c);
    lemma_pm_region_lens(folders, Seq::empty(), 0, (c - 1) as nat);
    if j < c - 1 {
        lemma_pm_counts_index(folders, (c - 1) as nat, j);
    }
}

/// Each folder-ID word of an export reads back as its two bytes.
proof fn lemma_pm_ids_index(folders: Seq<PackManFolder>, c: nat, j: int)
    requires
        0 <= j < c,
    ensures
        pm_ids_bytes(folders, c).len() == 2 * c,
        pm_ids_bytes(folders, c)[2 * j] == u16_be_bytes(folders[j].id as int)[0],
        pm_ids_bytes(folders, c)[2 * j + 1] == u16_be_bytes(folders[j].id as int)[1],
    decreases c,
{
    lemma_pm_region_lens(folders, Seq::empty(), 0, c);
    lemma_pm_region_lens(folders, Seq::empty(), 0, (c - 1) as nat);
    if j < c - 1 {
        lemma_pm_ids_index(folders, (c - 1) as nat, j);
    }
}

/// Each offset-table entry of an export reads back as its four bytes.
proof fn lemma_pm_table_index(flat: Seq<Seq<u8>>, first: int, c: nat, k: int)
    requires
        0 <= k < c,
    ensures
        pm_table_bytes(flat, first, c).len() == 4 * c,
        ({
            let entry = if flat[k].len() == 0 {
                0int
            } else {
                pm_cur(flat, first, k as nat)
            };
            &&& pm_table_bytes(flat, first, c)[4 * k] == u32_be_bytes(entry)[0]
            &&& pm_table_bytes(flat, first, c)[4 * k + 1] == u32_be_bytes(entry)[1]
            &&& pm_table_bytes(flat, first, c)[4 * k + 2] == u32_be_bytes(entry)[2]
            &&& pm_table_bytes(flat, first, c)[4 * k + 3] == u32_be_bytes(entry)[3]
        }),
    decreases c,
{
    lemma_pm_region_lens(Seq::empty(), flat, first, c);
    lemma_pm_region_lens(Seq::empty(), flat, first, (c - 1) as nat);
    if k < c - 1 {
        lemma_pm_table_index(flat, first, (c - 1) as nat, k);
    }
}

/// The slot counts a reader accumulates from the written count bytes
/// match the flattened file table.
proof fn lemma_pm_prefix_match(b: Seq<u8>, folders: Seq<PackManFolder>, j: nat)
    requires
        j <= folders.len(),
        forall|jj: int|
            0 <= jj < folders.len() ==> #[trigger] pm_count(b, jj) == folders[jj].files@.len(),
    ensures
        pm_count_prefix(b, j) == pm_flat_to(folders, j).len(),
    decreases j,
{
    if j > 0 {
        lemma_pm_prefix_match(b, folders, (j - 1) as nat);
    }
}

/// The sum of two nonnegative multiples of 32 is a multiple of 32.
proof fn lemma_sum_of_multiples(x: int, y: int)
    requires
        0 <= x,
        0 <= y,
        x % 32 == 0,
        y % 32 == 0,
    ensures
        (x + y) % 32 == 0,
{
    vstd::arithmetic::div_mod::lemma_fundamental_div_mod(x, 32);
    vstd::arithmetic::div_mod::lemma_fundamental_div_mod(y, 32);
    assert(x + y == (x / 32 + y / 32) * 32) by (nonlinear_arith)
        requires
            x == 32 * (x / 32),
            y == 32 * (y / 32),
    ;
    vstd::arithmetic::div_mod::lemma_mod_multiples_basic(x / 32 + y / 32, 32);
}

/// Write positions do not move across a run of empty slots.
proof fn lemma_pm_cur_const(flat: Seq<Seq<u8>>, first: int, k1: nat, k2: nat)
    requires
        k1 <= k2,
        forall|m: int| k1 <= m < k2 ==> #[trigger] flat[m].len() == 0,
    ensures
        pm_cur(flat, first, k2) == pm_cur(flat, first, k1),
    decreases k2,
{
    if k1 < k2 {
        lemma_pm_cur_const(flat, first, k1, (k2 - 1) as nat);
    }
}

/// True when offset table entry `mm` of `b` is fully inside the buffer
/// and is zero exactly for an empty file slot.
spec fn pm_entry_matches(b: Seq<u8>, base: int, flat: Seq<Seq<u8>>, mm: int) -> bool {
    &&& base + 4 * (mm + 1) <= b.len()
    &&& (u32_be_at(b, base + 4 * mm) == 0 <==> flat[mm].len() == 0)
}

/// True when offset table entry `mm` of `b` furthermore carries the
/// write position assigned to a non-empty slot.
spec fn pm_entry_exact(b: Seq<u8>, base: int, flat: Seq<Seq<u8>>, first: int, mm: int) -> bool {
    &&& pm_entry_matches(b, base, flat, mm)
    &&& (flat[mm].len() != 0 ==> u32_be_at(b, base + 4 * mm) == pm_cur(flat, first, mm as nat))
}

/// A scan over written table entries finds exactly the next non-empty
/// slot, or the end of the table.
proof fn lemma_pm_scan(b: Seq<u8>, base: int, total: int, flat: Seq<Seq<u8>>, m: int)
    requires
        0 <= m <= total,
        total == flat.len(),
        forall|mm: int| 0 <= mm < total ==> #[trigger] pm_entry_matches(b, base, flat, mm),
    ensures
        scan_next(b, base, total, m) matches Ok(j) && m <= j <= total && (j < total ==> flat[
            j
        ].len() != 0) && (forall|mm: int| m <= mm < j ==> #[trigger] flat[mm].len() == 0),
    decreases total - m,
{
    if m < total {
        assert(pm_entry_matches(b, base, flat, m));
        if u32_be_at(b, base + 4 * m) == 0 {
            lemma_pm_scan(b, base, total, flat, m + 1);
        }
    }
}

/// The span a non-empty file occupies in the data region: its bytes,
/// then the zero padding up to the next write position.
pub open spec fn pm_slot_out(flat: Seq<Seq<u8>>, first: int, k: int) -> Seq<u8> {
    if flat[k].len() == 0 {
        flat[k]
    } else {
        flat[k] + crate::util::zeros(
            (pm_cur(flat, first, (k + 1) as nat) - (pm_cur(flat, first, k as nat) + flat[
                k
            ].len())) as nat,
        )
    }
}

/// Each non-empty file of an export's data region reads back from its
/// assigned position, zero padding included.
proof fn lemma_pm_data_index(flat: Seq<Seq<u8>>, first: int, c: nat, k: nat)
    requires
        0 <= first,
        k < c <= flat.len(),
        flat[k as int].len() != 0,
    ensures
        forall|j: int|
            0 <= j < pm_slot_out(flat, first, k as int).len() ==> #[trigger] pm_data_bytes(
                flat,
                first,
                c,
            )[(pm_cur(flat, first, k) - first) + j] == pm_slot_out(flat, first, k as int)[j],
    decreases c,
{
    lemma_pm_data_len(flat, first, (c - 1) as nat);
    lemma_pm_data_len(flat, first, c);
    lemma_pm_cur_bounds(flat, first, k, (c - 1) as nat);
    lemma_pm_cur_bounds(flat, first, 0, k);
    crate::util::lemma_align_props(pm_cur(flat, first, k) + flat[k as int].len(), 32);
    if k < c - 1 {
        lemma_pm_data_index(flat, first, (c - 1) as nat, k);
        assert forall|j: int| 0 <= j < pm_slot_out(flat, first, k as int).len()
            implies #[trigger] pm_data_bytes(flat, first, c)[(pm_cur(flat, first, k) - first) + j]
            == pm_slot_out(flat, first, k as int)[j] by {
            lemma_pm_cur_bounds(flat, first, (k + 1) as nat, (c - 1) as nat);
            assert((pm_cur(flat, first, k) - first) + j < pm_data_bytes(
                flat,
                first,
                (c - 1) as nat,
            ).len());
            assert(pm_data_bytes(flat, first, (c - 1) as nat)[(pm_cur(flat, first, k) - first)
                + j] == pm_slot_out(flat, first, k as int)[j]);
        }
    } else {
        assert forall|j: int| 0 <= j < pm_slot_out(flat, first, k as int).len()
            implies #[trigger] pm_data_bytes(flat, first, c)[(pm_cur(flat, first, k) - first) + j]
            == pm_slot_out(flat, first, k as int)[j] by {
            assert(pm_data_bytes(flat, first, c) == pm_data_bytes(flat, first, k) + flat[
                k as int
            ] + crate::util::zeros(
                (pm_cur(flat, first, (k + 1) as nat) - (pm_cur(flat, first, k) + flat[
                    k as int
                ].len())) as nat,
            ));
        }
    }
}

/// When every slot reads back its written data, the whole slot walk
/// does.
proof fn lemma_pm_slots_all(b: Seq<u8>, base: int, total: int, flat: Seq<Seq<u8>>, i: nat)
    requires
        i <= total,
        total == flat.len(),
        forall|k: int|
            0 <= k < total ==> #[trigger] slot_result(b, base, total, k) == Ok::<
                Seq<u8>,
                FormatError,
            >(flat[k]),
    ensures
        read_slots_to(b, base, total, i) matches Ok(slots) && slots =~= flat.subrange(0, i as int),
    decreases i,
{
    if i > 0 {
        lemma_pm_slots_all(b, base, total, flat, (i - 1) as nat);
        assert(read_slots_to(b, base, total, i) matches Ok(slots) && slots =~= flat.subrange(
            0,
            i as int,
        )) by {
            let prev = read_slots_to(b, base, total, (i - 1) as nat)->Ok_0;
            assert(prev.push(flat[i - 1]) =~= flat.subrange(0, i as int));
        }
    }
}


/// The header of a PackMan export reads back: the folder count, the
/// file counts, the folder IDs, and the region boundaries.
#[verifier::rlimit(100)]
proof fn lemma_pmrt_header(a: PackManArchive)
    requires
        pm_exportable(a),
    ensures
        ({
            let b = pm_spec_export(a);
            let folders = a.folders@;
            let n = folders.len() as int;
            let a4 = spec_align(4 + n, 4);
            let flat = pm_flat(a);
            let first = pm_first_offset(a);
            &&& pm_fc(b) == n
            &&& pm_a4(b) == a4
            &&& pm_base(b) == a4 + 4 * n
            &&& forall|j: int| 0 <= j < n ==> #[trigger] pm_count(b, j) == folders[j].files@.len()
            &&& forall|j: int| 0 <= j < n ==> #[trigger] pm_id(b, j) == folders[j].id
            &&& forall|j: int|
                0 <= j <= n ==> #[trigger] pm_count_prefix(b, j as nat) == pm_flat_to(
                    folders,
                    j as nat,
                ).len()
            &&& pm_total(b) == flat.len()
            &&& b.len() == pm_cur(flat, first, flat.len())
            &&& b.len() >= first >= a4 + 4 * n + 4 * flat.len() >= 4 + n
        }),
{
    let b = pm_spec_export(a);
    let folders = a.folders@;
    let n = folders.len() as int;
    let flat = pm_flat(a);
    let a4 = spec_align(4 + n, 4);
    let raw2 = a4 + 4 * n + 4 * flat.len();
    let first = pm_first_offset(a);
    let r0 = u32_be_bytes(n);
    let r1 = pm_counts_bytes(folders, n as nat);
    let r2 = crate::util::zeros((a4 - (4 + n)) as nat);
    let r3 = pm_indices_bytes(folders, n as nat);
    let r4 = pm_ids_bytes(folders, n as nat);
    let r5 = pm_table_bytes(flat, first, flat.len());
    let r6 = crate::util::zeros((first - raw2) as nat);
    let r7 = pm_data_bytes(flat, first, flat.len());
    assert(b == r0 + r1 + r2 + r3 + r4 + r5 + r6 + r7);
    lemma_pm_region_lens(folders, flat, first, n as nat);
    lemma_pm_region_lens(folders, flat, first, flat.len());
    lemma_pm_data_len(flat, first, flat.len());
    crate::util::lemma_align_props(4 + n, 4);
    crate::util::lemma_align_props(raw2, 32);
    lemma_pm_cur_bounds(flat, first, 0, flat.len());
    assert(b.len() == pm_cur(flat, first, flat.len()));

    assert(b[0] == r0[0]);
    assert(b[1] == r0[1]);
    assert(b[2] == r0[2]);
    assert(b[3] == r0[3]);
    lemma_u32_be_bytes_at(b, 0, n as u32);
    assert(pm_fc(b) == n);

    assert forall|j: int| 0 <= j < n implies #[trigger] pm_count(b, j) == folders[j].files@.len()
    by {
        lemma_pm_counts_index(folders, n as nat, j);
        assert(b[4 + j] == r1[j]);
    }

    assert forall|j: int| 0 <= j < n implies #[trigger] pm_id(b, j) == folders[j].id by {
        lemma_pm_ids_index(folders, n as nat, j);
        assert(b[a4 + 2 * n + (2 * j)] == r4[2 * j]);
        assert(b[a4 + 2 * n + (2 * j + 1)] == r4[2 * j + 1]);
        assert(b[a4 + 2 * n + 2 * j] == u16_be_bytes(folders[j].id as int)[0]);
        assert(b[a4 + 2 * n + 2 * j + 1] == u16_be_bytes(folders[j].id as int)[1]);
        lemma_u16_be_bytes_at(b, a4 + 2 * n + 2 * j, folders[j].id);
    }

    assert forall|j: int| 0 <= j <= n implies #[trigger] pm_count_prefix(b, j as nat)
        == pm_flat_to(folders, j as nat).len() by {
        lemma_pm_prefix_match(b, folders, j as nat);
    }
    assert(pm_total(b) == flat.len());
}

/// Each offset-table entry of a PackMan export reads back: zero exactly
/// for an empty slot, the assigned write position otherwise.
#[verifier::rlimit(100)]
proof fn lemma_pmrt_entries(a: PackManArchive)
    requires
        pm_exportable(a),
    ensures
        ({
            let b = pm_spec_export(a);
            let flat = pm_flat(a);
            let first = pm_first_offset(a);
            forall|k: int|
                0 <= k < flat.len() ==> #[trigger] pm_entry_exact(b, pm_base(b), flat, first, k)
        }),
{
    let b = pm_spec_export(a);
    let folders = a.folders@;
    let n = folders.len() as int;
    let flat = pm_flat(a);
    let a4 = spec_align(4 + n, 4);
    let raw2 = a4 + 4 * n + 4 * flat.len();
    let first = pm_first_offset(a);
    lemma_pmrt_header(a);
    let base = pm_base(b);
    let r0 = u32_be_bytes(n);
    let r1 = pm_counts_bytes(folders, n as nat);
    let r2 = crate::util::zeros((a4 - (4 + n)) as nat);
    let r3 = pm_indices_bytes(folders, n as nat);
    let r4 = pm_ids_bytes(folders, n as nat);
    let r5 = pm_table_bytes(flat, first, flat.len());
    let r6 = crate::util::zeros((first - raw2) as nat);
    let r7 = pm_data_bytes(flat, first, flat.len());
    assert(b == r0 + r1 + r2 + r3 + r4 + r5 + r6 + r7);
    lemma_pm_region_lens(folders, flat, first, n as nat);
    lemma_pm_region_lens(folders, flat, first, flat.len());
    crate::util::lemma_align_props(4 + n, 4);
    crate::util::lemma_align_props(raw2, 32);

    assert forall|k: int| 0 <= k < flat.len() implies #[trigger] pm_entry_exact(
        b,
        pm_base(b),
        flat,
        first,
        k,
    ) by {
        lemma_pm_table_index(flat, first, flat.len(), k);
        lemma_pm_cur_bounds(flat, first, k as nat, flat.len());
        lemma_pm_cur_bounds(flat, first, 0, k as nat);
        let entry: int = if flat[k].len() == 0 {
            0
        } else {
            pm_cur(flat, first, k as nat)
        };
        assert(b[base + (4 * k)] == r5[4 * k]);
        assert(b[base + (4 * k + 1)] == r5[4 * k + 1]);
        assert(b[base + (4 * k + 2)] == r5[4 * k + 2]);
        assert(b[base + (4 * k + 3)] == r5[4 * k + 3]);
        assert(b[base + 4 * k] == u32_be_bytes(entry)[0]);
        assert(b[base + 4 * k + 1] == u32_be_bytes(entry)[1]);
        assert(b[base + 4 * k + 2] == u32_be_bytes(entry)[2]);
        assert(b[base + 4 * k + 3] == u32_be_bytes(entry)[3]);
        lemma_u32_be_bytes_at(b, base + 4 * k, entry as u32);
        assert(u32_be_at(b, base + 4 * k) == entry);
    }
}

/// The data region of a PackMan export sits at the first file offset:
/// byte `t` of the region is byte `first + t` of the whole file.
#[verifier::rlimit(100)]
proof fn lemma_pmrt_data_region(a: PackManArchive)
    requires
        pm_exportable(a),
    ensures
        forall|t: int|
            0 <= t < pm_data_bytes(pm_flat(a), pm_first_offset(a), pm_flat(a).len()).len()
                ==> pm_spec_export(a)[pm_first_offset(a) + t] == #[trigger] pm_data_bytes(
                pm_flat(a),
                pm_first_offset(a),
                pm_flat(a).len(),
            )[t],
{
    let b = pm_spec_export(a);
    let folders = a.folders@;
    let n = folders.len() as int;
    let flat = pm_flat(a);
    let a4 = spec_align(4 + n, 4);
    let raw2 = a4 + 4 * n + 4 * flat.len();
    let first = pm_first_offset(a);
    let r0 = u32_be_bytes(n);
    let r1 = pm_counts_bytes(folders, n as nat);
    let r2 = crate::util::zeros((a4 - (4 + n)) as nat);
    let r3 = pm_indices_bytes(folders, n as nat);
    let r4 = pm_ids_bytes(folders, n as nat);
    let r5 = pm_table_bytes(flat, first, flat.len());
    let r6 = crate::util::zeros((first - raw2) as nat);
    let r7 = pm_data_bytes(flat, first, flat.len());
    assert(b == r0 + r1 + r2 + r3 + r4 + r5 + r6 + r7);
    lemma_pm_region_lens(folders, flat, first, n as nat);
    lemma_pm_region_lens(folders, flat, first, flat.len());
    crate::util::lemma_align_props(4 + n, 4);
    crate::util::lemma_align_props(raw2, 32);
    assert forall|t: int| 0 <= t < r7.len() implies b[first + t] == #[trigger] r7[t] by {}
}

/// One slot of an offset table whose entries match `flat`, over a data
/// region laid out by `pm_cur`, reads back the file data that was
/// written, zero padding to the next write position included.
#[verifier::rlimit(100)]
proof fn lemma_slot_padded(b: Seq<u8>, base: int, total: int, flat: Seq<Seq<u8>>, first: int, k: int)
    requires
        0 <= k < total,
        total == flat.len(),
        0 <= first,
        forall|mm: int| 0 <= mm < total ==> #[trigger] pm_entry_exact(b, base, flat, first, mm),
        b.len() == pm_cur(flat, first, flat.len()),
        forall|t: int|
            0 <= t < pm_data_bytes(flat, first, flat.len()).len() ==> b[first + t]
                == #[trigger] pm_data_bytes(flat, first, flat.len())[t],
    ensures
        slot_result(b, base, total, k) == Ok::<Seq<u8>, FormatError>(pm_slot_out(flat, first, k)),
{
    lemma_pm_data_len(flat, first, flat.len());
    assert(pm_entry_exact(b, base, flat, first, k));
    if flat[k].len() == 0 {
        assert(pm_slot_out(flat, first, k) =~= Seq::<u8>::empty());
    } else {
        let off = pm_cur(flat, first, k as nat);
        let len = flat[k].len() as int;
        lemma_pm_cur_bounds(flat, first, 0, k as nat);
        crate::util::lemma_align_props(off + len, 32);
        assert forall|mm: int| 0 <= mm < total implies #[trigger] pm_entry_matches(
            b,
            base,
            flat,
            mm,
        ) by {
            assert(pm_entry_exact(b, base, flat, first, mm));
        }
        lemma_pm_scan(b, base, total, flat, k + 1);
        let jn = scan_next(b, base, total, k + 1)->Ok_0;
        lemma_pm_cur_const(flat, first, (k + 1) as nat, jn as nat);
        lemma_pm_cur_bounds(flat, first, jn as nat, flat.len());
        let boundary: int = if jn < total {
            u32_be_at(b, base + 4 * jn)
        } else {
            b.len() as int
        };
        if jn < total {
            assert(pm_entry_exact(b, base, flat, first, jn));
            assert(u32_be_at(b, base + 4 * jn) == pm_cur(flat, first, jn as nat));
        } else {
            lemma_pm_cur_const(flat, first, (k + 1) as nat, flat.len());
        }
        assert(boundary == pm_cur(flat, first, (k + 1) as nat));
        assert(off + len <= boundary);
        lemma_pm_cur_bounds(flat, first, (k + 1) as nat, flat.len());
        assert(boundary <= b.len());
        lemma_pm_data_index(flat, first, flat.len(), k as nat);
        let out = pm_slot_out(flat, first, k);
        assert(out.len() == boundary - off);
        assert forall|t: int| 0 <= t < boundary - off implies b.subrange(off, boundary)[t]
            == out[t] by {
            assert(pm_data_bytes(flat, first, flat.len())[(off - first) + t] == out[t]);
            assert(b[first + ((off - first) + t)] == pm_data_bytes(flat, first, flat.len())[(off
                - first) + t]);
            assert(b[off + t] == out[t]);
        }
        assert(b.subrange(off, boundary) =~= out);
    }
}

/// Every file slot of such an export reads back its written data.
proof fn lemma_pmrt_slots(a: PackManArchive)
    requires
        pm_round_trippable(a),
    ensures
        ({
            let b = pm_spec_export(a);
            let flat = pm_flat(a);
            forall|k: int|
                0 <= k < flat.len() ==> #[trigger] slot_result(
                    b,
                    pm_base(b),
                    flat.len() as int,
                    k,
                ) == Ok::<Seq<u8>, FormatError>(flat[k])
        }),
{
    let b = pm_spec_export(a);
    let flat = pm_flat(a);
    lemma_pmrt_header(a);
    lemma_pmrt_entries(a);
    lemma_pmrt_data_region(a);
    let n = a.folders@.len() as int;
    crate::util::lemma_align_props(spec_align(4 + n, 4) + 4 * n + 4 * flat.len(), 32);
    crate::util::lemma_align_props(4 + n, 4);
    assert forall|k: int| 0 <= k < flat.len() implies #[trigger] slot_result(
        b,
        pm_base(b),
        flat.len() as int,
        k,
    ) == Ok::<Seq<u8>, FormatError>(flat[k]) by {
        let first = pm_first_offset(a);
        lemma_slot_padded(b, pm_base(b), flat.len() as int, flat, first, k);
        if flat[k].len() != 0 {
            // With the file length a multiple of 32, the aligned next
            // position adds no padding at all.
            let cur = pm_cur(flat, first, k as nat);
            let len = flat[k].len() as int;
            lemma_pm_cur_bounds(flat, first, 0, k as nat);
            lemma_pm_cur_mod(flat, first, k as nat);
            lemma_sum_of_multiples(cur, len);
            crate::util::lemma_align_props(cur + len, 32);
            crate::util::lemma_aligned_unique(
                spec_align(cur + len, 32),
                cur + len,
                cur + len,
                32,
            );
            assert(pm_slot_out(flat, first, k) =~= flat[k]);
        } else {
            assert(pm_slot_out(flat, first, k) == flat[k]);
        }
    }
}

/// Exporting and re-reading a PackMan archive whose file lengths are
/// multiples of 32 gives back every folder: same order, same IDs, same
/// file counts, and each file slot's bytes unchanged, empty slots
/// staying empty.
#[verifier::rlimit(100)]
pub proof fn lemma_packman_round_trip(a: PackManArchive)
    requires
        pm_round_trippable(a),
    ensures
        ({
            let b = pm_spec_export(a);
            spec_read(b) matches Ok(model) && model.len() == a.folders@.len() && forall|j: int|
                0 <= j < a.folders@.len() ==> {
                    &&& (#[trigger] model[j]).id == a.folders@[j].id
                    &&& model[j].file_count == a.folders@[j].files@.len()
                    &&& model[j].files == folder_files_views(a.folders@[j])
                }
        }),
{
    let b = pm_spec_export(a);
    let folders = a.folders@;
    let n = folders.len() as int;
    let flat = pm_flat(a);
    let total = flat.len() as int;
    lemma_pmrt_header(a);
    lemma_pmrt_slots(a);
    let base = pm_base(b);
    lemma_pm_slots_all(b, base, total, flat, total as nat);
    let slots = read_slots_to(b, base, total, total as nat)->Ok_0;
    assert(slots =~= flat);
    assert(spec_read(b) == Ok::<Seq<FolderModel>, FormatError>(pm_folders_model(b, slots)));
    let model = pm_folders_model(b, slots);

    assert forall|j: int| 0 <= j < n implies {
        &&& (#[trigger] model[j]).id == folders[j].id
        &&& model[j].file_count == folders[j].files@.len()
        &&& model[j].files == folder_files_views(folders[j])
    } by {
        assert(pm_count_prefix(b, j as nat) == pm_flat_to(folders, j as nat).len());
        assert(pm_count_prefix(b, (j + 1) as nat) == pm_flat_to(folders, (j + 1) as nat).len());
        lemma_flat_prefix(folders, j as nat, (j + 1) as nat);
        lemma_flat_prefix(folders, (j + 1) as nat, n as nat);
        assert(pm_flat_to(folders, (j + 1) as nat) == pm_flat_to(folders, j as nat)
            + folder_files_views(folders[j]));
        let lo = pm_flat_to(folders, j as nat).len() as int;
        let hi = pm_flat_to(folders, (j + 1) as nat).len() as int;
        assert forall|l: int| 0 <= l < hi - lo implies slots.subrange(lo, hi)[l]
            == folder_files_views(folders[j])[l] by {
            assert(flat[lo + l] == pm_flat_to(folders, (j + 1) as nat)[lo + l]);
        }
        assert(model[j].files =~= folder_files_views(folders[j]));
    }
}


/// Exporting and re-reading any exportable PackMan archive gives back
/// every folder in order, with its ID and file count; every file slot
/// reads back its bytes followed by the zero padding that rounds its
/// length up to a 32-byte boundary, and empty slots stay empty.
#[verifier::rlimit(100)]
pub proof fn lemma_packman_export_read_back(a: PackManArchive)
    requires
        pm_exportable(a),
    ensures
        ({
            let b = pm_spec_export(a);
            spec_read(b) matches Ok(model) && model.len() == a.folders@.len() && forall|j: int|
                0 <= j < a.folders@.len() ==> {
                    &&& (#[trigger] model[j]).id == a.folders@[j].id
                    &&& model[j].file_count == a.folders@[j].files@.len()
                    &&& model[j].files.len() == a.folders@[j].files@.len()
                    &&& forall|l: int|
                        0 <= l < a.folders@[j].files@.len() ==> #[trigger] model[j].files[l] == ({
                            let data = a.folders@[j].files@[l].data@;
                            if data.len() == 0 {
                                data
                            } else {
                                data + crate::util::zeros(
                                    (spec_align(data.len() as int, 32) - data.len()) as nat,
                                )
                            }
                        })
                }
        }),
{
    let b = pm_spec_export(a);
    let folders = a.folders@;
    let n = folders.len() as int;
    let flat = pm_flat(a);
    let total = flat.len() as int;
    let first = pm_first_offset(a);
    lemma_pmrt_header(a);
    lemma_pmrt_entries(a);
    lemma_pmrt_data_region(a);
    crate::util::lemma_align_props(spec_align(4 + n, 4) + 4 * n + 4 * flat.len(), 32);
    let base = pm_base(b);
    let padded = Seq::new(flat.len(), |k: int| pm_slot_out(flat, first, k));
    assert forall|k: int| 0 <= k < total implies #[trigger] slot_result(b, base, total, k) == Ok::<
        Seq<u8>,
        FormatError,
    >(padded[k]) by {
        lemma_slot_padded(b, base, total, flat, first, k);
    }
    lemma_pm_slots_all(b, base, total, padded, total as nat);
    let slots = read_slots_to(b, base, total, total as nat)->Ok_0;
    assert(slots =~= padded);
    assert(spec_read(b) == Ok::<Seq<FolderModel>, FormatError>(pm_folders_model(b, slots)));
    let model = pm_folders_model(b, slots);

    assert forall|j: int| 0 <= j < n implies {
        &&& (#[trigger] model[j]).id == folders[j].id
        &&& model[j].file_count == folders[j].files@.len()
        &&& model[j].files.len() == folders[j].files@.len()
        &&& forall|l: int|
            0 <= l < folders[j].files@.len() ==> #[trigger] model[j].files[l] == ({
                let data = folders[j].files@[l].data@;
                if data.len() == 0 {
                    data
                } else {
                    data + crate::util::zeros(
                        (spec_align(data.len() as int, 32) - data.len()) as nat,
                    )
                }
            })
    } by {
        assert(pm_count_prefix(b, j as nat) == pm_flat_to(folders, j as nat).len());
        assert(pm_count_prefix(b, (j + 1) as nat) == pm_flat_to(folders, (j + 1) as nat).len());
        lemma_flat_prefix(folders, j as nat, (j + 1) as nat);
        lemma_flat_prefix(folders, (j + 1) as nat, n as nat);
        assert(pm_flat_to(folders, (j + 1) as nat) == pm_flat_to(folders, j as nat)
            + folder_files_views(folders[j]));
        let lo = pm_flat_to(folders, j as nat).len() as int;
        let hi = pm_flat_to(folders, (j + 1) as nat).len() as int;
        assert forall|l: int| 0 <= l < folders[j].files@.len() implies #[trigger] model[j].files[l]
            == ({
            let data = folders[j].files@[l].data@;
            if data.len() == 0 {
                data
            } else {
                data + crate::util::zeros(
                    (spec_align(data.len() as int, 32) - data.len()) as nat,
                )
            }
        }) by {
            let k = lo + l;
            let data = folders[j].files@[l].data@;
            assert(flat[k] == pm_flat_to(folders, (j + 1) as nat)[k]);
            assert(flat[k] == data);
            assert(model[j].files[l] == padded[k]);
            if data.len() != 0 {
                let cur = pm_cur(flat, first, k as nat);
                let len = data.len() as int;
                lemma_pm_cur_bounds(flat, first, 0, k as nat);
                lemma_pm_cur_mod(flat, first, k as nat);
                crate::util::lemma_align_props(len, 32);
                lemma_sum_of_multiples(cur, spec_align(len, 32));
                crate::util::lemma_align_props(cur + len, 32);
                crate::util::lemma_aligned_unique(
                    spec_align(cur + len, 32),
                    cur + spec_align(len, 32),
                    cur + len,
                    32,
                );
                assert(pm_cur(flat, first, (k + 1) as nat) - (cur + len) == spec_align(len, 32)
                    - len);
            }
        }
    }
}

} // verus!


