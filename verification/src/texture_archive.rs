//! The GVR texture archive: named GVR textures behind an offset table
//! and a null-terminated name table.
//!
//! File layout: a big-endian `u16` texture count; a big-endian `u16`
//! model flag that must be 0 or 1; one big-endian `u32` absolute offset
//! per texture; one flag byte per texture when the model flag is 1;
//! one null-terminated ASCII name per texture; zero padding up to the
//! first texture offset, which is 32-byte aligned; the texture blobs,
//! concatenated in table order.

use crate::endian::{
    lemma_u16_be_bytes_at, lemma_u32_be_bytes_at, push_u16_be, push_u32_be, read_u16_be,
    read_u32_be, u16_be_at, u16_be_bytes, u32_be_at, u32_be_bytes, u32_le_at,
};
use crate::gvr_texture::{
    gcix_at, gvrt_at, spec_extract, spec_read_texture_size, spec_validate, GVRTexture,
};
use crate::util::copy_range;
use crate::FormatError;
use vstd::prelude::*;

verus! {

/// True for the bytes the archive accepts inside a texture name:
/// printable ASCII or ASCII whitespace.
pub open spec fn printable_byte(c: u8) -> bool {
    ||| 0x21 <= c <= 0x7E
    ||| c == 0x20u8
    ||| c == 0x09u8
    ||| c == 0x0Au8
    ||| c == 0x0Cu8
    ||| c == 0x0Du8
}

/// True when every byte of `s` is acceptable in a texture name.
pub open spec fn name_bytes_ok(s: Seq<u8>) -> bool {
    forall|j: int| 0 <= j < s.len() ==> printable_byte(#[trigger] s[j])
}

/// The bytes of `s` read as characters, one per byte.
pub open spec fn chars_of_bytes(s: Seq<u8>) -> Seq<char> {
    Seq::new(s.len(), |j: int| s[j] as char)
}

/// The position of the first zero byte of `b` at or after `p`, or the
/// buffer length when there is none.
pub open spec fn find_nul(b: Seq<u8>, p: int) -> int
    decreases b.len() - p,
{
    if p < 0 || p >= b.len() {
        b.len() as int
    } else if b[p] == 0 {
        p
    } else {
        find_nul(b, p + 1)
    }
}

/// The name read at position `p` of `b`: the bytes up to the next zero
/// byte, which is not part of the name. When the buffer ends first, the
/// name loses its last byte to the delimiter-dropping read; past the
/// end of the buffer the name is empty.
pub open spec fn name_at(b: Seq<u8>, p: int) -> Seq<u8> {
    let q = find_nul(b, p);
    if p < 0 || p >= b.len() {
        Seq::empty()
    } else if q < b.len() {
        b.subrange(p, q)
    } else {
        b.subrange(p, b.len() - 1)
    }
}

/// The read position after the name at position `p` of `b`: past the
/// zero byte when one is found, the end of the buffer otherwise.
pub open spec fn name_next(b: Seq<u8>, p: int) -> int {
    let q = find_nul(b, p);
    if p >= b.len() {
        p
    } else if q < b.len() {
        q + 1
    } else {
        b.len() as int
    }
}

/// The position of the `i`-th name when the name table starts at `start`.
pub open spec fn name_pos(b: Seq<u8>, start: int, i: nat) -> int
    decreases i,
{
    if i == 0 {
        start
    } else {
        name_next(b, name_pos(b, start, (i - 1) as nat))
    }
}

/// The texture count of the archive header.
pub open spec fn ta_count(b: Seq<u8>) -> int {
    u16_be_at(b, 0)
}

/// The raw model flag of the archive header.
pub open spec fn ta_flag(b: Seq<u8>) -> int {
    u16_be_at(b, 2)
}

/// The `i`-th entry of the archive's offset table.
pub open spec fn ta_offset(b: Seq<u8>, i: int) -> int {
    u32_be_at(b, 4 + 4 * i)
}

/// Where the name table starts: after the header words, the offset
/// table, and, for an archive without a model, one flag byte per
/// texture.
pub open spec fn ta_names_start(b: Seq<u8>) -> int {
    4 + 4 * ta_count(b) + if ta_flag(b) == 1 {
        ta_count(b)
    } else {
        0
    }
}

/// True when every name of the archive holds only acceptable bytes.
pub open spec fn ta_names_valid(b: Seq<u8>) -> bool {
    forall|i: int|
        0 <= i < ta_count(b) ==> name_bytes_ok(
            #[trigger] name_at(b, name_pos(b, ta_names_start(b), i as nat)),
        )
}

/// True when every entry of the offset table passes the GVR header
/// probe and the size read, the archive's closing structural check.
pub open spec fn ta_offsets_valid(b: Seq<u8>) -> bool {
    forall|i: int|
        0 <= i < ta_count(b) ==> (#[trigger] spec_validate(b, ta_offset(b, i)) is Ok
            && spec_read_texture_size(b, ta_offset(b, i)) is Ok)
}

/// A texture as the archive reader recovers it: its name bytes, its
/// declared full size, and its data.
pub struct TextureModel {
    /// The texture's name, as the bytes read from the name table.
    pub name: Seq<u8>,
    /// The texture's full size in bytes.
    pub size: u32,
    /// The texture's data.
    pub data: Seq<u8>,
}

/// The textures recovered from the first `i` table entries: each entry
/// whose extraction succeeds contributes one texture, in table order,
/// and a failing entry is passed over.
pub open spec fn collect_textures(b: Seq<u8>, i: nat) -> Seq<TextureModel>
    decreases i,
{
    if i == 0 {
        Seq::empty()
    } else {
        let prev = collect_textures(b, (i - 1) as nat);
        let nm = name_at(b, name_pos(b, ta_names_start(b), (i - 1) as nat));
        match spec_extract(b, ta_offset(b, i - 1)) {
            Ok((size, bytes)) => prev.push(TextureModel { name: nm, size, data: bytes }),
            Err(_) => prev,
        }
    }
}

/// What reading a texture archive from `b` returns: the model flag and
/// the recovered textures, or the first error the reader meets. The
/// checks run in the reader's order: the header words first, then the
/// offset table bounds, then each name, and the offset table probe
/// last.
pub open spec fn spec_read(b: Seq<u8>) -> Result<(bool, Seq<TextureModel>), FormatError> {
    if b.len() < 4 {
        Err(FormatError::UnexpectedEof)
    } else if ta_flag(b) > 1 {
        Err(FormatError::InvalidArchive)
    } else if 4 + 4 * ta_count(b) > b.len() {
        Err(FormatError::UnexpectedEof)
    } else if !ta_names_valid(b) {
        Err(FormatError::InvalidName)
    } else if !ta_offsets_valid(b) {
        Err(FormatError::InvalidArchive)
    } else {
        Ok((ta_flag(b) == 1, collect_textures(b, ta_count(b) as nat)))
    }
}

/// True when the textures held in `v` are exactly the recovered
/// textures `m`, name bytes read as characters.
pub open spec fn texs_match(v: Seq<GVRTexture>, m: Seq<TextureModel>) -> bool {
    &&& v.len() == m.len()
    &&& forall|j: int|
        0 <= j < m.len() ==> {
            &&& (#[trigger] v[j]).size == m[j].size
            &&& v[j].data@ == m[j].data
            &&& v[j].name@ == chars_of_bytes(m[j].name)
        }
}

/// A GVR texture archive: an ordered sequence of named textures, with a
/// flag that tells whether the archive stands alone or belongs to a
/// model.
pub struct TextureArchive {
    /// True for a stand-alone texture archive; the exported file then
    /// carries one flag byte per texture.
    pub is_without_model: bool,
    /// The textures of the archive, in file order.
    pub textures: Vec<GVRTexture>,
}

/// Reads the name starting at `pos`: the bytes up to the next zero
/// byte. Returns the name and the position to resume reading at.
fn read_name(data: &Vec<u8>, pos: usize) -> (r: (Vec<u8>, usize))
    ensures
        r.0@ == name_at(data@, pos as int),
        r.1 == name_next(data@, pos as int),
{
    let n = data.len();
    if pos >= n {
        return (Vec::new(), pos);
    }
    let mut q = pos;
    while q < n && data[q] != 0
        invariant
            pos <= q <= n == data.len(),
            forall|j: int| pos <= j < q ==> data@[j] != 0,
        decreases n - q,
    {
        q = q + 1;
    }
    proof {
        lemma_find_nul_at(data@, pos as int, q as int);
    }
    if q < n {
        (copy_range(data, pos, q), q + 1)
    } else {
        (copy_range(data, pos, n - 1), n)
    }
}

/// A scan that stops at the first zero byte, or at the end of the
/// buffer, lands exactly on `find_nul`.
proof fn lemma_find_nul_at(b: Seq<u8>, p: int, q: int)
    requires
        0 <= p,
        p <= q <= b.len(),
        forall|j: int| p <= j < q ==> b[j] != 0,
        q == b.len() || b[q] == 0,
    ensures
        find_nul(b, p) == q,
    decreases q - p,
{
    if p < q {
        lemma_find_nul_at(b, p + 1, q);
    }
}

/// True when every byte of `v` is acceptable in a texture name.
fn all_printable(v: &Vec<u8>) -> (r: bool)
    ensures
        r == name_bytes_ok(v@),
{
    let mut k: usize = 0;
    while k < v.len()
        invariant
            k <= v.len(),
            forall|j: int| 0 <= j < k ==> printable_byte(#[trigger] v@[j]),
        decreases v.len() - k,
    {
        let c = v[k];
        if !(c >= 0x21 && c <= 0x7E || c == 0x20 || c == 0x09 || c == 0x0A || c == 0x0C || c
            == 0x0D) {
            return false;
        }
        k = k + 1;
    }
    true
}

/// Relies on `String::from_utf8`: ASCII bytes are valid UTF-8, and each
/// decodes to the character with the same code point.
#[verifier::external_body]
fn ascii_string(bytes: &Vec<u8>) -> (r: String)
    requires
        forall|j: int| 0 <= j < bytes@.len() ==> bytes@[j] < 0x80,
    ensures
        r@.len() == bytes@.len(),
        forall|j: int| 0 <= j < bytes@.len() ==> r@[j] == bytes@[j] as char,
{
    String::from_utf8(bytes.clone()).unwrap()
}

impl Default for TextureArchive {
    /// An archive with no textures and the model flag clear.
    fn default() -> (r: Self)
        ensures
            r.is_without_model == false,
            r.textures@.len() == 0,
    {
        TextureArchive { is_without_model: false, textures: Vec::new() }
    }
}

impl TextureArchive {
    /// Creates an archive with no textures.
    pub fn new_empty() -> (r: Self)
        ensures
            r.is_without_model == false,
            r.textures@.len() == 0,
    {
        Self { is_without_model: false, textures: Vec::new() }
    }

    /// Reads a texture archive from `data`. The model flag must be 0 or
    /// 1, else the archive is refused as `InvalidArchive`; a name with
    /// a byte that is not printable ASCII or whitespace is refused as
    /// `InvalidName`; a header or offset table cut short is refused as
    /// `UnexpectedEof`; and after the textures are collected, every
    /// offset table entry must still pass the GVR header probe and size
    /// read, else the archive is refused as `InvalidArchive`. A single
    /// texture whose extraction fails is passed over without an error.
    pub fn read(data: &Vec<u8>) -> (r: Result<Self, FormatError>)
        ensures
            match spec_read(data@) {
                Ok(model) => r matches Ok(a) && a.is_without_model == model.0 && texs_match(
                    a.textures@,
                    model.1,
                ),
                Err(e) => r == Err::<TextureArchive, FormatError>(e),
            },
    {
        let n = data.len();
        if n < 4 {
            return Err(FormatError::UnexpectedEof);
        }
        let count = read_u16_be(data, 0);
        let flag = read_u16_be(data, 2);
        if flag > 1 {
            return Err(FormatError::InvalidArchive);
        }
        let count_us = count as usize;
        if 4 + 4 * count_us > n {
            return Err(FormatError::UnexpectedEof);
        }

        let mut offsets: Vec<u32> = Vec::new();
        let mut i: usize = 0;
        while i < count_us
            invariant
                i <= count_us,
                count_us == ta_count(data@),
                4 + 4 * count_us <= data.len(),
                offsets@.len() == i,
                forall|j: int| 0 <= j < i ==> offsets@[j] == ta_offset(data@, j),
            decreases count_us - i,
        {
            offsets.push(read_u32_be(data, 4 + 4 * i));
            i = i + 1;
        }

        let mut pos: usize = 4 + 4 * count_us;
        if flag == 1 {
            pos = pos + count_us;
        }
        proof {
            assert(pos == ta_names_start(data@));
        }

        let mut textures: Vec<GVRTexture> = Vec::new();
        let mut i: usize = 0;
        while i < count_us
            invariant
                i <= count_us,
                count_us == ta_count(data@),
                data@.len() >= 4,
                ta_flag(data@) <= 1,
                4 + 4 * count_us <= data.len(),
                pos == name_pos(data@, ta_names_start(data@), i as nat),
                offsets@.len() == count_us,
                forall|j: int| 0 <= j < count_us ==> offsets@[j] == ta_offset(data@, j),
                forall|j: int|
                    0 <= j < i ==> name_bytes_ok(
                        #[trigger] name_at(data@, name_pos(data@, ta_names_start(data@), j as nat)),
                    ),
                texs_match(textures@, collect_textures(data@, i as nat)),
            decreases count_us - i,
        {
            let (nm_bytes, new_pos) = read_name(data, pos);
            if !all_printable(&nm_bytes) {
                proof {
                    let ii = i as int;
                    assert(name_at(data@, name_pos(data@, ta_names_start(data@), ii as nat))
                        == nm_bytes@);
                    assert(!ta_names_valid(data@));
                }
                return Err(FormatError::InvalidName);
            }
            let nm = ascii_string(&nm_bytes);
            proof {
                assert(nm@ =~= chars_of_bytes(nm_bytes@));
            }
            let off = offsets[i];
            match GVRTexture::new_from_cursor(nm, data, off as usize) {
                Ok(t) => {
                    textures.push(t);
                },
                Err(_) => {},
            }
            proof {
                assert((off as usize) as int == ta_offset(data@, i as int));
                assert(texs_match(textures@, collect_textures(data@, (i + 1) as nat)));
            }
            pos = new_pos;
            i = i + 1;
        }

        if !Self::validate_textures(data, &offsets) {
            proof {
                assert(!ta_offsets_valid(data@)) by {
                    let bad = choose|j: int|
                        0 <= j < offsets@.len() && !(spec_validate(data@, offsets@[j] as int)
                            is Ok && spec_read_texture_size(data@, offsets@[j] as int) is Ok);
                    assert(!(spec_validate(data@, ta_offset(data@, bad)) is Ok
                        && spec_read_texture_size(data@, ta_offset(data@, bad)) is Ok));
                }
            }
            return Err(FormatError::InvalidArchive);
        }
        proof {
            assert forall|j: int| 0 <= j < ta_count(data@) implies (#[trigger] spec_validate(
                data@,
                ta_offset(data@, j),
            ) is Ok && spec_read_texture_size(data@, ta_offset(data@, j)) is Ok) by {
                assert(spec_validate(data@, offsets@[j] as int) is Ok && spec_read_texture_size(
                    data@,
                    offsets@[j] as int,
                ) is Ok);
            }
        }

        Ok(TextureArchive { is_without_model: flag == 1, textures })
    }

    /// Re-validates every offset of the table against the GVR header
    /// probe and the size read, the archive's closing structural check
    /// over the raw offsets rather than the extracted textures.
    fn validate_textures(data: &Vec<u8>, offsets: &Vec<u32>) -> (r: bool)
        ensures
            r == forall|j: int|
                0 <= j < offsets@.len() ==> (#[trigger] spec_validate(data@, offsets@[j] as int)
                    is Ok && spec_read_texture_size(data@, offsets@[j] as int) is Ok),
    {
        let n = offsets.len();
        let mut i: usize = 0;
        while i < n
            invariant
                n == offsets@.len(),
                i <= n,
                forall|j: int|
                    0 <= j < i ==> (#[trigger] spec_validate(data@, offsets@[j] as int) is Ok
                        && spec_read_texture_size(data@, offsets@[j] as int) is Ok),
            decreases n - i,
        {
            let off = offsets[i];
            if GVRTexture::validate(data, off as usize).is_err() {
                return false;
            }
            if GVRTexture::read_texture_size(data, off as usize).is_err() {
                return false;
            }
            i = i + 1;
        }
        true
    }
}

/// The bytes of the name "unnamed", written in place of an empty name.
pub open spec fn unnamed_bytes() -> Seq<u8> {
    seq![0x75u8, 0x6Eu8, 0x6Eu8, 0x61u8, 0x6Du8, 0x65u8, 0x64u8]
}

/// The bytes the exporter writes for a texture name: the name's UTF-8
/// bytes, or "unnamed" when the name is empty.
pub open spec fn name_out_bytes(name: Seq<char>) -> Seq<u8> {
    if name.len() == 0 {
        unnamed_bytes()
    } else {
        vstd::utf8::encode_utf8(name)
    }
}

/// The name table for the first `i` textures: each written name
/// followed by its zero delimiter.
pub open spec fn names_bytes(texs: Seq<GVRTexture>, i: nat) -> Seq<u8>
    decreases i,
{
    if i == 0 {
        Seq::empty()
    } else {
        names_bytes(texs, (i - 1) as nat) + name_out_bytes(texs[i - 1].name@) + seq![0u8]
    }
}

/// The flag bytes an archive without a model carries: 0x11, once per
/// texture.
pub open spec fn flags_bytes(n: nat) -> Seq<u8> {
    Seq::new(n, |j: int| 0x11u8)
}

/// The data region for the first `i` textures: their buffers
/// concatenated in order.
pub open spec fn datas_bytes(texs: Seq<GVRTexture>, i: nat) -> Seq<u8>
    decreases i,
{
    if i == 0 {
        Seq::empty()
    } else {
        datas_bytes(texs, (i - 1) as nat) + texs[i - 1].data@
    }
}

/// How many bytes precede the data region before alignment: the two
/// header words, the offset table, the flag bytes if any, and the name
/// table.
pub open spec fn ta_raw_first_offset(a: TextureArchive) -> int {
    4 + 4 * a.textures@.len() + (if a.is_without_model {
        a.textures@.len() as int
    } else {
        0
    }) + names_bytes(a.textures@, a.textures@.len() as nat).len()
}

/// The offset of the first texture in an exported archive: the header
/// rounded up to a 32-byte boundary.
pub open spec fn spec_first_tex_offset(a: TextureArchive) -> int {
    crate::util::spec_align(ta_raw_first_offset(a), 32)
}

/// The offset assigned to texture `i` on export: the first texture's
/// offset plus the declared sizes of the textures before it. At
/// `i == len` this is the offset one past the last texture.
pub open spec fn ta_tex_offset(a: TextureArchive, i: nat) -> int
    decreases i,
{
    if i == 0 {
        spec_first_tex_offset(a)
    } else {
        ta_tex_offset(a, (i - 1) as nat) + a.textures@[i - 1].size
    }
}

/// What the archive's exporter can represent: at least one texture, a
/// texture count that fits the 16-bit count field, and offsets that fit
/// the 32-bit offset table.
pub open spec fn exportable(a: TextureArchive) -> bool {
    &&& 1 <= a.textures@.len() <= 0xFFFF
    &&& ta_raw_first_offset(a) + 31 <= u32::MAX
    &&& ta_tex_offset(a, a.textures@.len() as nat) <= u32::MAX
}

/// The exported bytes of a texture archive: the count word, the model
/// flag word, the offset table, the flag bytes for an archive without a
/// model, the name table, zero padding up to the aligned first offset,
/// and the texture buffers in order.
pub open spec fn spec_export(a: TextureArchive) -> Seq<u8> {
    let n = a.textures@.len() as nat;
    u16_be_bytes(n as int) + u16_be_bytes(
        if a.is_without_model {
            1
        } else {
            0
        },
    ) + offsets_bytes(a, n) + (if a.is_without_model {
        flags_bytes(n)
    } else {
        Seq::empty()
    }) + names_bytes(a.textures@, n) + crate::util::zeros(
        (spec_first_tex_offset(a) - ta_raw_first_offset(a)) as nat,
    ) + datas_bytes(a.textures@, n)
}

/// The offset table for the first `i` textures, each entry as four
/// big-endian bytes.
pub open spec fn offsets_bytes(a: TextureArchive, i: nat) -> Seq<u8>
    decreases i,
{
    if i == 0 {
        Seq::empty()
    } else {
        offsets_bytes(a, (i - 1) as nat) + u32_be_bytes(ta_tex_offset(a, (i - 1) as nat))
    }
}

/// The offset table region grows by four bytes per entry.
pub proof fn lemma_offsets_bytes_len(a: TextureArchive, i: nat)
    ensures
        offsets_bytes(a, i).len() == 4 * i,
    decreases i,
{
    if i > 0 {
        lemma_offsets_bytes_len(a, (i - 1) as nat);
    }
}

/// The name table only grows as more names are counted.
pub proof fn lemma_names_bytes_len_monotone(texs: Seq<GVRTexture>, i: nat, j: nat)
    requires
        i <= j,
    ensures
        names_bytes(texs, i).len() <= names_bytes(texs, j).len(),
    decreases j,
{
    if i < j {
        lemma_names_bytes_len_monotone(texs, i, (j - 1) as nat);
    }
}

/// Texture offsets never decrease along the table.
pub proof fn lemma_tex_offset_monotone(a: TextureArchive, i: nat, j: nat)
    requires
        i <= j,
    ensures
        ta_tex_offset(a, i) <= ta_tex_offset(a, j),
    decreases j,
{
    if i < j {
        lemma_tex_offset_monotone(a, i, (j - 1) as nat);
    }
}

impl TextureArchive {
    /// The number of bytes the exporter writes for this texture's name.
    fn name_out_len(tex: &GVRTexture) -> (r: usize)
        ensures
            r == name_out_bytes(tex.name@).len(),
    {
        if tex.name.as_str().is_empty() {
            7
        } else {
            tex.name.as_str().as_bytes().len()
        }
    }

    /// Computes where the first texture of the exported file will lie:
    /// past the header words, the offset table, the flag bytes if any,
    /// and the name table, rounded up to a 32-byte boundary.
    fn calculate_first_tex_offset(&self) -> (r: usize)
        requires
            exportable(*self),
        ensures
            r == spec_first_tex_offset(*self),
    {
        let n = self.textures.len();
        let mut result_offset: usize = 4 + 4 * n;
        if self.is_without_model {
            result_offset = result_offset + n;
        }
        let mut i: usize = 0;
        while i < n
            invariant
                exportable(*self),
                n == self.textures@.len(),
                i <= n,
                result_offset == 4 + 4 * n + (if self.is_without_model {
                    n as int
                } else {
                    0
                }) + names_bytes(self.textures@, i as nat).len(),
            decreases n - i,
        {
            proof {
                lemma_names_bytes_len_monotone(self.textures@, (i + 1) as nat, n as nat);
            }
            let add = Self::name_out_len(&self.textures[i]);
            result_offset = result_offset + add + 1;
            i = i + 1;
        }
        let aligned = crate::util::Alignment::A32(result_offset);
        aligned.unwrap()
    }

    /// Computes the offset table the exporter writes: the first
    /// texture's aligned offset, then each next offset one declared
    /// texture size further on.
    pub fn calculate_offset_table(&self) -> (r: Vec<u32>)
        requires
            exportable(*self),
        ensures
            r@.len() == self.textures@.len(),
            forall|i: int|
                0 <= i < self.textures@.len() ==> r@[i] == ta_tex_offset(*self, i as nat),
    {
        let n = self.textures.len();
        let first = self.calculate_first_tex_offset();
        let mut offsets: Vec<u32> = Vec::new();
        let mut cur_offset: u32 = first as u32;
        let mut i: usize = 0;
        while i < n
            invariant
                exportable(*self),
                n == self.textures@.len(),
                i <= n,
                cur_offset == ta_tex_offset(*self, i as nat),
                offsets@.len() == i,
                forall|j: int| 0 <= j < i ==> offsets@[j] == ta_tex_offset(*self, j as nat),
            decreases n - i,
        {
            proof {
                lemma_tex_offset_monotone(*self, (i + 1) as nat, n as nat);
            }
            offsets.push(cur_offset);
            cur_offset = cur_offset + self.textures[i].size;
            i = i + 1;
        }
        offsets
    }

    /// True when [`TextureArchive::export`] accepts this archive: it
    /// holds at least one texture, no more than 65535, and the exported
    /// offsets all fit in 32 bits.
    pub fn can_export(&self) -> (r: bool)
        ensures
            r == exportable(*self),
    {
        let n = self.textures.len();
        if n < 1 || n > 0xFFFF {
            return false;
        }
        let mut raw: u64 = 4 + 4 * (n as u64);
        if self.is_without_model {
            raw = raw + n as u64;
        }
        let limit: u64 = 0xFFFFFFFF - 31;
        let mut i: usize = 0;
        while i < n
            invariant
                n == self.textures@.len(),
                1 <= n <= 0xFFFF,
                i <= n,
                raw == 4 + 4 * n + (if self.is_without_model {
                    n as int
                } else {
                    0
                }) + names_bytes(self.textures@, i as nat).len(),
                raw <= limit,
                limit == u32::MAX - 31,
            decreases n - i,
        {
            let add = Self::name_out_len(&self.textures[i]);
            if add as u64 > limit - raw || 1 > limit - raw - add as u64 {
                proof {
                    lemma_names_bytes_len_monotone(self.textures@, (i + 1) as nat, n as nat);
                }
                return false;
            }
            raw = raw + add as u64 + 1;
            i = i + 1;
        }
        proof {
            crate::util::lemma_align_props(raw as int, 32);
        }
        let first: u64 = crate::util::Alignment::A32(raw as usize).unwrap() as u64;
        let mut cur: u64 = first;
        let mut i: usize = 0;
        while i < n
            invariant
                n == self.textures@.len(),
                1 <= n <= 0xFFFF,
                i <= n,
                cur == ta_tex_offset(*self, i as nat),
                cur <= u32::MAX,
            decreases n - i,
        {
            let size = self.textures[i].size;
            if size as u64 > 0xFFFFFFFFu64 - cur {
                proof {
                    lemma_tex_offset_monotone(*self, (i + 1) as nat, n as nat);
                }
                return false;
            }
            cur = cur + size as u64;
            i = i + 1;
        }
        true
    }

    /// Exports the archive to its binary file image. Any texture
    /// without a name is written under the name "unnamed". The caller
    /// keeps the archive exportable: non-empty, and within the format's
    /// count and offset limits, as [`TextureArchive::can_export`]
    /// checks.
    pub fn export(&self) -> (out: Vec<u8>)
        requires
            exportable(*self),
        ensures
            out@ == spec_export(*self),
    {
        let n = self.textures.len();
        let mut out: Vec<u8> = Vec::new();
        push_u16_be(&mut out, n as u16);
        push_u16_be(&mut out, if self.is_without_model { 1u16 } else { 0u16 });
        let ghost h_words = u16_be_bytes(n as int) + u16_be_bytes(
            if self.is_without_model {
                1
            } else {
                0
            },
        );
        proof {
            assert(out@ =~= h_words);
        }

        let offsets = self.calculate_offset_table();
        let mut i: usize = 0;
        while i < n
            invariant
                exportable(*self),
                n == self.textures@.len(),
                i <= n,
                offsets@.len() == n,
                forall|j: int| 0 <= j < n ==> offsets@[j] == ta_tex_offset(*self, j as nat),
                out@ == h_words + offsets_bytes(*self, i as nat),
            decreases n - i,
        {
            push_u32_be(&mut out, offsets[i]);
            proof {
                assert(out@ =~= h_words + offsets_bytes(*self, (i + 1) as nat));
            }
            i = i + 1;
        }
        let ghost h_off = h_words + offsets_bytes(*self, n as nat);

        if self.is_without_model {
            let mut i: usize = 0;
            while i < n
                invariant
                    i <= n,
                    out@ == h_off + flags_bytes(i as nat),
                decreases n - i,
            {
                out.push(0x11);
                proof {
                    assert(out@ =~= h_off + flags_bytes((i + 1) as nat));
                }
                i = i + 1;
            }
        }
        let ghost h_flags = h_off + (if self.is_without_model {
            flags_bytes(n as nat)
        } else {
            Seq::<u8>::empty()
        });
        proof {
            assert(out@ =~= h_flags);
        }

        let mut i: usize = 0;
        while i < n
            invariant
                exportable(*self),
                n == self.textures@.len(),
                i <= n,
                out@ == h_flags + names_bytes(self.textures@, i as nat),
            decreases n - i,
        {
            let ghost h_here = out@;
            if self.textures[i].name.as_str().is_empty() {
                out.push(0x75);
                out.push(0x6E);
                out.push(0x6E);
                out.push(0x61);
                out.push(0x6D);
                out.push(0x65);
                out.push(0x64);
                proof {
                    assert(out@ =~= h_here + name_out_bytes(self.textures@[i as int].name@));
                }
            } else {
                let bs = self.textures[i].name.as_str().as_bytes();
                let mut k: usize = 0;
                while k < bs.len()
                    invariant
                        k <= bs@.len(),
                        bs@ == name_out_bytes(self.textures@[i as int].name@),
                        out@ == h_here + bs@.subrange(0, k as int),
                    decreases bs@.len() - k,
                {
                    out.push(bs[k]);
                    proof {
                        assert(out@ =~= h_here + bs@.subrange(0, k + 1));
                    }
                    k = k + 1;
                }
                proof {
                    assert(bs@.subrange(0, bs@.len() as int) =~= bs@);
                }
            }
            out.push(0);
            proof {
                assert(out@ =~= h_flags + names_bytes(self.textures@, (i + 1) as nat));
            }
            i = i + 1;
        }
        let ghost h_names = h_flags + names_bytes(self.textures@, n as nat);
        proof {
            lemma_offsets_bytes_len(*self, n as nat);
            assert(out@.len() == ta_raw_first_offset(*self));
        }

        let first = self.calculate_first_tex_offset();
        proof {
            crate::util::lemma_align_props(ta_raw_first_offset(*self), 32);
        }
        while out.len() < first
            invariant
                first == spec_first_tex_offset(*self),
                out@.len() <= first,
                out@.len() >= ta_raw_first_offset(*self),
                out@ == h_names + crate::util::zeros(
                    (out@.len() - ta_raw_first_offset(*self)) as nat,
                ),
                h_names.len() == ta_raw_first_offset(*self),
            decreases first - out@.len(),
        {
            out.push(0);
            proof {
                assert(out@ =~= h_names + crate::util::zeros(
                    (out@.len() - ta_raw_first_offset(*self)) as nat,
                ));
            }
        }
        proof {
            crate::util::lemma_align_props(ta_raw_first_offset(*self), 32);
            assert(out@.len() == spec_first_tex_offset(*self));
        }
        let ghost h_pad = h_names + crate::util::zeros(
            (spec_first_tex_offset(*self) - ta_raw_first_offset(*self)) as nat,
        );
        proof {
            assert(out@ =~= h_pad);
        }

        let mut i: usize = 0;
        while i < n
            invariant
                n == self.textures@.len(),
                i <= n,
                out@ == h_pad + datas_bytes(self.textures@, i as nat),
            decreases n - i,
        {
            let ghost h_here = out@;
            let m = self.textures[i].data.len();
            let mut k: usize = 0;
            while k < m
                invariant
                    n == self.textures@.len(),
                    i < n,
                    m == self.textures@[i as int].data@.len(),
                    k <= m,
                    out@ == h_here + self.textures@[i as int].data@.subrange(0, k as int),
                decreases m - k,
            {
                let b = self.textures[i].data[k];
                out.push(b);
                proof {
                    assert(out@ =~= h_here + self.textures@[i as int].data@.subrange(0, k + 1));
                }
                k = k + 1;
            }
            proof {
                assert(self.textures@[i as int].data@.subrange(
                    0,
                    self.textures@[i as int].data@.len() as int,
                ) =~= self.textures@[i as int].data@);
                assert(out@ =~= h_pad + datas_bytes(self.textures@, (i + 1) as nat));
            }
            i = i + 1;
        }

        proof {
            assert(out@ =~= spec_export(*self));
        }
        out
    }
}

/// True when a texture's buffer really is the GVR blob its fields
/// claim: the buffer is exactly `size` bytes, opens with both magic
/// markers, and declares an inner size that matches.
pub open spec fn valid_gvr_texture(t: GVRTexture) -> bool {
    &&& t.data@.len() == t.size
    &&& 0x18 <= t.size
    &&& gcix_at(t.data@, 0)
    &&& gvrt_at(t.data@, 0x10)
    &&& u32_le_at(t.data@, 0x14) == t.size - 0x18
}

/// True for a character the archive's name validation accepts, written
/// as one ASCII byte.
pub open spec fn printable_char(c: char) -> bool {
    &&& 0 <= (c as int) < 0x80
    &&& printable_byte(c as u8)
}

/// True when every character of a name is printable ASCII.
pub open spec fn valid_name_chars(name: Seq<char>) -> bool {
    forall|i: int| 0 <= i < name.len() ==> printable_char(#[trigger] name[i])
}

/// True of an archive the exporter reproduces exactly: exportable, with
/// every texture a well-formed GVR blob and every name printable ASCII.
pub open spec fn round_trippable(a: TextureArchive) -> bool {
    &&& exportable(a)
    &&& forall|i: int|
        0 <= i < a.textures@.len() ==> valid_gvr_texture(#[trigger] a.textures@[i])
    &&& forall|i: int|
        0 <= i < a.textures@.len() ==> valid_name_chars((#[trigger] a.textures@[i]).name@)
}

/// Each offset table entry of an export reads back as the bytes of its
/// assigned offset.
proof fn lemma_offsets_bytes_index(a: TextureArchive, c: nat, i: int)
    requires
        0 <= i < c,
    ensures
        offsets_bytes(a, c).len() == 4 * c,
        offsets_bytes(a, c)[4 * i] == u32_be_bytes(ta_tex_offset(a, i as nat))[0],
        offsets_bytes(a, c)[4 * i + 1] == u32_be_bytes(ta_tex_offset(a, i as nat))[1],
        offsets_bytes(a, c)[4 * i + 2] == u32_be_bytes(ta_tex_offset(a, i as nat))[2],
        offsets_bytes(a, c)[4 * i + 3] == u32_be_bytes(ta_tex_offset(a, i as nat))[3],
    decreases c,
{
    lemma_offsets_bytes_len(a, c);
    lemma_offsets_bytes_len(a, (c - 1) as nat);
    if i < c - 1 {
        lemma_offsets_bytes_index(a, (c - 1) as nat, i);
    }
}

/// Each name of an export's name table lies at the end of the names
/// before it, followed by its zero delimiter.
proof fn lemma_names_bytes_index(texs: Seq<GVRTexture>, c: nat, i: nat)
    requires
        i < c,
    ensures
        names_bytes(texs, i).len() + name_out_bytes(texs[i as int].name@).len() + 1 <= names_bytes(
            texs,
            c,
        ).len(),
        forall|j: int|
            0 <= j < name_out_bytes(texs[i as int].name@).len() + 1 ==> #[trigger] names_bytes(
                texs,
                c,
            )[names_bytes(texs, i).len() + j] == (name_out_bytes(texs[i as int].name@)
                + seq![0u8])[j],
    decreases c,
{
    if i < c - 1 {
        lemma_names_bytes_index(texs, (c - 1) as nat, i);
    }
}

/// Each texture's data in an export's data region lies at the end of
/// the data before it.
proof fn lemma_datas_bytes_index(texs: Seq<GVRTexture>, c: nat, i: nat)
    requires
        i < c,
    ensures
        datas_bytes(texs, i).len() + texs[i as int].data@.len() <= datas_bytes(texs, c).len(),
        forall|j: int|
            0 <= j < texs[i as int].data@.len() ==> #[trigger] datas_bytes(texs, c)[datas_bytes(
                texs,
                i,
            ).len() + j] == texs[i as int].data@[j],
    decreases c,
{
    if i < c - 1 {
        lemma_datas_bytes_index(texs, (c - 1) as nat, i);
    }
}

/// In an archive of well-formed textures, the data written before
/// texture `i` spans exactly from the first texture's offset to texture
/// `i`'s.
proof fn lemma_datas_offset(a: TextureArchive, i: nat)
    requires
        i <= a.textures@.len(),
        forall|ii: int|
            0 <= ii < a.textures@.len() ==> valid_gvr_texture(#[trigger] a.textures@[ii]),
    ensures
        datas_bytes(a.textures@, i).len() == ta_tex_offset(a, i) - spec_first_tex_offset(a),
    decreases i,
{
    if i > 0 {
        lemma_datas_offset(a, (i - 1) as nat);
    }
}

/// Walking the name table of an export visits each written name in
/// turn: the `i`-th read starts where the `i`-th name was written, and
/// every name read so far is exactly the name written.
proof fn lemma_names_parse(b: Seq<u8>, ns: int, texs: Seq<GVRTexture>, i: nat)
    requires
        0 <= ns,
        i <= texs.len(),
        ns + names_bytes(texs, texs.len() as nat).len() <= b.len(),
        forall|t: int|
            0 <= t < names_bytes(texs, texs.len() as nat).len() ==> #[trigger] b[ns + t]
                == names_bytes(texs, texs.len() as nat)[t],
        forall|ii: int|
            0 <= ii < texs.len() ==> name_bytes_ok(
                #[trigger] name_out_bytes(texs[ii].name@),
            ),
    ensures
        name_pos(b, ns, i) == ns + names_bytes(texs, i).len(),
        forall|ii: int|
            0 <= ii < i ==> #[trigger] name_at(b, name_pos(b, ns, ii as nat)) == name_out_bytes(
                texs[ii].name@,
            ),
    decreases i,
{
    if i > 0 {
        lemma_names_parse(b, ns, texs, (i - 1) as nat);
        let prev = (i - 1) as nat;
        let p = ns + names_bytes(texs, prev).len();
        let nm = name_out_bytes(texs[i - 1].name@);
        let len = nm.len() as int;
        lemma_names_bytes_index(texs, texs.len() as nat, prev);
        lemma_names_bytes_len_monotone(texs, i, texs.len() as nat);
        assert(names_bytes(texs, i).len() == names_bytes(texs, prev).len() + len + 1);
        assert forall|j: int| p <= j < p + len implies b[j] != 0 by {
            let t = names_bytes(texs, prev).len() + (j - p);
            assert(names_bytes(texs, texs.len() as nat)[t] == (nm + seq![0u8])[j - p]);
            assert(b[ns + t] == names_bytes(texs, texs.len() as nat)[t]);
            assert(printable_byte(nm[j - p]));
        }
        let tnul = names_bytes(texs, prev).len() + len;
        assert(names_bytes(texs, texs.len() as nat)[tnul] == (nm + seq![0u8])[len]);
        assert(b[ns + tnul] == names_bytes(texs, texs.len() as nat)[tnul]);
        assert(b[p + len] == 0);
        lemma_find_nul_at(b, p, p + len);
        assert(name_next(b, p) == p + len + 1);
        assert(name_at(b, p) =~= nm) by {
            assert forall|j: int| 0 <= j < len implies name_at(b, p)[j] == nm[j] by {
                let t = names_bytes(texs, prev).len() + j;
                assert(names_bytes(texs, texs.len() as nat)[t] == (nm + seq![0u8])[j]);
                assert(b[ns + t] == names_bytes(texs, texs.len() as nat)[t]);
            }
        }
        assert forall|ii: int| 0 <= ii < i implies #[trigger] name_at(b, name_pos(b, ns, ii as nat))
            == name_out_bytes(texs[ii].name@) by {
            if ii == i - 1 {
                assert(name_pos(b, ns, ii as nat) == p);
            }
        }
    }
}

/// The textures an export's reader collects are, entry by entry, the
/// textures that were written.
proof fn lemma_collect_all(b: Seq<u8>, texs: Seq<GVRTexture>, i: nat)
    requires
        i <= texs.len(),
        texs.len() == ta_count(b),
        forall|ii: int|
            0 <= ii < texs.len() ==> #[trigger] spec_extract(b, ta_offset(b, ii)) == Ok::<
                (u32, Seq<u8>),
                FormatError,
            >((texs[ii].size, texs[ii].data@)),
        forall|ii: int|
            0 <= ii < texs.len() ==> #[trigger] name_at(
                b,
                name_pos(b, ta_names_start(b), ii as nat),
            ) == name_out_bytes(texs[ii].name@),
    ensures
        collect_textures(b, i).len() == i,
        forall|ii: int|
            0 <= ii < i ==> {
                &&& (#[trigger] collect_textures(b, i)[ii]).size == texs[ii].size
                &&& collect_textures(b, i)[ii].data == texs[ii].data@
                &&& collect_textures(b, i)[ii].name == name_out_bytes(texs[ii].name@)
            },
    decreases i,
{
    if i > 0 {
        lemma_collect_all(b, texs, (i - 1) as nat);
    }
}

/// The header of an export reads back: the count and flag words, the
/// offset table entries, and the region boundaries.
#[verifier::rlimit(100)]
proof fn lemma_rt_header(a: TextureArchive)
    requires
        round_trippable(a),
    ensures
        ({
            let b = spec_export(a);
            let n = a.textures@.len() as int;
            &&& b.len() == ta_tex_offset(a, n as nat)
            &&& b.len() >= spec_first_tex_offset(a) >= ta_raw_first_offset(a)
            &&& ta_count(b) == n
            &&& ta_flag(b) == (if a.is_without_model {
                1int
            } else {
                0int
            })
            &&& ta_names_start(b) == 4 + 4 * n + (if a.is_without_model {
                n
            } else {
                0int
            })
            &&& forall|i: int|
                0 <= i < n ==> #[trigger] ta_offset(b, i) == ta_tex_offset(a, i as nat)
        }),
{
    let b = spec_export(a);
    let texs = a.textures@;
    let n = texs.len() as int;
    let flag: int = if a.is_without_model {
        1
    } else {
        0
    };
    let w0 = u16_be_bytes(n);
    let w1 = u16_be_bytes(flag);
    let c_off = offsets_bytes(a, n as nat);
    let c_flag: Seq<u8> = if a.is_without_model {
        flags_bytes(n as nat)
    } else {
        Seq::empty()
    };
    let c_names = names_bytes(texs, n as nat);
    let raw = ta_raw_first_offset(a);
    let first = spec_first_tex_offset(a);
    let c_pad = crate::util::zeros((first - raw) as nat);
    let c_data = datas_bytes(texs, n as nat);
    assert(b == w0 + w1 + c_off + c_flag + c_names + c_pad + c_data);
    lemma_offsets_bytes_len(a, n as nat);
    crate::util::lemma_align_props(raw, 32);
    lemma_datas_offset(a, n as nat);
    lemma_tex_offset_monotone(a, 0, n as nat);
    assert(b.len() == ta_tex_offset(a, n as nat));

    lemma_u16_be_bytes_at(b, 0, n as u16);
    lemma_u16_be_bytes_at(b, 2, flag as u16);
    assert(ta_count(b) == n);
    assert(ta_flag(b) == flag);

    assert forall|i: int| 0 <= i < n implies #[trigger] ta_offset(b, i) == ta_tex_offset(
        a,
        i as nat,
    ) by {
        lemma_offsets_bytes_index(a, n as nat, i);
        lemma_tex_offset_monotone(a, i as nat, n as nat);
        lemma_tex_offset_monotone(a, 0, i as nat);
        let bytes = u32_be_bytes(ta_tex_offset(a, i as nat));
        assert(b[4 + (4 * i)] == c_off[4 * i]);
        assert(b[4 + (4 * i + 1)] == c_off[4 * i + 1]);
        assert(b[4 + (4 * i + 2)] == c_off[4 * i + 2]);
        assert(b[4 + (4 * i + 3)] == c_off[4 * i + 3]);
        assert(b[4 + 4 * i] == bytes[0]);
        assert(b[4 + 4 * i + 1] == bytes[1]);
        assert(b[4 + 4 * i + 2] == bytes[2]);
        assert(b[4 + 4 * i + 3] == bytes[3]);
        lemma_u32_be_bytes_at(b, 4 + 4 * i, ta_tex_offset(a, i as nat) as u32);
    }
}

/// The name table of an export parses back to the names that were
/// written, and all of them pass the reader's validation.
proof fn lemma_rt_names(a: TextureArchive)
    requires
        round_trippable(a),
    ensures
        ({
            let b = spec_export(a);
            &&& forall|ii: int|
                0 <= ii < a.textures@.len() ==> #[trigger] name_at(
                    b,
                    name_pos(b, ta_names_start(b), ii as nat),
                ) == name_out_bytes(a.textures@[ii].name@)
            &&& ta_names_valid(b)
        }),
{
    let b = spec_export(a);
    let texs = a.textures@;
    let n = texs.len() as int;
    lemma_rt_header(a);
    let ns = ta_names_start(b);

    assert forall|ii: int| 0 <= ii < n implies name_bytes_ok(
        #[trigger] name_out_bytes(texs[ii].name@),
    ) by {
        let nm = texs[ii].name@;
        if nm.len() == 0 {
            assert forall|j: int| 0 <= j < unnamed_bytes().len() implies printable_byte(
                #[trigger] unnamed_bytes()[j],
            ) by {
                assert(unnamed_bytes()[j] == 0x75 || unnamed_bytes()[j] == 0x6E
                    || unnamed_bytes()[j] == 0x61 || unnamed_bytes()[j] == 0x6D
                    || unnamed_bytes()[j] == 0x65 || unnamed_bytes()[j] == 0x64);
            }
        } else {
            assert(vstd::utf8::is_ascii_chars(nm));
            vstd::utf8::is_ascii_chars_encode_utf8(nm);
            assert forall|j: int| 0 <= j < name_out_bytes(nm).len() implies printable_byte(
                #[trigger] name_out_bytes(nm)[j],
            ) by {
                assert(name_out_bytes(nm)[j] == nm[j] as u8);
                assert(printable_char(nm[j]));
            }
        }
    }

    let w0 = u16_be_bytes(n);
    let flag: int = if a.is_without_model {
        1
    } else {
        0
    };
    let w1 = u16_be_bytes(flag);
    let c_off = offsets_bytes(a, n as nat);
    let c_flag: Seq<u8> = if a.is_without_model {
        flags_bytes(n as nat)
    } else {
        Seq::empty()
    };
    let c_names = names_bytes(texs, n as nat);
    let raw = ta_raw_first_offset(a);
    let first = spec_first_tex_offset(a);
    let c_pad = crate::util::zeros((first - raw) as nat);
    let c_data = datas_bytes(texs, n as nat);
    assert(b == w0 + w1 + c_off + c_flag + c_names + c_pad + c_data);
    lemma_offsets_bytes_len(a, n as nat);
    assert forall|t: int| 0 <= t < c_names.len() implies #[trigger] b[ns + t] == c_names[t] by {}
    lemma_names_parse(b, ns, texs, n as nat);

    assert forall|i: int| 0 <= i < ta_count(b) implies name_bytes_ok(
        #[trigger] name_at(b, name_pos(b, ta_names_start(b), i as nat)),
    ) by {
        assert(name_at(b, name_pos(b, ns, i as nat)) == name_out_bytes(texs[i].name@));
    }
}

/// Each texture of an export extracts back from its table offset, byte
/// for byte.
#[verifier::rlimit(100)]
proof fn lemma_rt_extract(a: TextureArchive)
    requires
        round_trippable(a),
    ensures
        ({
            let b = spec_export(a);
            forall|i: int|
                0 <= i < a.textures@.len() ==> #[trigger] spec_extract(b, ta_offset(b, i)) == Ok::<
                    (u32, Seq<u8>),
                    FormatError,
                >((a.textures@[i].size, a.textures@[i].data@))
        }),
{
    let b = spec_export(a);
    let texs = a.textures@;
    let n = texs.len() as int;
    lemma_rt_header(a);
    let w0 = u16_be_bytes(n);
    let flag: int = if a.is_without_model {
        1
    } else {
        0
    };
    let w1 = u16_be_bytes(flag);
    let c_off = offsets_bytes(a, n as nat);
    let c_flag: Seq<u8> = if a.is_without_model {
        flags_bytes(n as nat)
    } else {
        Seq::empty()
    };
    let c_names = names_bytes(texs, n as nat);
    let raw = ta_raw_first_offset(a);
    let first = spec_first_tex_offset(a);
    let c_pad = crate::util::zeros((first - raw) as nat);
    let c_data = datas_bytes(texs, n as nat);
    assert(b == w0 + w1 + c_off + c_flag + c_names + c_pad + c_data);
    lemma_offsets_bytes_len(a, n as nat);
    crate::util::lemma_align_props(raw, 32);

    assert forall|i: int| 0 <= i < n implies #[trigger] spec_extract(b, ta_offset(b, i)) == Ok::<
        (u32, Seq<u8>),
        FormatError,
    >((texs[i].size, texs[i].data@)) by {
        let off = ta_tex_offset(a, i as nat);
        lemma_datas_offset(a, i as nat);
        lemma_datas_offset(a, n as nat);
        lemma_tex_offset_monotone(a, (i + 1) as nat, n as nat);
        lemma_tex_offset_monotone(a, 0, i as nat);
        assert(valid_gvr_texture(texs[i]));
        let sz = texs[i].size as int;
        assert(ta_tex_offset(a, (i + 1) as nat) == off + sz);
        assert(off + sz <= b.len());
        assert forall|j: int| 0 <= j < sz implies #[trigger] b[off + j] == texs[i].data@[j] by {
            lemma_datas_bytes_index(texs, n as nat, i as nat);
            assert(c_data[datas_bytes(texs, i as nat).len() + j] == texs[i].data@[j]);
            assert(b[first + ((off - first) + j)] == c_data[(off - first) + j]);
        }
        assert(b[off + 0] == texs[i].data@[0]);
        assert(b[off + 1] == texs[i].data@[1]);
        assert(b[off + 2] == texs[i].data@[2]);
        assert(b[off + 3] == texs[i].data@[3]);
        assert(b[off + 0x10] == texs[i].data@[0x10]);
        assert(b[off + 0x11] == texs[i].data@[0x11]);
        assert(b[off + 0x12] == texs[i].data@[0x12]);
        assert(b[off + 0x13] == texs[i].data@[0x13]);
        assert(b[off + 0x14] == texs[i].data@[0x14]);
        assert(b[off + 0x15] == texs[i].data@[0x15]);
        assert(b[off + 0x16] == texs[i].data@[0x16]);
        assert(b[off + 0x17] == texs[i].data@[0x17]);
        assert(gcix_at(b, off));
        assert(gvrt_at(b, off + 0x10));
        assert(u32_le_at(b, off + 0x14) == u32_le_at(texs[i].data@, 0x14));
        assert(spec_validate(b, off) == Ok::<(), FormatError>(()));
        assert(spec_read_texture_size(b, off) == Ok::<u32, FormatError>(texs[i].size));
        assert forall|j: int| 0 <= j < sz implies b.subrange(off, off + sz)[j]
            == texs[i].data@[j] by {
            assert(b[off + j] == texs[i].data@[j]);
        }
        assert(b.subrange(off, off + sz) =~= texs[i].data@);
    }
}

/// A printable ASCII name written out reads back as the same
/// characters, an empty name as "unnamed".
proof fn lemma_name_chars_back(nm: Seq<char>)
    requires
        valid_name_chars(nm),
    ensures
        chars_of_bytes(name_out_bytes(nm)) == (if nm.len() == 0 {
            "unnamed"@
        } else {
            nm
        }),
{
    if nm.len() == 0 {
        reveal_strlit("unnamed");
        assert(chars_of_bytes(unnamed_bytes()) =~= "unnamed"@);
    } else {
        assert(vstd::utf8::is_ascii_chars(nm));
        vstd::utf8::is_ascii_chars_encode_utf8(nm);
        assert(chars_of_bytes(name_out_bytes(nm)) =~= nm) by {
            assert forall|j: int| 0 <= j < nm.len() implies chars_of_bytes(name_out_bytes(nm))[j]
                == nm[j] by {
                assert(name_out_bytes(nm)[j] == nm[j] as u8);
                assert(printable_char(nm[j]));
            }
        }
    }
}

/// Exporting and re-reading a texture archive gives back every texture:
/// same flag, same count and order, each texture's size and bytes
/// unchanged, and each name as written, an empty name having become
/// "unnamed".
#[verifier::rlimit(100)]
pub proof fn lemma_texture_archive_round_trip(a: TextureArchive)
    requires
        round_trippable(a),
    ensures
        ({
            let b = spec_export(a);
            let texs = a.textures@;
            spec_read(b) matches Ok(model) && model.0 == a.is_without_model && model.1.len()
                == texs.len() && forall|i: int|
                0 <= i < texs.len() ==> {
                    &&& (#[trigger] model.1[i]).size == texs[i].size
                    &&& model.1[i].data == texs[i].data@
                    &&& chars_of_bytes(model.1[i].name) == (if texs[i].name@.len() == 0 {
                        "unnamed"@
                    } else {
                        texs[i].name@
                    })
                }
        }),
{
    let b = spec_export(a);
    let texs = a.textures@;
    let n = texs.len() as int;
    lemma_rt_header(a);
    lemma_rt_names(a);
    lemma_rt_extract(a);

    assert(ta_offsets_valid(b)) by {
        assert forall|i: int| 0 <= i < ta_count(b) implies (#[trigger] spec_validate(
            b,
            ta_offset(b, i),
        ) is Ok && spec_read_texture_size(b, ta_offset(b, i)) is Ok) by {
            assert(spec_extract(b, ta_offset(b, i)) is Ok);
        }
    }

    lemma_collect_all(b, texs, n as nat);
    assert(spec_read(b) == Ok::<(bool, Seq<TextureModel>), FormatError>(
        (a.is_without_model, collect_textures(b, n as nat)),
    ));

    let model = collect_textures(b, n as nat);
    assert forall|i: int| 0 <= i < n implies chars_of_bytes(#[trigger] model[i].name) == (
    if texs[i].name@.len() == 0 {
        "unnamed"@
    } else {
        texs[i].name@
    }) by {
        lemma_name_chars_back(texs[i].name@);
        assert(model[i].name == name_out_bytes(texs[i].name@));
    }
}

} // verus!
