//! A single GVR texture: a byte buffer opening with the "GCIX" and
//! "GVRT" magic markers and carrying its own length.
//!
//! Binary layout, relative to the texture's first byte: bytes 0x00-0x03
//! hold "GCIX"; 0x04-0x0F are reserved; 0x10-0x13 hold "GVRT";
//! 0x14-0x17 hold the little-endian inner data size; the payload
//! follows. The texture's full size is the inner size plus 0x18, the
//! combined length of the two header blocks and the size field.

use crate::endian::{read_u32_le, u32_le_at};
use crate::FormatError;
use vstd::prelude::*;

verus! {

/// True when the four bytes at `b[i..i + 4]` spell "GCIX".
pub open spec fn gcix_at(b: Seq<u8>, i: int) -> bool {
    &&& b[i] == 0x47u8
    &&& b[i + 1] == 0x43u8
    &&& b[i + 2] == 0x49u8
    &&& b[i + 3] == 0x58u8
}

/// True when the four bytes at `b[i..i + 4]` spell "GVRT".
pub open spec fn gvrt_at(b: Seq<u8>, i: int) -> bool {
    &&& b[i] == 0x47u8
    &&& b[i + 1] == 0x56u8
    &&& b[i + 2] == 0x52u8
    &&& b[i + 3] == 0x54u8
}

/// True when a whole GVR header sits at position `i` of `b`: "GCIX" at
/// `i`, "GVRT" at `i + 0x10`, both fully inside the buffer.
pub open spec fn valid_gvr_header(b: Seq<u8>, i: int) -> bool {
    &&& i + 0x14 <= b.len()
    &&& gcix_at(b, i)
    &&& gvrt_at(b, i + 0x10)
}

/// What probing for a GVR header at position `i` of `b` returns: the
/// checks run in order, and the first failing read or mismatching
/// marker decides the error.
pub open spec fn spec_validate(b: Seq<u8>, i: int) -> Result<(), FormatError> {
    if i + 4 > b.len() {
        Err(FormatError::UnexpectedEof)
    } else if !gcix_at(b, i) {
        Err(FormatError::InvalidMagic)
    } else if i + 0x14 > b.len() {
        Err(FormatError::UnexpectedEof)
    } else if !gvrt_at(b, i + 0x10) {
        Err(FormatError::InvalidMagic)
    } else {
        Ok(())
    }
}

/// What reading the declared texture size at position `i` of `b`
/// returns: the little-endian inner size at `i + 0x14`, plus the 0x18
/// header bytes it does not count.
pub open spec fn spec_read_texture_size(b: Seq<u8>, i: int) -> Result<u32, FormatError> {
    if i + 0x18 > b.len() {
        Err(FormatError::UnexpectedEof)
    } else if u32_le_at(b, i + 0x14) + 0x18 > u32::MAX {
        Err(FormatError::InvalidArchive)
    } else {
        Ok((u32_le_at(b, i + 0x14) + 0x18) as u32)
    }
}

/// What extracting a texture at position `i` of `b` returns: its full
/// size and its bytes, after the header probe and the size read, each
/// of which can fail first.
pub open spec fn spec_extract(b: Seq<u8>, i: int) -> Result<(u32, Seq<u8>), FormatError> {
    match spec_validate(b, i) {
        Err(e) => Err(e),
        Ok(_) => match spec_read_texture_size(b, i) {
            Err(e) => Err(e),
            Ok(size) => if i + size > b.len() {
                Err(FormatError::UnexpectedEof)
            } else {
                Ok((size, b.subrange(i, i + size as int)))
            },
        },
    }
}

/// A buffer of data that is a GVR texture.
#[derive(Clone)]
pub struct GVRTexture {
    /// Name of the texture file, without the file extension.
    pub name: String,
    /// The full size of the texture in bytes, both header blocks included.
    pub size: u32,
    /// The texture data, starting at the texture's own first byte.
    pub data: Vec<u8>,
}

impl Default for GVRTexture {
    /// An empty, unnamed texture of size zero.
    fn default() -> (r: Self)
        ensures
            r.name@ == Seq::<char>::empty(),
            r.size == 0,
            r.data@ == Seq::<u8>::empty(),
    {
        GVRTexture { name: String::new(), size: 0, data: Vec::new() }
    }
}

impl GVRTexture {
    /// Constructs a `GVRTexture` directly from a known `size`, `data`
    /// buffer, and texture file `name`, with no validity checks.
    pub fn new(name: String, size: u32, data: Vec<u8>) -> (r: Self)
        ensures
            r.name@ == name@,
            r.size == size,
            r.data@ == data@,
    {
        Self { name, size, data }
    }

    /// Probes `data` at `pos` for a GVR header: "GCIX" at `pos` and
    /// "GVRT" at `pos + 0x10`. A read past the end of the buffer fails
    /// with `UnexpectedEof`, a mismatching marker with `InvalidMagic`.
    /// The probe is read-only, so it can be repeated at will.
    pub fn validate(data: &Vec<u8>, pos: usize) -> (r: Result<(), FormatError>)
        ensures
            r == spec_validate(data@, pos as int),
            r is Ok <==> valid_gvr_header(data@, pos as int),
    {
        let n = data.len();
        if n < 4 || pos > n - 4 {
            return Err(FormatError::UnexpectedEof);
        }
        if !(data[pos] == 0x47 && data[pos + 1] == 0x43 && data[pos + 2] == 0x49 && data[pos + 3]
            == 0x58) {
            return Err(FormatError::InvalidMagic);
        }
        if n < 0x14 || pos > n - 0x14 {
            return Err(FormatError::UnexpectedEof);
        }
        if !(data[pos + 0x10] == 0x47 && data[pos + 0x11] == 0x56 && data[pos + 0x12] == 0x52
            && data[pos + 0x13] == 0x54) {
            return Err(FormatError::InvalidMagic);
        }
        Ok(())
    }

    /// Reads the texture's declared full size at `pos`: the
    /// little-endian inner size stored at `pos + 0x14`, plus the 0x18
    /// header bytes it does not count. Fails with `UnexpectedEof` when
    /// the size field is cut off, and with `InvalidArchive` when the
    /// declared size is too large for the full size to fit in 32 bits.
    pub fn read_texture_size(data: &Vec<u8>, pos: usize) -> (r: Result<u32, FormatError>)
        ensures
            r == spec_read_texture_size(data@, pos as int),
    {
        let n = data.len();
        if n < 0x18 || pos > n - 0x18 {
            return Err(FormatError::UnexpectedEof);
        }
        let inner = read_u32_le(data, pos + 0x14);
        if inner > u32::MAX - 0x18 {
            return Err(FormatError::InvalidArchive);
        }
        Ok(inner + 0x18)
    }

    /// Extracts the texture lying at `pos` in `data` into an owned
    /// buffer, under the given `name`: probes the header, reads the
    /// declared size, and copies exactly that many bytes from `pos`.
    /// Fails with `UnexpectedEof` when fewer bytes remain.
    pub fn new_from_cursor(name: String, data: &Vec<u8>, pos: usize) -> (r: Result<
        Self,
        FormatError,
    >)
        ensures
            match spec_extract(data@, pos as int) {
                Ok((size, bytes)) => r matches Ok(t) && t.size == size && t.data@ == bytes
                    && t.name@ == name@,
                Err(e) => r == Err::<GVRTexture, FormatError>(e),
            },
    {
        match Self::validate(data, pos) {
            Err(e) => {
                return Err(e);
            },
            Ok(_) => {},
        }
        let size = match Self::read_texture_size(data, pos) {
            Err(e) => {
                return Err(e);
            },
            Ok(s) => s,
        };
        let n = data.len();
        let size_usize = size as usize;
        if size_usize > n || pos > n - size_usize {
            return Err(FormatError::UnexpectedEof);
        }
        let mut buf: Vec<u8> = Vec::new();
        let mut k: usize = 0;
        while k < size_usize
            invariant
                size_usize == size,
                pos + size_usize <= data.len(),
                k <= size_usize,
                buf@ =~= data@.subrange(pos as int, pos + k),
            decreases size_usize - k,
        {
            buf.push(data[pos + k]);
            k = k + 1;
        }
        proof {
            assert(buf@ =~= data@.subrange(pos as int, pos + size as int));
        }
        Ok(GVRTexture::new(name, size, buf))
    }
}

/// A well-formed texture blob is accepted whole: if a GVR header sits
/// at `i`, the declared inner size is `s`, and the buffer holds the
/// full `s + 0x18` bytes, then the probe succeeds, the size read
/// returns `s + 0x18`, and extraction returns exactly that many bytes
/// starting at `i`.
pub proof fn lemma_gvr_blob_accepted(b: Seq<u8>, i: int, s: int)
    requires
        0 <= i,
        valid_gvr_header(b, i),
        u32_le_at(b, i + 0x14) == s,
        s + 0x18 <= u32::MAX,
        i + s + 0x18 <= b.len(),
    ensures
        spec_validate(b, i) == Ok::<(), FormatError>(()),
        spec_read_texture_size(b, i) == Ok::<u32, FormatError>((s + 0x18) as u32),
        spec_extract(b, i) matches Ok((size, bytes)) && size == s + 0x18 && bytes == b.subrange(
            i,
            i + s + 0x18,
        ) && bytes.len() == s + 0x18,
{
    assert(0 <= u32_le_at(b, i + 0x14));
}

} // verus!
