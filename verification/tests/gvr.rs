use riders_codec::endian::{push_u16_be, push_u32_be, read_u16_be, read_u32_be, read_u32_le};
use riders_codec::gvr_texture::GVRTexture;
use riders_codec::FormatError;

/// Builds a well-formed GVR texture blob with the given inner size: the
/// two magic blocks, the little-endian inner size, and `inner` payload
/// bytes counting up from `seed`.
fn make_gvr_blob(inner: u32, seed: u8) -> Vec<u8> {
    let mut b: Vec<u8> = Vec::new();
    b.extend_from_slice(b"GCIX");
    b.extend_from_slice(&[0u8; 12]);
    b.extend_from_slice(b"GVRT");
    b.extend_from_slice(&inner.to_le_bytes());
    for i in 0..inner {
        b.push(seed.wrapping_add(i as u8));
    }
    b
}

#[test]
fn endian_words_round_trip() {
    let mut buf: Vec<u8> = Vec::new();
    push_u16_be(&mut buf, 0xBEEF);
    push_u32_be(&mut buf, 0x12345678);
    assert_eq!(buf, vec![0xBE, 0xEF, 0x12, 0x34, 0x56, 0x78]);
    assert_eq!(read_u16_be(&buf, 0), 0xBEEF);
    assert_eq!(read_u32_be(&buf, 2), 0x12345678);
    let le = vec![0x78, 0x56, 0x34, 0x12];
    assert_eq!(read_u32_le(&le, 0), 0x12345678);
}

#[test]
fn gvr_valid_blob_is_accepted() {
    let blob = make_gvr_blob(0x20, 7);
    assert!(GVRTexture::validate(&blob, 0).is_ok());
    assert_eq!(GVRTexture::read_texture_size(&blob, 0), Ok(0x20 + 0x18));
    let tex = GVRTexture::new_from_cursor(String::from("water"), &blob, 0).unwrap();
    assert_eq!(tex.name, "water");
    assert_eq!(tex.size, 0x38);
    assert_eq!(tex.data.len(), 0x38);
    assert_eq!(tex.data, blob);
}

#[test]
fn gvr_validate_is_repeatable_and_positional() {
    let mut buf = vec![0xAAu8; 5];
    buf.extend_from_slice(&make_gvr_blob(0, 0));
    assert!(GVRTexture::validate(&buf, 5).is_ok());
    assert!(GVRTexture::validate(&buf, 5).is_ok());
    assert_eq!(GVRTexture::validate(&buf, 0), Err(FormatError::InvalidMagic));
}

#[test]
fn gvr_wrong_second_magic_is_rejected() {
    let mut blob = make_gvr_blob(4, 0);
    blob[0x10] = b'X';
    assert_eq!(GVRTexture::validate(&blob, 0), Err(FormatError::InvalidMagic));
    assert!(matches!(
        GVRTexture::new_from_cursor(String::new(), &blob, 0),
        Err(FormatError::InvalidMagic)
    ));
}

#[test]
fn gvr_truncated_before_size_field_is_rejected() {
    let blob = make_gvr_blob(4, 0);
    let cut = blob[..0x16].to_vec();
    assert!(GVRTexture::validate(&cut, 0).is_ok());
    assert_eq!(GVRTexture::read_texture_size(&cut, 0), Err(FormatError::UnexpectedEof));
    assert!(matches!(
        GVRTexture::new_from_cursor(String::new(), &cut, 0),
        Err(FormatError::UnexpectedEof)
    ));
}

#[test]
fn gvr_truncated_payload_is_rejected() {
    let blob = make_gvr_blob(0x10, 3);
    let cut = blob[..blob.len() - 1].to_vec();
    assert!(matches!(
        GVRTexture::new_from_cursor(String::new(), &cut, 0),
        Err(FormatError::UnexpectedEof)
    ));
}

#[test]
fn gvr_new_keeps_fields() {
    let tex = GVRTexture::new(String::from("name"), 3, vec![1, 2, 3]);
    assert_eq!(tex.name, "name");
    assert_eq!(tex.size, 3);
    assert_eq!(tex.data, vec![1, 2, 3]);
    let copy = tex.clone();
    assert_eq!(copy.name, "name");
    assert_eq!(copy.data, vec![1, 2, 3]);
    let blank = GVRTexture::default();
    assert!(blank.name.is_empty() && blank.size == 0 && blank.data.is_empty());
}
