use riders_codec::gvr_texture::GVRTexture;
use riders_codec::texture_archive::TextureArchive;
use riders_codec::FormatError;

/// Builds a well-formed GVR texture blob with the given inner size.
fn blob(inner: u32, seed: u8) -> Vec<u8> {
    let mut b: Vec<u8> = Vec::new();
    b.extend_from_slice(b"GCIX");
    b.extend_from_slice(&[0u8; 12]);
    b.extend_from_slice(b"GVRT");
    b.extend_from_slice(&inner.to_le_bytes());
    for i in 0..inner {
        b.push(seed.wrapping_add(i as u8));
    }
    b
}

/// Builds a texture from a fresh blob, named `name`.
fn tex(name: &str, inner: u32, seed: u8) -> GVRTexture {
    let d = blob(inner, seed);
    GVRTexture::new(String::from(name), d.len() as u32, d)
}

#[test]
fn texture_archive_round_trip() {
    let archive = TextureArchive {
        is_without_model: false,
        textures: vec![tex("alpha", 0x20, 1), tex("b 2", 0x07, 9), tex("", 0x10, 5)],
    };
    assert!(archive.can_export());
    let bytes = archive.export();
    let back = TextureArchive::read(&bytes).unwrap();
    assert_eq!(back.is_without_model, false);
    assert_eq!(back.textures.len(), 3);
    assert_eq!(back.textures[0].name, "alpha");
    assert_eq!(back.textures[1].name, "b 2");
    assert_eq!(back.textures[2].name, "unnamed");
    for i in 0..3 {
        assert_eq!(back.textures[i].size, archive.textures[i].size);
        assert_eq!(back.textures[i].data, archive.textures[i].data);
    }
}

#[test]
fn texture_archive_round_trip_without_model() {
    let archive = TextureArchive {
        is_without_model: true,
        textures: vec![tex("skin", 0x08, 2)],
    };
    let bytes = archive.export();
    // One flag byte per texture sits after the offset table.
    assert_eq!(bytes[0..4], [0, 1, 0, 1]);
    assert_eq!(bytes[8], 0x11);
    let back = TextureArchive::read(&bytes).unwrap();
    assert!(back.is_without_model);
    assert_eq!(back.textures.len(), 1);
    assert_eq!(back.textures[0].name, "skin");
    assert_eq!(back.textures[0].data, archive.textures[0].data);
}

#[test]
fn texture_archive_offset_table() {
    let archive = TextureArchive {
        is_without_model: false,
        textures: vec![tex("a", 0x20, 1), tex("b", 0x08, 2)],
    };
    // Header: 4 + 2 * 4 + ("a" + NUL) + ("b" + NUL) = 16, aligned to 32.
    let offsets = archive.calculate_offset_table();
    assert_eq!(offsets, vec![32, 32 + 0x38]);
    let bytes = archive.export();
    assert_eq!(&bytes[32..32 + 0x38], &archive.textures[0].data[..]);
}

#[test]
fn texture_archive_model_flag_two_is_structural_error() {
    // Count 1, raw model flag 2: refused before any offset is read.
    let buf = vec![0u8, 1, 0, 2];
    assert!(matches!(TextureArchive::read(&buf), Err(FormatError::InvalidArchive)));
}

#[test]
fn texture_archive_short_header_is_eof() {
    assert!(matches!(TextureArchive::read(&vec![0, 1]), Err(FormatError::UnexpectedEof)));
    // Count 2, flag 0, but no room for two offsets.
    assert!(matches!(TextureArchive::read(&vec![0, 2, 0, 0]), Err(FormatError::UnexpectedEof)));
}

#[test]
fn texture_archive_unprintable_name_is_invalid() {
    let archive = TextureArchive {
        is_without_model: false,
        textures: vec![tex("ab", 0x04, 1)],
    };
    let mut bytes = archive.export();
    // The name table starts right after the single offset entry.
    assert_eq!(bytes[8], b'a');
    bytes[8] = 0x01;
    assert!(matches!(TextureArchive::read(&bytes), Err(FormatError::InvalidName)));
}

#[test]
fn texture_archive_bad_offset_is_invalid() {
    let archive = TextureArchive {
        is_without_model: false,
        textures: vec![tex("ab", 0x04, 1)],
    };
    let mut bytes = archive.export();
    // Point the only offset at the header, where no GVR magic lies.
    bytes[4..8].copy_from_slice(&[0, 0, 0, 0]);
    assert!(matches!(TextureArchive::read(&bytes), Err(FormatError::InvalidArchive)));
}

#[test]
fn texture_archive_skips_texture_cut_short() {
    // A texture whose declared size overruns the buffer passes the
    // closing header probe but fails extraction, so it is passed over.
    let mut buf: Vec<u8> = vec![0, 1, 0, 0, 0, 0, 0, 16, b't', 0];
    buf.resize(16, 0);
    buf.extend_from_slice(&blob(0x10, 1)[..0x18]);
    assert_eq!(buf.len(), 16 + 0x18);
    let back = TextureArchive::read(&buf).unwrap();
    assert_eq!(back.textures.len(), 0);
}

#[test]
fn texture_archive_can_export_needs_a_texture() {
    let empty = TextureArchive::new_empty();
    assert!(!empty.can_export());
    assert!(!TextureArchive::default().can_export());
    let one = TextureArchive {
        is_without_model: false,
        textures: vec![tex("x", 0, 0)],
    };
    assert!(one.can_export());
}
