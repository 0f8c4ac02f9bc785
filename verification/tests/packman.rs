use riders_codec::packman_archive::{PackManArchive, PackManFile, PackManFolder};
use riders_codec::FormatError;

/// A folder with a valid ID and the given file buffers.
fn folder(id: u16, files: Vec<Vec<u8>>) -> PackManFolder {
    PackManFolder {
        is_id_valid: true,
        id,
        file_count: 0,
        files: files.into_iter().map(PackManFile::new).collect(),
    }
}

/// A payload of `len` bytes counting up from `seed`.
fn payload(len: usize, seed: u8) -> Vec<u8> {
    (0..len).map(|i| seed.wrapping_add(i as u8)).collect()
}

#[test]
fn packman_round_trip() {
    let archive = PackManArchive {
        folders: vec![
            folder(7, vec![Vec::new(), payload(32, 1)]),
            folder(300, vec![payload(64, 9)]),
        ],
    };
    let bytes = archive.export().unwrap();
    let back = PackManArchive::read(&bytes).unwrap();
    assert_eq!(back.folders.len(), 2);
    assert_eq!(back.folders[0].id, 7);
    assert_eq!(back.folders[1].id, 300);
    assert!(back.folders[0].is_id_valid);
    assert!(back.folders[1].is_id_valid);
    assert_eq!(back.folders[0].file_count, 2);
    assert_eq!(back.folders[1].file_count, 1);
    assert_eq!(back.folders[0].files.len(), 2);
    assert_eq!(back.folders[1].files.len(), 1);
    assert!(back.folders[0].files[0].data.is_empty());
    assert_eq!(back.folders[0].files[1].data, payload(32, 1));
    assert_eq!(back.folders[1].files[0].data, payload(64, 9));
    assert_eq!(back.get_all_file_count(), 3);
}

#[test]
fn packman_export_layout() {
    let archive = PackManArchive {
        folders: vec![
            folder(7, vec![Vec::new(), payload(32, 1)]),
            folder(300, vec![payload(64, 9)]),
        ],
    };
    let bytes = archive.export().unwrap();
    // Folder count, then one file count byte per folder, padded to 4.
    assert_eq!(bytes[0..4], [0, 0, 0, 2]);
    assert_eq!(bytes[4..8], [2, 1, 0, 0]);
    // First-file indices 0 and 2, then the folder IDs 7 and 300.
    assert_eq!(bytes[8..12], [0, 0, 0, 2]);
    assert_eq!(bytes[12..16], [0, 7, 0x01, 0x2C]);
    // The offset table: zero for the empty slot, then 32 and 64.
    assert_eq!(bytes[16..20], [0, 0, 0, 0]);
    assert_eq!(bytes[20..24], [0, 0, 0, 32]);
    assert_eq!(bytes[24..28], [0, 0, 0, 64]);
    // The files land at the offsets the table assigned them.
    assert_eq!(bytes.len(), 128);
    assert_eq!(&bytes[32..64], &payload(32, 1)[..]);
    assert_eq!(&bytes[64..128], &payload(64, 9)[..]);
}

#[test]
fn packman_empty_archive_round_trip() {
    let archive = PackManArchive::new_empty();
    let bytes = archive.export().unwrap();
    let back = PackManArchive::read(&bytes).unwrap();
    assert_eq!(back.folders.len(), 0);
}

#[test]
fn packman_backwards_offsets_are_invalid() {
    // One folder of two files, whose second non-zero offset lies before
    // the first: the implied size would be negative.
    let mut buf: Vec<u8> = Vec::new();
    buf.extend_from_slice(&[0, 0, 0, 1]);
    buf.push(2);
    buf.extend_from_slice(&[0, 0, 0]);
    buf.extend_from_slice(&[0, 0]);
    buf.extend_from_slice(&[0, 5]);
    buf.extend_from_slice(&[0, 0, 0, 100]);
    buf.extend_from_slice(&[0, 0, 0, 50]);
    assert!(matches!(PackManArchive::read(&buf), Err(FormatError::InvalidArchive)));
}

#[test]
fn packman_short_buffers_are_eof() {
    assert!(matches!(
        PackManArchive::read(&vec![0, 0, 0]),
        Err(FormatError::UnexpectedEof)
    ));
    // Folder count 2 but only one file count byte.
    assert!(matches!(
        PackManArchive::read(&vec![0, 0, 0, 2, 1]),
        Err(FormatError::UnexpectedEof)
    ));
    // ID table cut off.
    assert!(matches!(
        PackManArchive::read(&vec![0, 0, 0, 1, 0, 0, 0, 0]),
        Err(FormatError::UnexpectedEof)
    ));
    // Offset table cut off.
    assert!(matches!(
        PackManArchive::read(&vec![0, 0, 0, 1, 1, 0, 0, 0, 0, 0, 0, 9, 0, 0]),
        Err(FormatError::UnexpectedEof)
    ));
}

#[test]
fn packman_truncated_last_file_reads_to_buffer_end() {
    // The last file's size is implied by the end of the buffer, so a
    // truncated buffer yields a shorter file, not an error.
    let archive = PackManArchive {
        folders: vec![folder(1, vec![payload(32, 1)])],
    };
    let mut bytes = archive.export().unwrap();
    bytes.truncate(bytes.len() - 1);
    let back = PackManArchive::read(&bytes).unwrap();
    assert_eq!(back.folders[0].files[0].data, payload(32, 1)[..31].to_vec());
}

#[test]
fn packman_file_data_past_buffer_is_eof() {
    let archive = PackManArchive {
        folders: vec![folder(1, vec![payload(32, 1), payload(32, 5)])],
    };
    let mut bytes = archive.export().unwrap();
    assert_eq!(bytes.len(), 96);
    // Push the second file's offset past the end of the buffer: the
    // first file's implied end can no longer be read.
    bytes[16..20].copy_from_slice(&[0, 0, 0, 200]);
    assert!(matches!(PackManArchive::read(&bytes), Err(FormatError::UnexpectedEof)));
}

#[test]
fn packman_export_needs_valid_ids() {
    let mut f = folder(0, vec![payload(32, 1)]);
    f.is_id_valid = false;
    let archive = PackManArchive { folders: vec![f] };
    assert_eq!(archive.export(), Err(FormatError::InvalidArchive));
}

#[test]
fn packman_export_needs_a_nonempty_file() {
    let archive = PackManArchive {
        folders: vec![folder(3, vec![Vec::new(), Vec::new()])],
    };
    assert_eq!(archive.export(), Err(FormatError::InvalidArchive));
}

#[test]
fn packman_export_refuses_overfull_folder() {
    let mut files: Vec<Vec<u8>> = vec![vec![0u8; 32]];
    files.resize(256, Vec::new());
    let archive = PackManArchive { folders: vec![folder(1, files)] };
    assert_eq!(archive.export(), Err(FormatError::InvalidArchive));
}

#[test]
fn packman_constructors() {
    let f = PackManFile::new(vec![1, 2]);
    assert_eq!(f.data, vec![1, 2]);
    assert_eq!(f.exported_offset, 0);
    let d = PackManFolder::new(5);
    assert!(!d.is_id_valid);
    assert_eq!(d.id, 0);
    assert_eq!(d.file_count, 5);
    assert!(d.files.is_empty());
    let a = PackManArchive::new_empty();
    assert!(a.folders.is_empty());
    let df = PackManFile::default();
    assert!(df.data.is_empty());
    let dd = PackManFolder::default();
    assert!(!dd.is_id_valid && dd.file_count == 0);
    assert!(PackManArchive::default().folders.is_empty());
}

#[test]
fn packman_round_trip_pads_odd_file_lengths() {
    // A file whose length is not a multiple of 32 reads back with the
    // zero padding that rounded it up to the next boundary.
    let archive = PackManArchive {
        folders: vec![folder(2, vec![payload(5, 1)])],
    };
    let bytes = archive.export().unwrap();
    let back = PackManArchive::read(&bytes).unwrap();
    let mut expected = payload(5, 1);
    expected.resize(32, 0);
    assert_eq!(back.folders[0].files[0].data, expected);
}
