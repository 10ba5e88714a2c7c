use std::io::Read;

use manga_downloader::archive::{read_archive, write_archive};

#[test]
fn archive_round_trip() {
    let payloads = vec![vec![1u8, 2, 3], vec![], vec![255u8; 1000]];
    let bytes = write_archive(&payloads).expect("archive written");
    let entries = read_archive(&bytes).expect("archive read back");
    assert_eq!(entries.len(), 3);
    for (i, (name, data)) in entries.iter().enumerate() {
        assert_eq!(name, &format!("{}.jpg", i));
        assert_eq!(data, &payloads[i]);
    }
}

#[test]
fn archive_of_no_payloads_is_empty() {
    let bytes = write_archive(&vec![]).expect("archive written");
    let entries = read_archive(&bytes).expect("archive read back");
    assert!(entries.is_empty());
}

#[test]
fn garbage_bytes_are_not_an_archive() {
    assert!(read_archive(&vec![0u8, 1, 2, 3, 4]).is_none());
}

#[test]
fn archive_is_stored_and_readable_by_the_zip_crate() {
    let payloads = vec![b"first".to_vec(), b"second".to_vec()];
    let bytes = write_archive(&payloads).expect("archive written");
    let mut za = zip::read::ZipArchive::new(std::io::Cursor::new(bytes)).expect("valid zip");
    assert_eq!(za.len(), 2);
    for i in 0..2 {
        let mut f = za.by_index(i).expect("entry");
        assert_eq!(f.name(), format!("{}.jpg", i));
        assert_eq!(f.compression(), zip::CompressionMethod::Stored);
        let mut data = Vec::new();
        f.read_to_end(&mut data).expect("entry contents");
        assert_eq!(data, payloads[i]);
    }
}
