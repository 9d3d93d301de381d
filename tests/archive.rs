use srszip::archive::{ZipError, ZipWriter};
use srszip::cursor::{Cursor, SinkError};
use srszip::encoding::checksum;
use std::io::Read;

fn u16_at(b: &[u8], i: usize) -> u16 {
    u16::from_le_bytes([b[i], b[i + 1]])
}

fn u32_at(b: &[u8], i: usize) -> u32 {
    u32::from_le_bytes([b[i], b[i + 1], b[i + 2], b[i + 3]])
}

#[test]
fn add_dir() {
    let mut zip = ZipWriter::new(Cursor::new(Vec::new()));

    let r = zip.add_directory("test/");
    assert_eq!(r.is_ok(), true);

    assert_eq!(zip.writee().get_ref().len(), 35);
}

#[test]
fn add_file() {
    let mut zip = ZipWriter::new(Cursor::new(Vec::new()));

    let r = zip.add_file("test", &[b'f', b'o', b'o']);
    assert_eq!(r.is_ok(), true);

    assert_eq!(zip.writee().get_ref().len(), 37);
}

#[test]
fn checksum_of_empty_is_zero() {
    assert_eq!(checksum(&[]), 0);
}

#[test]
fn checksum_of_foo() {
    assert_eq!(checksum(b"foo"), 0x8C736521);
    assert_eq!(checksum(b"123456789"), 0xCBF43926);
}

#[test]
fn directory_header_bytes() {
    let mut zip = ZipWriter::new(Cursor::new(Vec::new()));
    zip.add_directory("test/").unwrap();
    let expected: Vec<u8> = vec![
        0x50, 0x4b, 0x03, 0x04, // signature
        0x14, 0x03, // version made by: Unix, 2.0
        0, 0, // flags
        0, 0, // stored
        0, 0, 0, 0, // time, date
        0, 0, 0, 0, // crc-32
        0, 0, 0, 0, // compressed size
        0, 0, 0, 0, // uncompressed size
        5, 0, // name length
        0, 0, // extra length
        b't', b'e', b's', b't', b'/',
    ];
    assert_eq!(zip.writee().get_ref(), &expected);
    assert_eq!(zip.writee().position(), 35);
}

#[test]
fn file_header_is_patched() {
    let mut zip = ZipWriter::new(Cursor::new(Vec::new()));
    zip.add_directory("d/").unwrap();
    let start = zip.writee().position();
    zip.add_file("d/foo", b"foo").unwrap();
    let b = zip.writee().get_ref().clone();
    assert_eq!(u32_at(&b, start + 14), 0x8C736521);
    assert_eq!(u32_at(&b, start + 18), 3);
    assert_eq!(u32_at(&b, start + 22), 3);
    assert_eq!(&b[start + 30..start + 35], b"d/foo");
    assert_eq!(&b[start + 35..], b"foo");
    assert_eq!(zip.writee().position(), b.len());
}

#[test]
fn empty_file_has_zero_checksum() {
    let mut zip = ZipWriter::new(Cursor::new(Vec::new()));
    zip.add_file("e", b"").unwrap();
    let b = zip.writee().get_ref().clone();
    assert_eq!(b.len(), 31);
    assert_eq!(u32_at(&b, 14), 0);
    assert_eq!(u32_at(&b, 18), 0);
}

#[test]
fn non_ascii_name_sets_flag() {
    let mut zip = ZipWriter::new(Cursor::new(Vec::new()));
    zip.add_file("caf\u{e9}", b"x").unwrap();
    let b = zip.writee().get_ref().clone();
    assert_eq!(u16_at(&b, 6), 1 << 11);
    assert_eq!(u16_at(&b, 26), 5);
    let mut plain = ZipWriter::new(Cursor::new(Vec::new()));
    plain.add_file("cafe", b"x").unwrap();
    assert_eq!(u16_at(plain.writee().get_ref(), 6), 0);
}

#[test]
fn end_record_counts_entries() {
    let mut zip = ZipWriter::new(Cursor::new(Vec::new()));
    zip.add_directory("a/").unwrap();
    zip.add_directory("a/b/").unwrap();
    zip.add_file("a/b/c", b"hello").unwrap();
    zip.finish().unwrap();
    let b = zip.writee().get_ref().clone();
    let end = b.len() - 28;
    assert_eq!(u32_at(&b, end), 0x06054b50);
    assert_eq!(u16_at(&b, end + 8), 3);
    assert_eq!(u16_at(&b, end + 10), 3);
    assert_eq!(u16_at(&b, end + 20), 6);
    assert_eq!(&b[end + 22..], b"srszip");
}

#[test]
fn central_directory_follows_last_entry() {
    let mut zip = ZipWriter::new(Cursor::new(Vec::new()));
    zip.add_directory("x/").unwrap();
    zip.add_file("x/y", b"content").unwrap();
    let content_end = zip.writee().position();
    zip.finish().unwrap();
    let b = zip.writee().get_ref().clone();
    let end = b.len() - 28;
    assert_eq!(u32_at(&b, end + 16) as usize, content_end);
    assert_eq!(u32_at(&b, content_end), 0x02014b50);
    assert_eq!(u32_at(&b, end + 12) as usize, end - content_end);
    // the second central header points back at the file's local header
    let second = content_end + 46 + 2;
    assert_eq!(u32_at(&b, second), 0x02014b50);
    assert_eq!(u32_at(&b, second + 38), (0o100664u32) << 16);
    assert_eq!(u32_at(&b, second + 42), 32);
    assert_eq!(u32_at(&b, content_end + 38), (0o40775u32) << 16);
}

#[test]
fn empty_archive() {
    let mut zip = ZipWriter::new(Cursor::new(Vec::new()));
    zip.finish().unwrap();
    let b = zip.writee().get_ref().clone();
    assert_eq!(b.len(), 28);
    assert_eq!(u16_at(&b, 8), 0);
    assert_eq!(u32_at(&b, 12), 0);
    assert_eq!(u32_at(&b, 16), 0);
}

#[test]
fn finish_twice_changes_nothing() {
    let mut zip = ZipWriter::new(Cursor::new(Vec::new()));
    zip.add_file("f", b"data").unwrap();
    assert_eq!(zip.finish(), Ok(()));
    let once = zip.writee().get_ref().clone();
    assert_eq!(zip.finish(), Err(ZipError::Finalized));
    assert_eq!(zip.writee().get_ref(), &once);
}

#[test]
fn add_after_finish_is_refused() {
    let mut zip = ZipWriter::new(Cursor::new(Vec::new()));
    zip.finish().unwrap();
    let once = zip.writee().get_ref().clone();
    assert_eq!(zip.add_directory("d/"), Err(ZipError::Finalized));
    assert_eq!(zip.add_file("f", b"x"), Err(ZipError::Finalized));
    assert_eq!(zip.writee().get_ref(), &once);
}

#[test]
fn position_overflow_is_an_io_error() {
    let mut c = Cursor::new(Vec::new());
    c.set_position(usize::MAX - 10);
    let mut zip = ZipWriter::new(c);
    assert_eq!(
        zip.add_directory("test/"),
        Err(ZipError::Io(SinkError::PositionOverflow))
    );
    assert_eq!(zip.writee().get_ref().len(), 0);
    assert_eq!(
        zip.finish(),
        Err(ZipError::Io(SinkError::PositionOverflow))
    );
    assert_eq!(zip.finish(), Err(ZipError::Finalized));
}

#[test]
fn cursor_overwrites_and_fills_gaps() {
    let mut c = Cursor::new(vec![1, 2, 3, 4]);
    c.set_position(1);
    assert_eq!(c.write_all(&[9, 9]), Ok(()));
    assert_eq!(c.get_ref(), &vec![1, 9, 9, 4]);
    c.set_position(6);
    assert_eq!(c.write_all(&[7]), Ok(()));
    assert_eq!(c.position(), 7);
    assert_eq!(c.into_inner(), vec![1, 9, 9, 4, 0, 0, 7]);
}

#[test]
fn reader_lists_entries_in_order() {
    let mut zip = ZipWriter::new(Cursor::new(Vec::new()));
    zip.add_directory("dir/").unwrap();
    zip.add_file("dir/a.txt", b"alpha").unwrap();
    zip.add_file("b.bin", &[0u8, 1, 2, 255]).unwrap();
    zip.add_file("empty", b"").unwrap();
    zip.finish().unwrap();
    let bytes = zip.writee().get_ref().clone();

    let mut archive = zip::ZipArchive::new(std::io::Cursor::new(bytes)).unwrap();
    assert_eq!(archive.len(), 4);
    let expected: Vec<(&str, Vec<u8>)> = vec![
        ("dir/", vec![]),
        ("dir/a.txt", b"alpha".to_vec()),
        ("b.bin", vec![0, 1, 2, 255]),
        ("empty", vec![]),
    ];
    for (i, (name, content)) in expected.iter().enumerate() {
        let mut f = archive.by_index(i).unwrap();
        assert_eq!(f.name(), *name);
        assert_eq!(f.size(), content.len() as u64);
        assert_eq!(f.compressed_size(), content.len() as u64);
        assert_eq!(f.crc32(), checksum(content));
        assert_eq!(f.is_dir(), name.ends_with('/'));
        let mut read = Vec::new();
        f.read_to_end(&mut read).unwrap();
        assert_eq!(&read, content);
    }
    assert_eq!(archive.comment(), b"srszip");
}
