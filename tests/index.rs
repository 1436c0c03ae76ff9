use wpress_oxide::{
    end_block, Header, HeaderError, Index, Location, PathSanitizationError, Scan, HEADER_SIZE,
};

trait LocateOk {
    fn locate_ok(&self, target: &str) -> Option<Location>;
}

impl LocateOk for Index {
    /// Looks `target` up in an index whose entries all have safe paths.
    fn locate_ok(&self, target: &str) -> Option<Location> {
        self.locate(target).unwrap()
    }
}

/// Lays out an archive in memory: each header block, its payload, then the
/// closing block.
fn archive(entries: &[(&str, &str, &[u8])]) -> Vec<u8> {
    let mut out = Vec::new();
    for (prefix, name, payload) in entries {
        let h = Header::from_metadata(name, payload.len() as u64, 1_600_000_000, prefix).unwrap();
        out.extend_from_slice(&h.bytes);
        out.extend_from_slice(payload);
    }
    out.extend_from_slice(&end_block());
    out
}

/// Reads an in-memory archive the way a reader walks a file: one header
/// block at a time, skipping each payload.
fn index_of(data: &[u8]) -> Result<Index, HeaderError> {
    let mut index = Index::new();
    let mut pos = 0usize;
    loop {
        let end = usize::min(pos + HEADER_SIZE, data.len());
        let block = if pos <= data.len() { &data[pos..end] } else { &data[0..0] };
        match index.feed(block)? {
            Scan::End => return Ok(index),
            Scan::Entry(size) => pos += HEADER_SIZE + size as usize,
        }
    }
}

#[test]
fn end_block_is_all_zero() {
    let b = end_block();
    assert_eq!(b.len(), HEADER_SIZE);
    assert!(b.iter().all(|x| *x == 0));
}

#[test]
fn archive_of_only_the_closing_block_is_empty() {
    let index = index_of(&vec![0u8; HEADER_SIZE]).unwrap();
    assert_eq!(index.files_count(), 0);
    assert!(index.headers().is_empty());
    assert_eq!(index.locate_ok("anything"), None);
}

#[test]
fn stream_shorter_than_a_header_is_incomplete() {
    assert_eq!(index_of(&vec![0u8; HEADER_SIZE - 1]).err(), Some(HeaderError::IncompleteHeader));
    assert_eq!(index_of(&[]).err(), Some(HeaderError::IncompleteHeader));
}

#[test]
fn archive_without_closing_block_is_incomplete() {
    let mut data = archive(&[("", "a.txt", b"abc")]);
    data.truncate(data.len() - HEADER_SIZE);
    assert_eq!(index_of(&data).err(), Some(HeaderError::IncompleteHeader));
}

#[test]
fn feed_keeps_index_on_error() {
    let mut index = Index::new();
    assert_eq!(index.feed(&[1, 2, 3]), Err(HeaderError::IncompleteHeader));
    assert_eq!(index.files_count(), 0);
    let h = Header::from_metadata("f", 3, 1, "").unwrap();
    assert_eq!(index.feed(&h.bytes), Ok(Scan::Entry(3)));
    assert_eq!(index.files_count(), 1);
    assert_eq!(index.feed(&vec![0u8; HEADER_SIZE]), Ok(Scan::End));
    assert_eq!(index.files_count(), 1);
}

#[test]
fn entry_reaching_past_u64_is_incomplete() {
    let big = Header::from_metadata("g", 99_999_999_999_999, 1, "").unwrap();
    let mut index = Index::new();
    let mut count = 0usize;
    loop {
        match index.feed(&big.bytes) {
            Ok(Scan::Entry(size)) => {
                assert_eq!(size, 99_999_999_999_999);
                count += 1;
            }
            Err(e) => {
                assert_eq!(e, HeaderError::IncompleteHeader);
                break;
            }
            Ok(Scan::End) => panic!("not a closing block"),
        }
    }
    assert_eq!(index.files_count(), count);
    // Entries of (HEADER_SIZE + size) bytes each, as many as end below 2^64.
    assert_eq!(count as u128, u64::MAX as u128 / (HEADER_SIZE as u128 + 99_999_999_999_999));
}

#[test]
fn single_entry_is_found_by_name_and_by_path() {
    let data = archive(&[("a/b", "file.txt", b"hello world")]);
    let index = index_of(&data).unwrap();
    assert_eq!(index.files_count(), 1);
    let h = &index.headers()[0];
    assert_eq!(h.name, "file.txt");
    assert_eq!(h.prefix, "a/b");
    assert_eq!(h.size, 11);
    let by_name = index.locate_ok("file.txt").unwrap();
    let by_path = index.locate_ok("a/b/file.txt").unwrap();
    assert_eq!(by_name, Location { index: 0, offset: HEADER_SIZE as u64 });
    assert_eq!(by_name, by_path);
    let at = by_name.offset as usize;
    assert_eq!(&data[at..at + 11], b"hello world");
    assert_eq!(wpress_oxide::entry_path(&h.prefix, &h.name).unwrap(), "a/b/file.txt");
}

#[test]
fn first_of_several_matches_wins() {
    let data = archive(&[
        ("one", "dup.txt", b"first"),
        ("", "other.txt", b"-"),
        ("two", "dup.txt", b"second!"),
    ]);
    let index = index_of(&data).unwrap();
    assert_eq!(index.files_count(), 3);
    let loc = index.locate_ok("dup.txt").unwrap();
    assert_eq!(loc.index, 0);
    let at = loc.offset as usize;
    assert_eq!(&data[at..at + 5], b"first");
    let second = index.locate_ok("two/dup.txt").unwrap();
    assert_eq!(second.index, 2);
    assert_eq!(second.offset as usize, 3 * HEADER_SIZE + 5 + 1);
    let at = second.offset as usize;
    assert_eq!(&data[at..at + 7], b"second!");
}

#[test]
fn offsets_follow_header_and_payload_sizes() {
    let data = archive(&[("", "a", b"12345"), ("", "b", b""), ("d", "c", b"xy")]);
    let index = index_of(&data).unwrap();
    assert_eq!(index.locate_ok("a").unwrap().offset, HEADER_SIZE as u64);
    assert_eq!(index.locate_ok("b").unwrap().offset, (2 * HEADER_SIZE + 5) as u64);
    assert_eq!(index.locate_ok("d/c").unwrap().offset, (3 * HEADER_SIZE + 5) as u64);
    assert_eq!(index.locate_ok("c").unwrap().index, 2);
}

#[test]
fn round_trip_keeps_headers_and_payloads() {
    let entries: [(&str, &str, &[u8]); 3] =
        [("dir/sub", "x.bin", &[0, 1, 2, 0]), ("", "top", b"t"), ("dir", "y", b"")];
    let data = archive(&entries);
    let index = index_of(&data).unwrap();
    assert_eq!(index.files_count(), 3);
    for (i, (prefix, name, payload)) in entries.iter().enumerate() {
        let h = &index.headers()[i];
        assert_eq!(h.name, *name);
        assert_eq!(h.prefix, *prefix);
        assert_eq!(h.size, payload.len() as u64);
        assert_eq!(h.mtime, 1_600_000_000);
        let target = if prefix.is_empty() { name.to_string() } else { format!("{}/{}", prefix, name) };
        let loc = index.locate_ok(&target).unwrap();
        assert_eq!(loc.index, i);
        let at = loc.offset as usize;
        assert_eq!(&data[at..at + payload.len()], *payload);
    }
}

#[test]
fn target_is_compared_as_a_path() {
    let data = archive(&[("a/b", "file.txt", b"x")]);
    let index = index_of(&data).unwrap();
    assert_eq!(index.locate_ok("a//b/file.txt").map(|l| l.index), Some(0));
    assert_eq!(index.locate_ok("b/file.txt"), None);
    assert_eq!(index.locate_ok("file"), None);
}

#[test]
fn corrupt_header_is_reported() {
    let mut data = archive(&[("", "a", b"1")]);
    data[255] = b'z';
    assert!(matches!(index_of(&data), Err(HeaderError::BlockParseError(_))));
}

#[test]
fn escaping_prefix_is_extracted_inside() {
    let data = archive(&[("../../etc", "passwd", b"root")]);
    let index = index_of(&data).unwrap();
    let h = &index.headers()[0];
    assert_eq!(wpress_oxide::entry_path(&h.prefix, &h.name).unwrap(), "etc/passwd");
    assert_eq!(index.locate_ok("etc/passwd").map(|l| l.index), Some(0));
    assert_eq!(index.locate_ok("../../etc/passwd").map(|l| l.index), Some(0));
}

#[test]
fn unsafe_entry_before_the_match_stops_the_search() {
    let data = archive(&[("a", "first", b"1"), ("C:", "x", b"2"), ("", "later", b"3")]);
    let index = index_of(&data).unwrap();
    assert_eq!(index.locate("first").unwrap().map(|l| l.index), Some(0));
    assert_eq!(index.locate("later"), Err(PathSanitizationError::DrivePrefix));
}
