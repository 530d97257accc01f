use blockfs::fs::{FsError, SimpleFs};
use blockfs::model::{BLOCKS, BLOCK_SIZE, FILENAME_LEN, MAX_BLOCKS_PER_FILE, MAX_FILES};

#[test]
fn new_store_is_empty() {
    let fs = SimpleFs::new();
    assert_eq!(fs.free_block_count(), BLOCKS);
    assert!(fs.list_files().is_empty());
}

#[test]
fn create_then_list_shows_empty_file() {
    let mut fs = SimpleFs::new();
    assert_eq!(fs.create("notes"), Ok(()));
    let listing = fs.list_files();
    assert_eq!(listing.len(), 1);
    assert_eq!(listing[0].0.as_str(), "notes");
    assert_eq!(listing[0].1, 0);
}

#[test]
fn create_rejects_empty_name() {
    let mut fs = SimpleFs::new();
    assert_eq!(fs.create(""), Err(FsError::NameTooLong));
}

#[test]
fn create_rejects_long_name() {
    let mut fs = SimpleFs::new();
    assert_eq!(fs.create("a2345678901234567"), Err(FsError::NameTooLong));
    assert_eq!(fs.create("a234567890123456"), Ok(()));
    assert_eq!("a234567890123456".len(), FILENAME_LEN);
}

#[test]
fn create_rejects_name_ending_in_padding_byte() {
    let mut fs = SimpleFs::new();
    assert_eq!(fs.create("a\0"), Err(FsError::NameTooLong));
}

#[test]
fn create_rejects_duplicate() {
    let mut fs = SimpleFs::new();
    assert_eq!(fs.create("twice"), Ok(()));
    assert_eq!(fs.create("twice"), Err(FsError::AlreadyExists));
}

#[test]
fn create_fails_when_table_full() {
    let mut fs = SimpleFs::new();
    for i in 0..MAX_FILES {
        assert_eq!(fs.create(&format!("file{}", i)), Ok(()));
    }
    assert_eq!(fs.create("extra"), Err(FsError::NoSpace));
}

#[test]
fn write_rejects_invalid_name() {
    let mut fs = SimpleFs::new();
    assert_eq!(fs.write("", b"data"), Err(FsError::NameTooLong));
    assert_eq!(fs.write("a2345678901234567", b"data"), Err(FsError::NameTooLong));
}

#[test]
fn write_creates_missing_file() {
    let mut fs = SimpleFs::new();
    assert_eq!(fs.write("log", b"hello"), Ok(()));
    let listing = fs.list_files();
    assert_eq!(listing.len(), 1);
    assert_eq!(listing[0].0.as_str(), "log");
    assert_eq!(listing[0].1, 5);
}

#[test]
fn write_replaces_content_wholesale() {
    let mut fs = SimpleFs::new();
    assert_eq!(fs.write("f", &[7u8; 300]), Ok(()));
    assert_eq!(fs.write("f", b"tiny"), Ok(()));
    let mut buf = vec![0u8; 4096];
    assert_eq!(fs.read_into("f", &mut buf), Ok(4));
    assert_eq!(&buf[..4], b"tiny");
}

#[test]
fn write_fails_when_table_full_for_new_name() {
    let mut fs = SimpleFs::new();
    for i in 0..MAX_FILES {
        assert_eq!(fs.create(&format!("file{}", i)), Ok(()));
    }
    assert_eq!(fs.write("extra", b"x"), Err(FsError::NoSpace));
}

#[test]
fn failed_allocation_leaves_file_present_and_empty() {
    let mut fs = SimpleFs::new();
    // drain the pool to 2 free blocks: 62 = 16 + 16 + 16 + 14
    assert!(fs.allocate_blocks(16).is_ok());
    assert!(fs.allocate_blocks(16).is_ok());
    assert!(fs.allocate_blocks(16).is_ok());
    assert!(fs.allocate_blocks(14).is_ok());
    assert_eq!(fs.free_block_count(), 2);
    // three blocks needed, two free: the write fails but the name stays
    assert_eq!(fs.write("big", &[1u8; 600]), Err(FsError::NoSpace));
    let mut buf = vec![0u8; 16];
    assert_eq!(fs.read_into("big", &mut buf), Ok(0));
    let listing = fs.list_files();
    assert_eq!(listing.len(), 1);
    assert_eq!(listing[0].0.as_str(), "big");
    assert_eq!(listing[0].1, 0);
}

#[test]
fn overwrite_failure_discards_old_content() {
    let mut fs = SimpleFs::new();
    assert!(fs.allocate_blocks(16).is_ok());
    assert!(fs.allocate_blocks(16).is_ok());
    assert!(fs.allocate_blocks(16).is_ok());
    assert!(fs.allocate_blocks(13).is_ok());
    // 3 blocks free; the file takes 2 of them
    assert_eq!(fs.write("doc", &[9u8; 400]), Ok(()));
    assert_eq!(fs.free_block_count(), 1);
    // needs 3 blocks, and freeing the old 2 still leaves only 3 - wait: 1 + 2
    // freed = 3 free, needs 4
    assert_eq!(fs.write("doc", &[8u8; 900]), Err(FsError::NoSpace));
    // the old content is gone for good; the file is empty
    let mut buf = vec![0u8; 1024];
    assert_eq!(fs.read_into("doc", &mut buf), Ok(0));
    assert_eq!(fs.free_block_count(), 3);
}

#[test]
fn read_missing_file_fails() {
    let mut buf = vec![0u8; 8];
    let fs = SimpleFs::new();
    assert_eq!(fs.read_into("ghost", &mut buf), Err(FsError::NotFound));
    assert_eq!(buf, vec![0u8; 8]);
}

#[test]
fn read_with_short_buffer_truncates() {
    let mut fs = SimpleFs::new();
    assert_eq!(fs.write("f", b"abcdefgh"), Ok(()));
    let mut buf = vec![0u8; 4];
    assert_eq!(fs.read_into("f", &mut buf), Ok(4));
    assert_eq!(&buf[..], b"abcd");
}

#[test]
fn multi_block_content_round_trips() {
    let mut fs = SimpleFs::new();
    let data: Vec<u8> = (0..600u32).map(|i| (i % 251) as u8).collect();
    assert_eq!(fs.write("blob", &data), Ok(()));
    let mut buf = vec![0xAAu8; 600];
    assert_eq!(fs.read_into("blob", &mut buf), Ok(600));
    assert_eq!(buf, data);
}

#[test]
fn delete_missing_file_fails() {
    let mut fs = SimpleFs::new();
    assert_eq!(fs.delete("nope"), Err(FsError::NotFound));
}

#[test]
fn delete_twice_fails_second_time() {
    let mut fs = SimpleFs::new();
    assert_eq!(fs.create("once"), Ok(()));
    assert_eq!(fs.delete("once"), Ok(()));
    assert_eq!(fs.delete("once"), Err(FsError::NotFound));
}

#[test]
fn allocate_rejects_oversized_request() {
    let mut fs = SimpleFs::new();
    assert_eq!(
        fs.allocate_blocks(MAX_BLOCKS_PER_FILE + 1).unwrap_err(),
        FsError::TooManyBlocks
    );
    assert_eq!(fs.free_block_count(), BLOCKS);
}

#[test]
fn allocate_returns_distinct_marked_blocks() {
    let mut fs = SimpleFs::new();
    let a = fs.allocate_blocks(5).unwrap();
    assert_eq!(a.len(), 5);
    let b = fs.allocate_blocks(5).unwrap();
    assert_eq!(b.len(), 5);
    assert_eq!(fs.free_block_count(), BLOCKS - 10);
    let mut all: Vec<u8> = a.iter().chain(b.iter()).copied().collect();
    all.sort();
    all.dedup();
    assert_eq!(all.len(), 10);
    assert!(all.iter().all(|&blk| (blk as usize) < BLOCKS));
}

#[test]
fn write_of_empty_payload_makes_empty_file() {
    let mut fs = SimpleFs::new();
    assert_eq!(fs.write("void", b""), Ok(()));
    assert_eq!(fs.free_block_count(), BLOCKS);
    let mut buf = vec![0u8; 8];
    assert_eq!(fs.read_into("void", &mut buf), Ok(0));
}

#[test]
fn exact_cap_payload_round_trips() {
    let mut fs = SimpleFs::new();
    let data: Vec<u8> = (0..4096u32).map(|i| (i % 253) as u8).collect();
    assert_eq!(fs.write("full", &data), Ok(()));
    let mut buf = vec![0u8; 4096];
    assert_eq!(fs.read_into("full", &mut buf), Ok(4096));
    assert_eq!(buf, data);
}

#[test]
fn names_are_compared_exactly_up_to_padding() {
    let mut fs = SimpleFs::new();
    assert_eq!(fs.create("abc"), Ok(()));
    let mut buf = vec![0u8; 8];
    assert_eq!(fs.read_into("ab", &mut buf), Err(FsError::NotFound));
    assert_eq!(fs.read_into("abcd", &mut buf), Err(FsError::NotFound));
    assert_eq!(fs.read_into("abc", &mut buf), Ok(0));
}

#[test]
fn storage_cap_is_block_size_times_blocks() {
    // the fixed parameters bound total addressable storage
    assert_eq!(BLOCK_SIZE * BLOCKS, 16384);
    assert_eq!(MAX_BLOCKS_PER_FILE * BLOCK_SIZE, 4096);
}
