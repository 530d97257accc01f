use blockfs::fs::{FsError, SimpleFs};
use blockfs::model::{BLOCKS, MAX_BLOCKS_PER_FILE};

#[test]
fn create_then_read_yields_zero_bytes() {
    let mut fs = SimpleFs::new();
    assert_eq!(fs.create("fresh"), Ok(()));
    let mut buf = vec![0xFFu8; 128];
    assert_eq!(fs.read_into("fresh", &mut buf), Ok(0));
    assert_eq!(buf, vec![0xFFu8; 128]);
}

#[test]
fn write_then_read_round_trips() {
    let mut fs = SimpleFs::new();
    let data: Vec<u8> = (0..1000u32).map(|i| (i * 7 % 256) as u8).collect();
    assert_eq!(fs.write("round", &data), Ok(()));
    let mut buf = vec![0u8; 1200];
    assert_eq!(fs.read_into("round", &mut buf), Ok(1000));
    assert_eq!(&buf[..1000], &data[..]);
}

#[test]
fn delete_then_read_fails_not_found() {
    let mut fs = SimpleFs::new();
    assert_eq!(fs.write("gone", b"bytes"), Ok(()));
    assert_eq!(fs.delete("gone"), Ok(()));
    let mut buf = vec![0u8; 8];
    assert_eq!(fs.read_into("gone", &mut buf), Err(FsError::NotFound));
}

#[test]
fn write_consumes_exactly_needed_blocks_and_delete_restores() {
    let mut fs = SimpleFs::new();
    let before = fs.free_block_count();
    // 700 bytes need 3 blocks of 256 bytes
    assert_eq!(fs.write("acct", &[3u8; 700]), Ok(()));
    assert_eq!(fs.free_block_count(), before - 3);
    assert_eq!(fs.delete("acct"), Ok(()));
    assert_eq!(fs.free_block_count(), before);
}

#[test]
fn failed_allocation_leaves_free_count_unchanged() {
    let mut fs = SimpleFs::new();
    // bring the pool down to 3 free blocks: 61 = 3 * 16 + 13
    assert!(fs.allocate_blocks(16).is_ok());
    assert!(fs.allocate_blocks(16).is_ok());
    assert!(fs.allocate_blocks(16).is_ok());
    assert!(fs.allocate_blocks(13).is_ok());
    assert_eq!(fs.free_block_count(), 3);
    // asking for 5 finds only 3: no partial reservation may leak
    assert_eq!(fs.allocate_blocks(5).unwrap_err(), FsError::NoSpace);
    assert_eq!(fs.free_block_count(), 3);
}

#[test]
fn duplicate_create_and_invalid_names_fail() {
    let mut fs = SimpleFs::new();
    assert_eq!(fs.create("dup"), Ok(()));
    assert_eq!(fs.create("dup"), Err(FsError::AlreadyExists));
    let long = "x".repeat(17);
    assert_eq!(fs.create(&long), Err(FsError::NameTooLong));
    assert_eq!(fs.write(&long, b"payload"), Err(FsError::NameTooLong));
}

#[test]
fn per_file_cap_is_sixteen_blocks_of_256_bytes() {
    let mut fs = SimpleFs::new();
    // 5000 bytes exceed the 4096-byte cap of one file
    assert_eq!(fs.write("cap", &[1u8; 5000]), Err(FsError::TooManyBlocks));
    // exactly 4096 bytes fit and occupy all 16 blocks
    assert_eq!(fs.write("cap", &[2u8; 4096]), Ok(()));
    assert_eq!(fs.free_block_count(), BLOCKS - MAX_BLOCKS_PER_FILE);
    // a small overwrite frees all 16 and allocates a single block
    assert_eq!(fs.write("cap", &[3u8; 10]), Ok(()));
    assert_eq!(fs.free_block_count(), BLOCKS - 1);
    let mut buf = vec![0u8; 16];
    assert_eq!(fs.read_into("cap", &mut buf), Ok(10));
    assert_eq!(&buf[..10], &[3u8; 10]);
}

#[test]
fn listing_follows_slot_reuse_order() {
    let mut fs = SimpleFs::new();
    assert_eq!(fs.create("a"), Ok(()));
    assert_eq!(fs.create("b"), Ok(()));
    assert_eq!(fs.delete("a"), Ok(()));
    assert_eq!(fs.create("c"), Ok(()));
    // "c" takes the lowest free slot: the one "a" vacated, ahead of "b"
    let listing = fs.list_files();
    assert_eq!(listing.len(), 2);
    assert_eq!(listing[0].0.as_str(), "c");
    assert_eq!(listing[0].1, 0);
    assert_eq!(listing[1].0.as_str(), "b");
    assert_eq!(listing[1].1, 0);
}
