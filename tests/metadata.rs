use lsdj::metadata::{strip_title, ALLOC_TABLE_LENGTH, FREE_BLOCK, METADATA_SIZE};
use lsdj::{lsdjtitle_from, LsdjError, LsdjMetadata, BLOCK_COUNT};

#[test]
fn test_strip_title() {
    let title = [b'T', b'I', b'T', b'L', b'E', 0, b'C', b'R'];
    assert_eq!(strip_title(title), [b'T', b'I', b'T', b'L', b'E', 0, 0, 0]);
}

#[test]
fn test_lsdjtitle_from() {
    let title = "TITLEx";
    assert_eq!(lsdjtitle_from(title), Ok([b'T', b'I', b'T', b'L', b'E', b'x', 0, 0]));
    let invalid_title1 = "SONGTITLE";
    assert_eq!(lsdjtitle_from(invalid_title1), Err(LsdjError::BadTitle));
    let invalid_title2 = "title";
    assert_eq!(lsdjtitle_from(invalid_title2), Err(LsdjError::BadTitle));
}

#[test]
fn title_edge_cases() {
    assert_eq!(lsdjtitle_from(""), Ok([0; 8]));
    assert_eq!(lsdjtitle_from("A1 x9Z0Q"), Ok(*b"A1 x9Z0Q"));
    assert_eq!(lsdjtitle_from("A-B"), Err(LsdjError::BadTitle));
    assert_eq!(lsdjtitle_from("ÄB"), Err(LsdjError::BadTitle));
}

#[test]
fn test_check_sram_init() {
    let mut metadata = LsdjMetadata::empty();
    assert!(metadata.check_sram_init());
    metadata.sram_init_chk = [b'j', b'l'];
    assert!(!metadata.check_sram_init());
}

#[test]
fn test_is_allocated() {
    let mut metadata = LsdjMetadata::empty();
    metadata.alloc_table[1] = 0;
    assert!(metadata.is_allocated(2));
    assert!(!metadata.is_allocated(1));
    assert!(!metadata.is_allocated(0xbf));
}

#[test]
fn test_next_empty_block() {
    let mut metadata = LsdjMetadata::empty();
    metadata.alloc_table[0] = 0;
    metadata.alloc_table[1] = 0;
    metadata.alloc_table[2] = 0;
    metadata.alloc_table[3] = 0;
    assert_eq!(metadata.next_empty_block(), Some(5));
    metadata.alloc_table[2] = 0xff;
    assert_eq!(metadata.next_empty_block(), Some(3));
    metadata.alloc_table = [0; ALLOC_TABLE_LENGTH];
    assert_eq!(metadata.next_empty_block(), None);
}

#[test]
fn test_reserve() -> Result<(), LsdjError> {
    let mut metadata = LsdjMetadata::empty();
    assert_eq!(metadata.blocks_used(), 0);
    let song = match metadata.next_available_song() {
        Some(s) => s,
        None => return Err(LsdjError::SongsFull),
    };
    while let Some(next_block) = metadata.next_empty_block() {
        metadata.reserve(next_block, song)?;
    }
    assert_eq!(metadata.blocks_used(), BLOCK_COUNT);
    Ok(())
}

#[test]
fn reserving_every_block_exhausts_the_table() {
    let mut metadata = LsdjMetadata::empty();
    for block in 1..=BLOCK_COUNT {
        assert_eq!(metadata.reserve(block, 3), Ok(()));
    }
    assert_eq!(metadata.next_empty_block(), None);
    assert_eq!(metadata.blocks_used(), BLOCK_COUNT);
    assert_eq!(metadata.size_of(3), BLOCK_COUNT);
    assert_eq!(metadata.next_available_song(), None);
}

#[test]
fn last_table_entry_stands_for_no_block() {
    let mut metadata = LsdjMetadata::empty();
    metadata.alloc_table[ALLOC_TABLE_LENGTH - 1] = 0;
    assert!(!metadata.is_allocated(ALLOC_TABLE_LENGTH));
    assert_eq!(metadata.blocks_used(), 0);
    assert_eq!(metadata.size_of(0), 0);
    assert_eq!(metadata.next_block_for(0, 0), None);
    assert_eq!(metadata.next_available_song(), Some(0));
    assert_eq!(metadata.next_empty_block(), Some(1));
    let mut full = LsdjMetadata::empty();
    for i in 0..BLOCK_COUNT {
        full.alloc_table[i] = 0;
    }
    assert_eq!(full.next_empty_block(), None);
    assert_eq!(full.next_available_song(), None);
    assert!(!full.is_allocated(0));
}

#[test]
fn reserve_taken_block_fails() {
    let mut metadata = LsdjMetadata::empty();
    assert_eq!(metadata.reserve(7, 1), Ok(()));
    assert_eq!(metadata.reserve(7, 2), Err(LsdjError::BlockTaken));
    assert_eq!(metadata.alloc_table[6], 1);
}

#[test]
fn title_sets_one_slot() {
    let mut metadata = LsdjMetadata::empty();
    metadata.title(3, *b"SONG0000");
    assert_eq!(metadata.title_table[3], *b"SONG0000");
    assert_eq!(metadata.title_table[2], [0; 8]);
}

#[test]
fn test_next_block_for() {
    let mut metadata = LsdjMetadata::empty();
    metadata.alloc_table[0] = 0;
    metadata.alloc_table[1] = 1;
    metadata.alloc_table[2] = 0;
    metadata.alloc_table[3] = 0;
    metadata.alloc_table[9] = 1;
    metadata.alloc_table[56] = 3;
    metadata.alloc_table[66] = 3;
    assert_eq!(metadata.next_block_for(0, 0), Some(1));
    assert_eq!(metadata.next_block_for(1, 0), Some(2));
    assert_eq!(metadata.next_block_for(2, 0), None);
    assert_eq!(metadata.next_block_for(0, 1), Some(3));
    assert_eq!(metadata.next_block_for(0, 2), Some(4));
    assert_eq!(metadata.next_block_for(1, 1), Some(10));
    assert_eq!(metadata.next_block_for(3, 0), Some(57));
    assert_eq!(metadata.next_block_for(3, 1), Some(67));
}

#[test]
fn test_size_of() {
    let mut metadata = LsdjMetadata::empty();
    for i in 0..0x10 {
        metadata.alloc_table[i] = 0;
    }
    metadata.alloc_table[0x10] = 1;
    metadata.alloc_table[0x11] = 1;
    metadata.alloc_table[0x12] = 0;
    assert_eq!(metadata.size_of(0), 17);
    assert_eq!(metadata.size_of(1), 2);
    assert_eq!(metadata.size_of(2), 0);
}

#[test]
fn test_blocks_used() {
    let metadata = LsdjMetadata::empty();
    assert_eq!(metadata.blocks_used(), 0);
}

#[test]
fn test_next_available_song() {
    let mut metadata = LsdjMetadata::empty();
    for i in 0..8 {
        metadata.alloc_table[i] = 0;
    }
    metadata.alloc_table[8] = 1;
    metadata.alloc_table[9] = 2;
    metadata.alloc_table[10] = 3;
    metadata.alloc_table[11] = 4;
    metadata.alloc_table[12] = 6;
    metadata.alloc_table[13] = 5;
    assert_eq!(metadata.next_available_song(), Some(7));
    let mut metadata0 = LsdjMetadata::empty();
    metadata0.alloc_table = [0; ALLOC_TABLE_LENGTH];
    assert_eq!(metadata0.next_available_song(), None);
}

#[test]
fn next_available_song_when_every_slot_owns_a_block() {
    let mut metadata = LsdjMetadata::empty();
    for s in 0..32u8 {
        metadata.alloc_table[s as usize] = 31 - s;
    }
    assert_eq!(metadata.next_available_song(), None);
    metadata.alloc_table[5] = FREE_BLOCK;
    assert_eq!(metadata.next_available_song(), Some(26));
}

#[test]
fn list_songs_shows_index_title_and_version() {
    let mut metadata = LsdjMetadata::empty();
    metadata.title_table[0] = [b'T', b'E', b'S', b'T', 0, b'Q', b'Q', 0];
    metadata.version_table[0] = 0x1a;
    metadata.title_table[1] = *b"SONG2xxx";
    metadata.version_table[1] = 3;
    metadata.title_table[2] = [0xff, 0xfe, 0, 0, 0, 0, 0, 0];
    metadata.version_table[2] = 0;
    assert_eq!(
        metadata.list_songs(),
        "00: TEST\0\0\0\0.1A\n01: SONG2xxx.3\n02: .0\n"
    );
    metadata.title_table[1][0] = 0;
    assert_eq!(metadata.list_songs(), "00: TEST\0\0\0\0.1A\n");
}

#[test]
fn metadata_bytes_layout_and_parse() {
    let mut metadata = LsdjMetadata::empty();
    metadata.title_table[1] = *b"ABCDEFGH";
    metadata.version_table[31] = 9;
    metadata.working_song = [4];
    metadata.alloc_table[0] = 2;
    let bytes = metadata.bytes();
    assert_eq!(bytes.len(), METADATA_SIZE);
    assert_eq!(&bytes[8..16], b"ABCDEFGH");
    assert_eq!(bytes[0x11f], 9);
    assert_eq!(&bytes[0x13e..0x140], b"jk");
    assert_eq!(bytes[0x140], 4);
    assert_eq!(bytes[0x141], 2);
    assert_eq!(bytes[0x1ff], FREE_BLOCK);
    let parsed = LsdjMetadata::from_bytes(&bytes).unwrap();
    assert_eq!(parsed.bytes(), bytes);
    assert!(matches!(LsdjMetadata::from_bytes(&bytes[1..]), Err(LsdjError::BadFormat)));
}
