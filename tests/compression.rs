use lsdj::compression::{
    is_def_inst, is_def_wave, DEF_INST_VALUES, DEF_SIZE, DEF_WAVE_VALUES, EOF_BYTE, RLE_BYTE,
    SPECIAL_BYTE,
};
use lsdj::{LsdjBlock, LsdjBlockExt, LsdjError, LsdjSram, BLOCK_COUNT, BLOCK_SIZE, SRAM_SIZE};

#[test]
fn test_is_def_inst() {
    let def_inst_slice = &DEF_INST_VALUES;
    let short_def_inst = &DEF_INST_VALUES[0..0xf];
    assert!(is_def_inst(def_inst_slice));
    assert!(!is_def_inst(short_def_inst));
    assert!(!is_def_inst(&[0; DEF_SIZE]));
    assert!(!is_def_inst(&[0]));
    assert!(!is_def_inst(&DEF_WAVE_VALUES));
}

#[test]
fn test_is_def_wave() {
    let def_wave_slice = &DEF_WAVE_VALUES;
    let short_def_wave = &DEF_WAVE_VALUES[0..0xf];
    assert!(is_def_wave(def_wave_slice));
    assert!(!is_def_wave(short_def_wave));
    assert!(!is_def_wave(&[0; DEF_SIZE]));
    assert!(!is_def_wave(&[0]));
    assert!(!is_def_wave(&DEF_INST_VALUES));
}

#[test]
fn dictionary_match_rejects_one_differing_byte() {
    let mut data = DEF_INST_VALUES;
    data[7] ^= 1;
    assert!(!is_def_inst(&data));
    let mut data = DEF_WAVE_VALUES;
    data[15] ^= 1;
    assert!(!is_def_wave(&data));
    let mut longer = DEF_INST_VALUES.to_vec();
    longer.push(0);
    assert!(!is_def_inst(&longer));
}

#[test]
fn test_rle_decompression() {
    let mut block = LsdjBlock::empty();
    block.data[0] = 0xc0;
    block.data[1] = 0x41;
    block.data[2] = 0x10;
    let mut sram = LsdjSram::empty();
    let _ = block.decompress(&mut sram);
    // SRAM should be 0x41, repeated 16 times
    assert_eq!(&sram.data[0..0x10], &[0x41; 0x10]);
}

#[test]
fn decompress_without_end_token_is_bad_format() {
    let mut block = LsdjBlock::empty();
    block.data[0] = 0xc0;
    block.data[1] = 0x41;
    block.data[2] = 0x10;
    let mut sram = LsdjSram::empty();
    assert_eq!(block.decompress(&mut sram), Err(LsdjError::BadFormat));
    assert_eq!(sram.position, 0x10 + BLOCK_SIZE - 3);
}

#[test]
fn decompress_tokens_and_end() {
    let mut block = LsdjBlock::empty();
    let tokens = [
        0x07, RLE_BYTE, RLE_BYTE, SPECIAL_BYTE, SPECIAL_BYTE, SPECIAL_BYTE, 0xf1, SPECIAL_BYTE,
        0xf0, SPECIAL_BYTE, EOF_BYTE,
    ];
    block.data[..tokens.len()].copy_from_slice(&tokens);
    let mut sram = LsdjSram::empty();
    sram.position = 4;
    assert_eq!(block.decompress(&mut sram), Ok(0));
    assert_eq!(sram.position, 4 + 3 + 2 * DEF_SIZE);
    assert_eq!(&sram.data[4..7], &[0x07, RLE_BYTE, SPECIAL_BYTE]);
    assert_eq!(&sram.data[7..7 + DEF_SIZE], &DEF_INST_VALUES);
    assert_eq!(&sram.data[7 + DEF_SIZE..7 + 2 * DEF_SIZE], &DEF_WAVE_VALUES);
    assert_eq!(&sram.data[0..4], &[0, 0, 0, 0]);
}

#[test]
fn decompress_chain_pointer_returns_next_block() {
    let mut block = LsdjBlock::empty();
    block.data[0] = 0x33;
    block.data[1] = SPECIAL_BYTE;
    block.data[2] = 0x05;
    let mut sram = LsdjSram::empty();
    assert_eq!(block.decompress(&mut sram), Ok(5));
    assert_eq!(sram.position, 1);
    assert_eq!(sram.data[0], 0x33);
}

#[test]
fn decompress_output_past_memory_end_is_refused() {
    let mut block = LsdjBlock::empty();
    block.data[0] = 0xc0;
    block.data[1] = 0x41;
    block.data[2] = 0x10;
    block.data[3] = SPECIAL_BYTE;
    block.data[4] = EOF_BYTE;
    let mut sram = LsdjSram::empty();
    sram.position = SRAM_SIZE - 4;
    assert_eq!(block.decompress(&mut sram), Err(LsdjError::BadFormat));
    assert_eq!(sram.position, SRAM_SIZE - 4);
    assert!(sram.data.iter().all(|b| *b == 0));
}

#[test]
fn test_rle_compression() {
    let mut sram = LsdjSram::empty();
    sram.data[0] = 0x41;
    sram.data[1] = 0x41;
    sram.data[2] = 0x41;
    sram.data[3] = 0x41;
    sram.data[4] = 0x41;
    sram.data[5] = 0x41;
    sram.data[6] = 0x41;
    sram.data[7] = 0x41;
    sram.data[8] = 0x41;
    sram.data[9] = 0x41;
    sram.data[10] = 0x41;
    sram.data[11] = 0x41;
    sram.data[12] = 0x41;
    sram.data[13] = 0x41;
    sram.data[14] = 0x41;
    sram.data[15] = 0x41;
    sram.data[16] = 0x41;
    sram.data[17] = 0x41;
    let mut block = LsdjBlock::empty();
    sram.compress(&mut block, 1);
    assert_eq!(&block.data[0..3], &[0xc0, 0x41, 18]);
}

#[test]
fn run_of_three_is_literal_run_of_four_is_token() {
    let mut sram = LsdjSram::empty();
    for b in sram.data.iter_mut() {
        *b = 0x11;
    }
    sram.data[0] = 0x41;
    sram.data[1] = 0x41;
    sram.data[2] = 0x41;
    sram.data[3] = 0x42;
    sram.data[4] = 0x42;
    sram.data[5] = 0x42;
    sram.data[6] = 0x42;
    sram.data[7] = 0x43;
    let mut block = LsdjBlock::empty();
    sram.compress(&mut block, 1);
    assert_eq!(&block.data[0..8], &[0x41, 0x41, 0x41, 0xc0, 0x42, 4, 0x43, 0xc0]);
}

#[test]
fn runs_are_capped_at_255() {
    let mut sram = LsdjSram::empty();
    let mut block = LsdjBlock::empty();
    assert_eq!(sram.compress(&mut block, 1), 0);
    assert_eq!(&block.data[0..3], &[0xc0, 0x00, 0xff]);
    assert_eq!(sram.position, SRAM_SIZE);
    // 0x8000 = 128 * 255 + 128
    assert_eq!(&block.data[128 * 3..128 * 3 + 5], &[0xc0, 0x00, 128, SPECIAL_BYTE, EOF_BYTE]);
}

#[test]
fn escape_bytes_are_doubled_and_come_back() {
    let mut sram = LsdjSram::empty();
    sram.data[0] = 0xc0;
    sram.data[1] = 0xe0;
    sram.data[2] = 0x01;
    let mut block = LsdjBlock::empty();
    sram.compress(&mut block, 1);
    assert_eq!(&block.data[0..5], &[0xc0, 0xc0, 0xe0, 0xe0, 0x01]);
    let mut out = LsdjSram::empty();
    assert_eq!(block.decompress(&mut out), Ok(0));
    assert!(out == sram);
}

#[test]
fn dictionary_patterns_are_substituted() {
    let mut sram = LsdjSram::empty();
    sram.data[0..DEF_SIZE].copy_from_slice(&DEF_INST_VALUES);
    sram.data[DEF_SIZE..2 * DEF_SIZE].copy_from_slice(&DEF_WAVE_VALUES);
    let mut block = LsdjBlock::empty();
    sram.compress(&mut block, 1);
    assert_eq!(&block.data[0..4], &[0xe0, 0xf1, 0xe0, 0xf0]);
}

#[test]
fn single_block_round_trip() {
    let mut sram = LsdjSram::empty();
    sram.data[0..DEF_SIZE].copy_from_slice(&DEF_INST_VALUES);
    sram.data[100] = 0xc0;
    sram.data[101] = 0xe0;
    for i in 200..260 {
        sram.data[i] = (i % 7) as u8;
    }
    sram.data[0x4000..0x4000 + DEF_SIZE].copy_from_slice(&DEF_WAVE_VALUES);
    let mut block = LsdjBlock::empty();
    assert_eq!(sram.compress(&mut block, 1), 0);
    let mut out = LsdjSram::empty();
    assert_eq!(block.decompress(&mut out), Ok(0));
    assert_eq!(out.position, SRAM_SIZE);
    assert!(out == sram);
}

#[test]
fn chained_round_trip_through_block_list() {
    let mut sram = LsdjSram::empty();
    for i in 0..SRAM_SIZE {
        sram.data[i] = ((i * 7) % 0xb0) as u8;
    }
    let mut blocks: Vec<LsdjBlock> = Vec::new();
    let written = sram.compress_into(&mut blocks, 1).unwrap();
    assert!(written > 1);
    assert_eq!(blocks.len(), written as usize);
    assert_eq!(sram.position, SRAM_SIZE);
    assert_eq!(&blocks[0].data[BLOCK_SIZE - 4..BLOCK_SIZE - 2], &[SPECIAL_BYTE, 2]);
    let mut out = LsdjSram::empty();
    assert_eq!(blocks.decompress_to(&mut out, 0), Ok(written));
    assert!(out == sram);
    assert_eq!(blocks.bytes().len(), written as usize * BLOCK_SIZE);
}

#[test]
fn decompress_to_stops_where_the_list_ends() {
    let blocks: Vec<LsdjBlock> = Vec::new();
    let mut out = LsdjSram::empty();
    assert_eq!(blocks.decompress_to(&mut out, 3), Ok(0));
    let mut block = LsdjBlock::empty();
    block.data[0] = 0x09;
    block.data[1] = SPECIAL_BYTE;
    block.data[2] = 7;
    let blocks = vec![block];
    assert_eq!(blocks.decompress_to(&mut out, 0), Ok(1));
    assert_eq!(out.data[0], 0x09);
}

#[test]
fn decompress_to_refuses_an_endless_chain() {
    let mut block = LsdjBlock::empty();
    block.data[0] = SPECIAL_BYTE;
    block.data[1] = 1;
    let blocks = vec![block];
    let mut out = LsdjSram::empty();
    assert_eq!(blocks.decompress_to(&mut out, 0), Err(LsdjError::BadFormat));
}

#[test]
fn block_list_bytes_concatenate() {
    let mut a = LsdjBlock::empty();
    a.data[0] = 1;
    let mut b = LsdjBlock::empty();
    b.data[BLOCK_SIZE - 1] = 2;
    let bytes = vec![a, b].bytes();
    assert_eq!(bytes.len(), 2 * BLOCK_SIZE);
    assert_eq!(bytes[0], 1);
    assert_eq!(bytes[2 * BLOCK_SIZE - 1], 2);
}

#[test]
fn test_skip_to_block() {
    let mut empty_block = LsdjBlock::empty();
    assert_eq!(empty_block.skip_to_block(0xb), Err(LsdjError::NoSkip));
    let mut real_block = LsdjBlock::empty();
    real_block.data[5] = SPECIAL_BYTE;
    real_block.data[6] = 4;
    assert_eq!(real_block.skip_to_block(0xb), Ok(()));
    assert_eq!(&real_block.data[5..7], &[SPECIAL_BYTE, 0xb]);
}

#[test]
fn skip_to_block_on_terminal_block_is_no_skip() {
    let mut block = LsdjBlock::empty();
    block.data[0] = SPECIAL_BYTE;
    block.data[1] = EOF_BYTE;
    assert_eq!(block.skip_to_block(0xb), Err(LsdjError::NoSkip));
    assert_eq!(&block.data[0..2], &[SPECIAL_BYTE, EOF_BYTE]);
}

#[test]
fn skip_to_block_steps_over_dictionary_and_escape() {
    let mut block = LsdjBlock::empty();
    block.data[0] = SPECIAL_BYTE;
    block.data[1] = 0xf1;
    block.data[2] = SPECIAL_BYTE;
    block.data[3] = SPECIAL_BYTE;
    block.data[4] = SPECIAL_BYTE;
    block.data[5] = b'x';
    assert_eq!(block.skip_to_block(0x20), Ok(()));
    assert_eq!(&block.data[0..6], &[SPECIAL_BYTE, 0xf1, SPECIAL_BYTE, SPECIAL_BYTE, SPECIAL_BYTE, 0x20]);
}

#[test]
fn skip_to_block_format_errors() {
    let mut block = LsdjBlock::empty();
    block.data[BLOCK_SIZE - 1] = SPECIAL_BYTE;
    assert_eq!(block.skip_to_block(3), Err(LsdjError::BadFormat));
    let mut block = LsdjBlock::empty();
    block.data[0] = SPECIAL_BYTE;
    block.data[1] = 0xd0;
    assert_eq!(block.skip_to_block(3), Err(LsdjError::BadFormat));
}

#[test]
fn test_lsdjsram_partialeq() {
    let sram = LsdjSram::empty();
    let eq_sram0 = LsdjSram {
        position: 0,
        data: [0; SRAM_SIZE],
    };
    let neq_sram = LsdjSram {
        position: 0,
        data: [1; SRAM_SIZE],
    };
    let eq_sram1 = LsdjSram {
        position: 1234,
        data: [0; SRAM_SIZE],
    };
    assert!(sram == eq_sram0);
    assert!(sram != neq_sram);
    assert!(sram == eq_sram1);
}

#[test]
fn sram_from_bytes() {
    assert!(matches!(LsdjSram::from_bytes(&[0u8; 10]), Err(LsdjError::BadFormat)));
    let mut bytes = vec![3u8; SRAM_SIZE + 2];
    bytes[SRAM_SIZE - 1] = 9;
    let sram = LsdjSram::from_bytes(&bytes).unwrap();
    assert_eq!(sram.position, 0);
    assert_eq!(sram.data[0], 3);
    assert_eq!(sram.data[SRAM_SIZE - 1], 9);
}

#[test]
fn compress_into_late_first_block() {
    let mut sram = LsdjSram::empty();
    let mut blocks: Vec<LsdjBlock> = vec![LsdjBlock::empty(); BLOCK_COUNT - 1];
    assert_eq!(sram.compress_into(&mut blocks, BLOCK_COUNT), Ok(1));
    assert_eq!(blocks.len(), BLOCK_COUNT);
    assert_eq!(&blocks[BLOCK_COUNT - 1].data[0..3], &[0xc0, 0x00, 0xff]);
}

#[test]
fn compress_into_past_the_last_block_is_no_blocks() {
    let mut sram = LsdjSram::empty();
    for i in 0..SRAM_SIZE {
        sram.data[i] = ((i * 7) % 0xb0) as u8;
    }
    let mut blocks: Vec<LsdjBlock> = vec![LsdjBlock::empty(); 129];
    assert_eq!(sram.compress_into(&mut blocks, 130), Err(LsdjError::NoBlocks));
    assert_eq!(blocks.len(), 129);
    assert_eq!(sram.position, 0);
    let mut blocks: Vec<LsdjBlock> = Vec::new();
    assert_eq!(sram.compress_into(&mut blocks, BLOCK_COUNT + 1), Err(LsdjError::NoBlocks));
    assert!(blocks.is_empty());
}
