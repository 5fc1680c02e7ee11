use flash_img_seeker::error::Error;
use flash_img_seeker::flash_img_seeker::{compute_hash_by_block, FlashImage};

// 4 blocks of 32 bytes, each with a distinct fill
fn sample_flash() -> Vec<u8> {
    let mut data = Vec::new();
    for block in 0..4u8 {
        for i in 0..32u8 {
            data.push(block * 100 + i);
        }
    }
    data
}

#[test]
fn block_table_offsets_and_headers() {
    let data = sample_flash();
    let table = compute_hash_by_block(&data, 32).unwrap();
    assert_eq!(table.len(), 4);
    for (i, entry) in table.iter().enumerate() {
        assert_eq!(entry.offset, i * 32);
        assert_eq!(&entry.header[..], &data[i * 32..i * 32 + 16]);
    }
}

#[test]
fn partial_final_block_keeps_its_header() {
    let mut data = sample_flash();
    data.extend_from_slice(&[9u8; 20]);
    let table = compute_hash_by_block(&data, 32).unwrap();
    assert_eq!(table.len(), 5);
    assert_eq!(table[4].offset, 128);
    assert_eq!(&table[4].header[..], &data[128..144]);
}

#[test]
fn short_final_block_is_rejected() {
    let mut data = sample_flash();
    data.push(0);
    assert_eq!(compute_hash_by_block(&data, 32).unwrap_err(), Error::ReadErr);
}

#[test]
fn seek_finds_embedded_image() {
    let data = sample_flash();
    let flash = FlashImage::new(&data, 32).unwrap();
    assert_eq!(flash.size(), 128);
    // the middle two blocks as a candidate image
    let image = data[32..96].to_vec();
    let found = flash.seek_image(&image, 32).unwrap();
    assert_eq!(found, vec![32]);
}

#[test]
fn seek_reports_every_match_in_order() {
    // the same block repeated four times
    let mut data = Vec::new();
    for _ in 0..4 {
        for i in 0..32u8 {
            data.push(i);
        }
    }
    let flash = FlashImage::new(&data, 32).unwrap();
    let image = data[0..64].to_vec();
    let found = flash.seek_image(&image, 32).unwrap();
    assert_eq!(found, vec![0, 32, 64]);
}

#[test]
fn seek_misses_absent_image() {
    let data = sample_flash();
    let flash = FlashImage::new(&data, 32).unwrap();
    let image = vec![255u8; 64];
    let found = flash.seek_image(&image, 32).unwrap();
    assert!(found.is_empty());
}

#[test]
fn empty_data_yields_empty_table() {
    let data: Vec<u8> = Vec::new();
    let table = compute_hash_by_block(&data, 32).unwrap();
    assert!(table.is_empty());
}
