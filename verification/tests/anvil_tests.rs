use smithy::anvil::{allocate_run, RegionFile, MAX_CHUNK_LEN, SECTOR_LEN};
use smithy::bits::BitSet;
use smithy::codec::CompressionType;

#[test]
fn empty_file_parses_to_empty_region() {
    let region = RegionFile::new(vec![0u8; 8192]);
    assert_eq!(region.sector_count(), 0);
    assert!(region.lookup_chunk(0, 0).is_none());
    for x in 0u8..32 {
        for z in 0u8..32 {
            assert!(!region.lookup_header(x, z).valid());
        }
    }
}

#[test]
fn single_chunk_round_trip() {
    let mut region = RegionFile::new(vec![0u8; 8192]);
    region.write_chunk(3, 5, &[0xAA, 0xBB], CompressionType::Zlib, 1_700_000_000);

    let image = region.serialize_full();
    assert_eq!(image.len(), 8192 + SECTOR_LEN);

    let reparsed = RegionFile::new(image);
    let header = reparsed.lookup_header(3, 5);
    let addr = header.address.unwrap();
    assert_eq!(addr.offset, 2);
    assert_eq!(addr.len, 1);
    assert_eq!(header.mtime, 1_700_000_000);

    let chunk = reparsed.lookup_chunk(3, 5).unwrap();
    assert_eq!(chunk.data, vec![0xAA, 0xBB]);
    assert_eq!(chunk.compression_type, CompressionType::Zlib);
    assert_eq!(chunk.mtime, 1_700_000_000);
}

#[test]
fn delete_frees_sectors_and_updates_time() {
    let mut region = RegionFile::new(vec![0u8; 8192]);
    region.write_chunk(3, 5, &[0xAA, 0xBB], CompressionType::Zlib, 1_700_000_000);
    assert!(region.occupied(0));

    region.delete_chunk(3, 5, 1_800_000_000);
    assert!(!region.occupied(0));
    assert!(region.lookup_chunk(3, 5).is_none());
    assert_eq!(region.lookup_header(3, 5).mtime, 1_800_000_000);
}

#[test]
fn oversized_write_is_dropped() {
    let mut region = RegionFile::new(vec![0u8; 8192]);
    let huge = vec![0u8; MAX_CHUNK_LEN];
    region.write_chunk(0, 0, &huge, CompressionType::GZip, 1);
    assert!(region.lookup_chunk(0, 0).is_none());
    assert!(!region.lookup_header(0, 0).valid());
    assert_eq!(region.sector_count(), 0);
}

#[test]
fn largest_accepted_write_round_trips() {
    let mut region = RegionFile::new(vec![0u8; 8192]);
    let data = vec![7u8; MAX_CHUNK_LEN - 1];
    region.write_chunk(1, 1, &data, CompressionType::Zstd, 5);
    let addr = region.lookup_header(1, 1).address.unwrap();
    assert_eq!(addr.len, 255);
    let chunk = region.lookup_chunk(1, 1).unwrap();
    assert_eq!(chunk.data.len(), MAX_CHUNK_LEN - 1);
    assert_eq!(chunk.compression_type, CompressionType::Zstd);
}

#[test]
fn allocation_is_first_fit_from_offset_two() {
    let mut occ = BitSet::new(5);
    occ.fill_range(0, 1, true);
    occ.fill_range(2, 3, true);
    // the first run of two free sectors starts at index 3
    let addr = allocate_run(&mut occ, 2).unwrap();
    assert_eq!(addr.offset, 5);
    assert_eq!(addr.len, 2);
    assert!(occ.get(3) && occ.get(4));
    // index 1 is still the first free single sector
    let addr = allocate_run(&mut occ, 1).unwrap();
    assert_eq!(addr.offset, 3);
    // everything is full now: the map grows
    let addr = allocate_run(&mut occ, 3).unwrap();
    assert_eq!(addr.offset, 7);
    assert_eq!(occ.len(), 8);
}

#[test]
fn rewrite_reuses_freed_sectors() {
    let mut region = RegionFile::new(vec![0u8; 8192]);
    region.write_chunk(0, 0, &[1; 4091], CompressionType::GZip, 1);
    region.write_chunk(1, 0, &[2; 4091], CompressionType::GZip, 1);
    assert_eq!(region.sector_count(), 2);
    // rewriting the first chunk frees its run first, so it lands back at
    // the file's first payload sector
    region.write_chunk(0, 0, &[3, 3], CompressionType::GZip, 2);
    let addr = region.lookup_header(0, 0).address.unwrap();
    assert_eq!(addr.offset, 2);
    assert_eq!(region.lookup_chunk(0, 0).unwrap().data, vec![3, 3]);
    assert_eq!(region.lookup_chunk(1, 0).unwrap().data, vec![2; 4091]);
}

#[test]
fn dirty_sectors_track_writes_and_clear() {
    let mut region = RegionFile::new(vec![0u8; 8192]);
    region.write_chunk(0, 0, &[1], CompressionType::GZip, 1);
    region.write_chunk(2, 0, &[2; 5000], CompressionType::GZip, 1);
    assert_eq!(region.dirty_sector_indices(), vec![0, 1, 2]);
    region.mark_clean();
    assert_eq!(region.dirty_sector_indices(), Vec::<usize>::new());
    assert_eq!(region.max_occupied_end(), 3);
}

#[test]
fn corrupt_length_fields_invalidate_slots_on_parse() {
    let mut region = RegionFile::new(vec![0u8; 8192]);
    region.write_chunk(4, 4, &[9, 9, 9], CompressionType::NoCompression, 77);
    let mut image = region.serialize_full();
    // overwrite the stored length field with one that overflows the run
    let base = 8192;
    image[base] = 0xff;
    image[base + 1] = 0xff;
    image[base + 2] = 0xff;
    image[base + 3] = 0xff;
    let reparsed = RegionFile::new(image);
    assert!(!reparsed.lookup_header(4, 4).valid());
    // the slot's time survives even though its address did not
    assert_eq!(reparsed.lookup_header(4, 4).mtime, 77);
}

#[test]
fn occupied_sectors_match_headers_after_writes_and_deletes() {
    let mut region = RegionFile::new(vec![0u8; 8192]);
    region.write_chunk(0, 0, &[1; 9000], CompressionType::GZip, 1);
    region.write_chunk(5, 9, &[2; 100], CompressionType::Zlib, 2);
    region.write_chunk(31, 31, &[3; 5000], CompressionType::Zstd, 3);
    region.delete_chunk(5, 9, 4);
    region.write_chunk(5, 9, &[4; 200], CompressionType::LZ4, 5);

    // every occupied bit is claimed by exactly one header, and the other
    // way round
    let mut claims = vec![0u32; region.sector_count()];
    for x in 0u8..32 {
        for z in 0u8..32 {
            if let Some(addr) = region.lookup_header(x, z).address {
                for s in addr.offset - 2..addr.offset + addr.len - 2 {
                    claims[s as usize] += 1;
                }
            }
        }
    }
    for (i, claim) in claims.iter().enumerate() {
        assert!(*claim <= 1);
        assert_eq!(region.occupied(i), *claim == 1);
    }
}

#[test]
fn externally_stored_chunks_are_detected() {
    let mut region = RegionFile::new(vec![0u8; 8192]);
    region.write_chunk(2, 2, &[5, 6], CompressionType::GZip, 9);
    let mut image = region.serialize_full();
    assert!(!smithy::anvil::has_external_chunk(&image));
    // set the high bit of the stored codec byte
    image[8192 + 4] = 0x80;
    assert!(smithy::anvil::has_external_chunk(&image));
}
