use slpz::{
    compact_parts, compress, decompress, rebuild_raw, reorder_events, CompError, Compressor,
    DecompError, Decompressor,
};

const MAGIC: [u8; 11] = [0x7B, 0x55, 0x03, 0x72, 0x61, 0x77, 0x5B, 0x24, 0x55, 0x23, 0x6C];
const TABLE: [u8; 11] = [0x35, 10, 0x36, 0, 4, 0x37, 0, 3, 0x38, 0, 2];
const GAME_START: [u8; 5] = [0x36, 1, 2, 3, 4];
const METADATA: [u8; 6] = [0x55, 0x08, 0x6D, 0x65, 0x74, 0x61];

fn sample_events(records: usize) -> Vec<u8> {
    let mut events = Vec::new();
    for i in 0..records {
        let x = (i % 251) as u8;
        if i % 3 == 2 {
            events.extend_from_slice(&[0x38, x, x.wrapping_add(1)]);
        } else {
            events.extend_from_slice(&[0x37, x, 7, x.wrapping_mul(3)]);
        }
    }
    events
}

fn raw_file(events: &[u8]) -> Vec<u8> {
    let raw_len = (TABLE.len() + GAME_START.len() + events.len()) as u32;
    let mut raw = MAGIC.to_vec();
    raw.extend_from_slice(&raw_len.to_be_bytes());
    raw.extend_from_slice(&TABLE);
    raw.extend_from_slice(&GAME_START);
    raw.extend_from_slice(events);
    raw.extend_from_slice(&METADATA);
    raw
}

fn table_sizes() -> [u16; 256] {
    let mut sizes = [0u16; 256];
    sizes[0x36] = 4;
    sizes[0x37] = 3;
    sizes[0x38] = 2;
    sizes
}

fn expected_prefix(events_len: usize) -> Vec<u8> {
    let meta_at = 24 + TABLE.len() + GAME_START.len();
    let packed_at = meta_at + METADATA.len();
    let mut prefix = Vec::new();
    prefix.extend_from_slice(&0u32.to_be_bytes());
    prefix.extend_from_slice(&24u32.to_be_bytes());
    prefix.extend_from_slice(&((24 + TABLE.len()) as u32).to_be_bytes());
    prefix.extend_from_slice(&(meta_at as u32).to_be_bytes());
    prefix.extend_from_slice(&(packed_at as u32).to_be_bytes());
    prefix.extend_from_slice(&((4 + events_len) as u32).to_be_bytes());
    prefix.extend_from_slice(&TABLE);
    prefix.extend_from_slice(&GAME_START);
    prefix.extend_from_slice(&METADATA);
    prefix
}

#[test]
fn compress_then_decompress_gives_the_file_back() {
    let raw = raw_file(&sample_events(500));
    let mut compressor = Compressor::new(3).unwrap();
    let compact = compress(&mut compressor, &raw).unwrap();
    let mut decompressor = Decompressor::new().unwrap();
    assert_eq!(decompress(&mut decompressor, &compact), Ok(raw.clone()));
}

#[test]
fn round_trip_with_empty_event_stream() {
    let raw = raw_file(&[]);
    let mut compressor = Compressor::new(3).unwrap();
    let compact = compress(&mut compressor, &raw).unwrap();
    let mut decompressor = Decompressor::new().unwrap();
    assert_eq!(decompress(&mut decompressor, &compact), Ok(raw));
}

#[test]
fn compressed_file_starts_with_uncompressed_sections() {
    let events = sample_events(300);
    let raw = raw_file(&events);
    let mut compressor = Compressor::new(3).unwrap();
    let compact = compress(&mut compressor, &raw).unwrap();
    let prefix = expected_prefix(events.len());
    assert_eq!(&compact[..prefix.len()], prefix.as_slice());
    assert!(compact.len() > prefix.len());
    assert!(compact.len() < raw.len());
}

#[test]
fn compact_parts_gives_header_sections_and_planar_buffer() {
    let events = sample_events(20);
    let raw = raw_file(&events);
    let (prefix, planar) = compact_parts(&raw).unwrap();
    assert_eq!(prefix, expected_prefix(events.len()));
    let mut reordered = Vec::new();
    reorder_events(&events, &table_sizes(), &mut reordered).unwrap();
    assert_eq!(planar, reordered);
}

#[test]
fn rebuild_raw_restores_the_raw_file_from_planar_buffer() {
    let raw = raw_file(&sample_events(40));
    let (prefix, planar) = compact_parts(&raw).unwrap();
    let mut compact = prefix.clone();
    compact.extend_from_slice(&[9, 9, 9]);
    assert_eq!(rebuild_raw(&compact, &planar), Ok(raw));
    assert_eq!(rebuild_raw(&compact, &planar[..planar.len() - 1]), Err(DecompError::InvalidFile));
}

#[test]
fn compress_rejects_short_input() {
    let raw = raw_file(&sample_events(4));
    let mut compressor = Compressor::new(3).unwrap();
    for n in 0..16 {
        assert_eq!(compress(&mut compressor, &raw[..n]), Err(CompError::InvalidFile));
    }
}

#[test]
fn compress_rejects_bad_magic() {
    let mut compressor = Compressor::new(3).unwrap();
    for i in 0..11 {
        let mut raw = raw_file(&sample_events(4));
        raw[i] ^= 0x01;
        assert_eq!(compress(&mut compressor, &raw), Err(CompError::InvalidFile));
    }
}

#[test]
fn compress_rejects_malformed_sections() {
    let mut compressor = Compressor::new(3).unwrap();
    let good = raw_file(&sample_events(4));

    let mut bad_table_tag = good.clone();
    bad_table_tag[15] = 0x34;
    assert_eq!(compress(&mut compressor, &bad_table_tag), Err(CompError::InvalidFile));

    let mut bad_start_tag = good.clone();
    bad_start_tag[15 + TABLE.len()] = 0x37;
    assert_eq!(compress(&mut compressor, &bad_start_tag), Err(CompError::InvalidFile));

    let mut length_past_end = good.clone();
    length_past_end[11..15].copy_from_slice(&(good.len() as u32).to_be_bytes());
    assert_eq!(compress(&mut compressor, &length_past_end), Err(CompError::InvalidFile));

    let mut length_inside_header = good.clone();
    length_inside_header[11..15].copy_from_slice(&12u32.to_be_bytes());
    assert_eq!(compress(&mut compressor, &length_inside_header), Err(CompError::InvalidFile));

    let mut events = sample_events(4);
    events.push(0x39);
    let unknown_command = raw_file(&events);
    assert_eq!(compress(&mut compressor, &unknown_command), Err(CompError::InvalidFile));

    let mut events = sample_events(4);
    events.extend_from_slice(&[0x37, 1]);
    let truncated_record = raw_file(&events);
    assert_eq!(compress(&mut compressor, &truncated_record), Err(CompError::InvalidFile));
}

#[test]
fn decompress_rejects_newer_version() {
    let raw = raw_file(&sample_events(50));
    let mut compressor = Compressor::new(3).unwrap();
    let mut compact = compress(&mut compressor, &raw).unwrap();
    compact[3] = 1;
    let mut decompressor = Decompressor::new().unwrap();
    assert_eq!(decompress(&mut decompressor, &compact), Err(DecompError::InvalidFile));
    compact[3] = 0;
    compact[0] = 0x80;
    assert_eq!(decompress(&mut decompressor, &compact), Err(DecompError::InvalidFile));
}

#[test]
fn decompress_rejects_bad_header() {
    let raw = raw_file(&sample_events(50));
    let mut compressor = Compressor::new(3).unwrap();
    let compact = compress(&mut compressor, &raw).unwrap();
    let mut decompressor = Decompressor::new().unwrap();
    for n in 0..24 {
        assert_eq!(decompress(&mut decompressor, &compact[..n]), Err(DecompError::InvalidFile));
    }
    let mut past_end = compact.clone();
    past_end[16..20].copy_from_slice(&((compact.len() + 1) as u32).to_be_bytes());
    assert_eq!(decompress(&mut decompressor, &past_end), Err(DecompError::InvalidFile));
    let mut out_of_order = compact.clone();
    out_of_order[4..8].copy_from_slice(&40u32.to_be_bytes());
    assert_eq!(decompress(&mut decompressor, &out_of_order), Err(DecompError::InvalidFile));
}

#[test]
fn decompress_reports_backend_failure() {
    let raw = raw_file(&sample_events(50));
    let mut compressor = Compressor::new(3).unwrap();
    let mut compact = compress(&mut compressor, &raw).unwrap();
    let packed_at = u32::from_be_bytes(compact[16..20].try_into().unwrap()) as usize;
    for b in compact[packed_at..].iter_mut() {
        *b = 0xEE;
    }
    let mut decompressor = Decompressor::new().unwrap();
    assert_eq!(decompress(&mut decompressor, &compact), Err(DecompError::DecompressionFailure));
}

#[test]
fn compressors_are_reusable() {
    let mut compressor = Compressor::new(5).unwrap();
    let mut decompressor = Decompressor::new().unwrap();
    for records in [0, 1, 7, 64] {
        let raw = raw_file(&sample_events(records));
        let compact = compress(&mut compressor, &raw).unwrap();
        assert_eq!(decompress(&mut decompressor, &compact), Ok(raw));
    }
}

#[test]
fn small_file_round_trip_and_layout() {
    let raw: Vec<u8> = vec![
        0x7B, 0x55, 0x03, 0x72, 0x61, 0x77, 0x5B, 0x24, 0x55, 0x23, 0x6C, 0, 0, 0, 16, 0x35, 0x07,
        0x36, 0, 1, 0x10, 0, 2, 0x36, 0xAA, 0x10, 1, 2, 0x10, 3, 4, 0x7D,
    ];
    let mut compressor = Compressor::new(3).unwrap();
    let compact = compress(&mut compressor, &raw).unwrap();
    let prefix: Vec<u8> = vec![
        0, 0, 0, 0, 0, 0, 0, 24, 0, 0, 0, 32, 0, 0, 0, 34, 0, 0, 0, 35, 0, 0, 0, 10, 0x35, 0x07,
        0x36, 0, 1, 0x10, 0, 2, 0x36, 0xAA, 0x7D,
    ];
    assert_eq!(&compact[..35], prefix.as_slice());
    let (_, planar) = compact_parts(&raw).unwrap();
    assert_eq!(planar, vec![0, 0, 0, 2, 0x10, 0x10, 1, 3, 2, 4]);
    let mut decompressor = Decompressor::new().unwrap();
    assert_eq!(decompress(&mut decompressor, &compact), Ok(raw));
}

#[test]
fn compress_rejects_table_length_past_last_entry() {
    // length byte 9: two whole entries (7 bytes after the tag) and two stray bytes
    let mut raw = MAGIC.to_vec();
    let body: Vec<u8> = vec![0x35, 9, 0x36, 0, 1, 0x10, 0, 2, 0, 0, 0x36, 0xAA, 0x10, 1, 2];
    raw.extend_from_slice(&(body.len() as u32).to_be_bytes());
    raw.extend_from_slice(&body);
    let mut compressor = Compressor::new(3).unwrap();
    assert_eq!(compress(&mut compressor, &raw), Err(CompError::InvalidFile));
}

#[test]
fn table_length_one_past_last_entry_round_trips() {
    // length byte 8: two whole entries and one more byte, which the game-start tag fills
    let mut raw = MAGIC.to_vec();
    let body: Vec<u8> = vec![0x35, 8, 0x36, 0, 1, 0x10, 0, 2, 0x36, 0xAA, 0x10, 1, 2];
    raw.extend_from_slice(&(body.len() as u32).to_be_bytes());
    raw.extend_from_slice(&body);
    raw.push(0x7D);
    let mut compressor = Compressor::new(3).unwrap();
    let compact = compress(&mut compressor, &raw).unwrap();
    let mut decompressor = Decompressor::new().unwrap();
    assert_eq!(decompress(&mut decompressor, &compact), Ok(raw));
}
