use slpz::{event_counts, event_sizes, reorder_events, unorder_events, CompError, DecompError};

fn sizes_of(pairs: &[(usize, u16)]) -> [u16; 256] {
    let mut sizes = [0u16; 256];
    for &(c, s) in pairs {
        sizes[c] = s;
    }
    sizes
}

#[test]
fn reorder_round_trip() {
    let events = [
        3, 1, 2, 3, 4, 5,
        1, 0, 1, 2,
        1, 10, 11, 12,
        2, 1,
        2, 2,
        3, 1, 2, 3, 4, 5,
        1, 20, 21, 22
    ];
    let mut event_sizes = [0u16; 256];
    event_sizes[..4].copy_from_slice(&[0, 3, 1, 5]);

    let mut reordered = Vec::new();
    reorder_events(&events, &event_sizes, &mut reordered).unwrap();
    println!("{:?}", reordered);

    let mut unordered = Vec::new();
    unorder_events(&reordered, &event_sizes, &mut unordered).unwrap();

    assert_eq!(events.as_slice(), &unordered);
}

#[test]
fn reorder_scenario_layout() {
    let events = [
        3, 1, 2, 3, 4, 5, 1, 0, 1, 2, 1, 10, 11, 12, 2, 1, 2, 2, 3, 1, 2, 3, 4, 5, 1, 20, 21, 22,
    ];
    let sizes = sizes_of(&[(1, 3), (2, 1), (3, 5)]);
    let mut out = Vec::new();
    let written = reorder_events(&events, &sizes, &mut out).unwrap();
    let expected: Vec<u8> = vec![
        0, 0, 0, 7, // record count
        3, 1, 1, 2, 2, 3, 1, // order list
        0, 10, 20, 1, 11, 21, 2, 12, 22, // command 1, three planes of stride 3
        1, 2, // command 2, one plane of stride 2
        1, 1, 2, 2, 3, 3, 4, 4, 5, 5, // command 3, five planes of stride 2
    ];
    assert_eq!(out, expected);
    assert_eq!(written, 32);
    assert_eq!(written, 4 + events.len());

    let mut back = Vec::new();
    assert_eq!(unorder_events(&out, &sizes, &mut back), Ok(events.len()));
    assert_eq!(back, events.to_vec());
}

#[test]
fn reorder_appends_after_existing_bytes() {
    let events = [1, 9, 9, 2, 7];
    let sizes = sizes_of(&[(1, 2), (2, 1)]);
    let mut out = vec![0xAA, 0xBB];
    assert_eq!(reorder_events(&events, &sizes, &mut out), Ok(9));
    assert_eq!(out, vec![0xAA, 0xBB, 0, 0, 0, 2, 1, 2, 9, 9, 7]);
    let mut back = vec![0xCC];
    assert_eq!(unorder_events(&out[2..], &sizes, &mut back), Ok(5));
    assert_eq!(back, vec![0xCC, 1, 9, 9, 2, 7]);
}

#[test]
fn reorder_empty_stream() {
    let sizes = sizes_of(&[(1, 3)]);
    let mut out = Vec::new();
    assert_eq!(reorder_events(&[], &sizes, &mut out), Ok(4));
    assert_eq!(out, vec![0, 0, 0, 0]);
    let mut back = Vec::new();
    assert_eq!(unorder_events(&out, &sizes, &mut back), Ok(0));
    assert!(back.is_empty());
}

#[test]
fn reorder_rejects_zero_size_command() {
    let sizes = sizes_of(&[(1, 2)]);
    let events = [1, 5, 6, 4, 0, 0];
    let mut out = vec![42];
    assert_eq!(reorder_events(&events, &sizes, &mut out), Err(CompError::InvalidFile));
    assert_eq!(out, vec![42]);
    assert_eq!(event_counts(&events, &sizes), Err(CompError::InvalidFile));
}

#[test]
fn reorder_rejects_truncated_record() {
    let sizes = sizes_of(&[(1, 3)]);
    let events = [1, 5, 6, 7, 1, 8];
    let mut out = Vec::new();
    assert_eq!(reorder_events(&events, &sizes, &mut out), Err(CompError::InvalidFile));
    assert!(out.is_empty());
}

#[test]
fn event_counts_counts_records_by_command() {
    let sizes = sizes_of(&[(1, 3), (2, 1), (3, 5)]);
    let events = [
        3, 1, 2, 3, 4, 5, 1, 0, 1, 2, 1, 10, 11, 12, 2, 1, 2, 2, 3, 1, 2, 3, 4, 5, 1, 20, 21, 22,
    ];
    let counts = event_counts(&events, &sizes).unwrap();
    assert_eq!(counts[1], 3);
    assert_eq!(counts[2], 2);
    assert_eq!(counts[3], 2);
    assert_eq!(counts.iter().map(|&c| c as usize).sum::<usize>(), 7);
}

#[test]
fn event_counts_counts_a_last_record_that_runs_past_the_end() {
    let sizes = sizes_of(&[(1, 3)]);
    let counts = event_counts(&[1, 5, 6, 7, 1, 8], &sizes).unwrap();
    assert_eq!(counts[1], 2);
}

#[test]
fn reorder_boundary_commands_250_to_255() {
    let sizes = sizes_of(&[(250, 1), (251, 2), (252, 3), (253, 1), (254, 2), (255, 3)]);
    let events = [
        255, 1, 2, 3, 250, 4, 254, 5, 6, 251, 7, 8, 253, 9, 252, 10, 11, 12, 255, 13, 14, 15,
    ];
    let mut out = Vec::new();
    assert_eq!(reorder_events(&events, &sizes, &mut out), Ok(4 + events.len()));
    let expected: Vec<u8> = vec![
        0, 0, 0, 7, // record count
        255, 250, 254, 251, 253, 252, 255, // order list
        4, // 250
        7, 8, // 251
        10, 11, 12, // 252
        9, // 253
        5, 6, // 254
        1, 13, 2, 14, 3, 15, // 255, stride 2
    ];
    assert_eq!(out, expected);
    let mut back = Vec::new();
    assert_eq!(unorder_events(&out, &sizes, &mut back), Ok(events.len()));
    assert_eq!(back, events.to_vec());
}

#[test]
fn unorder_rejects_planar_data_too_short() {
    let sizes = sizes_of(&[(1, 3)]);
    let buf = [0, 0, 0, 2, 1, 1, 10, 20, 11, 21, 12];
    let mut out = vec![7];
    assert_eq!(unorder_events(&buf, &sizes, &mut out), Err(DecompError::InvalidFile));
    assert_eq!(out, vec![7]);
}

#[test]
fn unorder_rejects_planar_data_too_long() {
    let sizes = sizes_of(&[(1, 3)]);
    let buf = [0, 0, 0, 1, 1, 10, 11, 12, 13];
    let mut out = Vec::new();
    assert_eq!(unorder_events(&buf, &sizes, &mut out), Err(DecompError::InvalidFile));
    assert!(out.is_empty());
}

#[test]
fn unorder_rejects_count_past_end_and_short_buffer() {
    let sizes = sizes_of(&[(1, 3)]);
    let mut out = Vec::new();
    assert_eq!(unorder_events(&[0, 0, 0, 9, 1, 2], &sizes, &mut out), Err(DecompError::InvalidFile));
    assert_eq!(unorder_events(&[0, 0, 1], &sizes, &mut out), Err(DecompError::InvalidFile));
    assert_eq!(unorder_events(&[], &sizes, &mut out), Err(DecompError::InvalidFile));
    assert!(out.is_empty());
}

#[test]
fn event_sizes_reads_entries() {
    let record = [0x35, 10, 0x36, 0x01, 0x2C, 0x37, 0x00, 0x05, 0x38, 0x00, 0x01, 0xFF];
    let (sizes, count) = event_sizes(&record).unwrap();
    assert_eq!(count, 3);
    assert_eq!(sizes[0x36], 300);
    assert_eq!(sizes[0x37], 5);
    assert_eq!(sizes[0x38], 1);
    assert_eq!(sizes.iter().filter(|&&s| s != 0).count(), 3);
}

#[test]
fn event_sizes_later_entry_overrides() {
    let record = [0x35, 7, 0x40, 0x00, 0x02, 0x40, 0x00, 0x09];
    let (sizes, count) = event_sizes(&record).unwrap();
    assert_eq!(count, 2);
    assert_eq!(sizes[0x40], 9);
}

#[test]
fn event_sizes_rejects_unreadable_records() {
    assert_eq!(event_sizes(&[]), None);
    assert_eq!(event_sizes(&[0x35]), None);
    assert_eq!(event_sizes(&[0x35, 0]), None);
    // declared length 10, only 9 bytes
    assert_eq!(event_sizes(&[0x35, 10, 1, 0, 1, 2, 0, 1, 3]), None);
    // declared length 4 fits, but its one entry needs 5 bytes
    assert_eq!(event_sizes(&[0x35, 4, 1, 0]), None);
}
