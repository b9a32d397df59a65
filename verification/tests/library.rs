use xlive_extract::limits::{
    calc_limits_marker, calc_limits_time, calc_take_len, check_scan_safe, plan_total, span_plan,
    take_skip,
};
use xlive_extract::log::{
    check_take_table_overflows, get_session_info, name_session, read_log_file, LogData, LogError,
};
use xlive_extract::wave::{chunk_layout, check_frames_fit, extract_channel_samples, wave_header};
use xlive_extract::span::{part_location, span_samples_per_channel};
use xlive_extract::words::read_u32;

fn put_word(bytes: &mut Vec<u8>, k: usize, w: u32) {
    let b = w.to_le_bytes();
    bytes[4 * k..4 * k + 4].copy_from_slice(&b);
}

/// A complete log: header, the take sizes, and the markers.
fn sample_log(takes: &[u32], markers: &[u32], len: usize) -> Vec<u8> {
    let mut bytes = vec![0u8; len];
    put_word(&mut bytes, 0, 7);
    put_word(&mut bytes, 1, 2);
    put_word(&mut bytes, 2, 48000);
    put_word(&mut bytes, 3, 0x5a5a);
    put_word(&mut bytes, 4, takes.len() as u32);
    put_word(&mut bytes, 5, markers.len() as u32);
    put_word(&mut bytes, 6, 96000);
    for (i, t) in takes.iter().enumerate() {
        put_word(&mut bytes, 7 + i, *t);
    }
    for (i, m) in markers.iter().enumerate() {
        put_word(&mut bytes, 263 + i, *m);
    }
    bytes
}

fn log_with(sizes: Vec<u32>, markers: Vec<u32>, sample_rate: u32, no_channels: u32) -> LogData {
    LogData {
        session_str: String::from("00000000"),
        session_no: 1,
        no_channels,
        sample_rate,
        date_code: 0,
        no_takes: sizes.len() as u32,
        no_markers: markers.len() as u32,
        total_length: 0,
        take_size: sizes,
        take_markers: markers,
    }
}

#[test]
fn read_u32_is_little_endian() {
    let bytes = [0xffu8, 0x78, 0x56, 0x34, 0x12, 0xee];
    assert_eq!(read_u32(&bytes, 1), 0x1234_5678);
    assert_eq!(read_u32(&[0, 0, 0, 0], 0), 0);
    assert_eq!(read_u32(&[0xff, 0xff, 0xff, 0xff], 0), u32::MAX);
    assert_eq!(read_u32(&[0x0a, 0, 0, 0], 0), 10);
}

#[test]
fn read_log_file_reads_every_field() {
    let bytes = sample_log(&[1000, 2000], &[500, 2500], 1600);
    let d = read_log_file(&bytes).unwrap();
    assert_eq!(d.session_str, "00000000");
    assert_eq!(d.session_no, 7);
    assert_eq!(d.no_channels, 2);
    assert_eq!(d.sample_rate, 48000);
    assert_eq!(d.date_code, 0x5a5a);
    assert_eq!(d.no_takes, 2);
    assert_eq!(d.no_markers, 2);
    assert_eq!(d.total_length, 96000);
    assert_eq!(d.take_size, vec![1000, 2000]);
    assert_eq!(d.take_markers, vec![500, 2500]);
}

#[test]
fn read_log_file_needs_exactly_the_words_it_reads() {
    // Two markers: the log must reach byte 1052 + 8.
    let bytes = sample_log(&[1000], &[1, 2], 1060);
    assert!(read_log_file(&bytes).is_ok());
    assert_eq!(read_log_file(&bytes[..1059]).err(), Some(LogError::UnexpectedEof));
    // Header cut short.
    assert_eq!(read_log_file(&bytes[..27]).err(), Some(LogError::UnexpectedEof));
    assert_eq!(read_log_file(&[]).err(), Some(LogError::UnexpectedEof));
    // Take table cut short.
    assert_eq!(read_log_file(&bytes[..500]).err(), Some(LogError::UnexpectedEof));
}

#[test]
fn take_table_overflow_is_detected() {
    let mut bytes = vec![0u8; 28 + 4 * 300];
    put_word(&mut bytes, 4, 300);
    assert!(check_take_table_overflows(&bytes));
    // The announced take sizes are not all there: reading stops before the table end.
    assert!(!check_take_table_overflows(&bytes[..28 + 4 * 299]));
    assert_eq!(read_log_file(&bytes[..28 + 4 * 299]).err(), Some(LogError::UnexpectedEof));
    let fine = sample_log(&[5; 256], &[], 1052);
    assert!(!check_take_table_overflows(&fine));
    assert_eq!(read_log_file(&fine).unwrap().take_size.len(), 256);
}

#[test]
fn limits_by_time_locate_the_takes() {
    let log = log_with(vec![100, 200, 300], vec![], 10, 2);
    // 3 s * 10 Hz * 2 channels = 60, in the first take; 10 s gives 200, in the second.
    assert_eq!(calc_limits_time(3, 10, &log), (0, 1, 60, 200));
    // A take boundary belongs to the following take.
    assert_eq!(calc_limits_time(5, 15, &log), (1, 2, 100, 300));
    // Past the end of the session the first take is given.
    assert_eq!(calc_limits_time(0, 30, &log), (0, 0, 0, 600));
}

#[test]
fn limits_by_marker_locate_the_takes() {
    let log = log_with(vec![100, 200, 300], vec![10, 60, 140], 10, 2);
    assert_eq!(calc_limits_marker(0, 2, &log), (0, 1, 20, 280));
    assert_eq!(calc_limits_marker(1, 1, &log), (1, 1, 120, 120));
}

#[test]
fn scan_safety_check() {
    let sizes = vec![u32::MAX, 5];
    assert!(!check_scan_safe(&sizes, 2, u32::MAX));
    assert!(check_scan_safe(&sizes, 2, 3));
    // The table is shorter than the announced count, but the scan stops in time.
    assert!(check_scan_safe(&vec![10], 4, 5));
    assert!(!check_scan_safe(&vec![10], 4, 15));
}

#[test]
fn take_span_in_each_case() {
    let sizes = [100u32, 200, 300];
    assert_eq!(take_skip(0, 0, 60), Some(240));
    assert_eq!(take_skip(1, 0, 60), None);
    // start and stop in the same take
    assert_eq!(calc_take_len(1, 1, &sizes, 1, 20, 70), 50);
    // start take
    assert_eq!(calc_take_len(0, 0, &sizes, 2, 60, 280), 40);
    // middle take
    assert_eq!(calc_take_len(1, 0, &sizes, 2, 60, 280), 200);
    // stop take
    assert_eq!(calc_take_len(2, 0, &sizes, 2, 60, 280), 280);
}

#[test]
fn wave_header_bytes_exact() {
    let h = wave_header(10, 48000);
    let mut expected: Vec<u8> = Vec::new();
    expected.extend_from_slice(b"RIFF");
    expected.extend_from_slice(&66u32.to_le_bytes());
    expected.extend_from_slice(b"WAVEfmt ");
    expected.extend_from_slice(&16u32.to_le_bytes());
    expected.extend_from_slice(&1u16.to_le_bytes());
    expected.extend_from_slice(&1u16.to_le_bytes());
    expected.extend_from_slice(&48000u32.to_le_bytes());
    expected.extend_from_slice(&144000u32.to_le_bytes());
    expected.extend_from_slice(&3u16.to_le_bytes());
    expected.extend_from_slice(&24u16.to_le_bytes());
    expected.extend_from_slice(b"data");
    expected.extend_from_slice(&30u32.to_le_bytes());
    assert_eq!(h.len(), 44);
    assert_eq!(h, expected);
}

#[test]
fn wave_header_fields_read_back() {
    let h = wave_header(1_000_000, 44100);
    assert_eq!(read_u32(&h, 4), 3_000_036);
    assert_eq!(read_u32(&h, 16), 16);
    assert_eq!(read_u32(&h, 24), 44100);
    assert_eq!(read_u32(&h, 28), 132300);
    assert_eq!(read_u32(&h, 40), 3_000_000);
}

#[test]
fn chunk_layout_counts() {
    assert_eq!(chunk_layout(100, 64), (6, 16));
    assert_eq!(chunk_layout(16, 64), (1, 0));
    assert_eq!(chunk_layout(0, 4 * 1024 * 1024), (0, 0));
    let (full, rest) = chunk_layout(3_000_000, 4 * 1024 * 1024);
    assert_eq!(full as usize * 4 * 1024 * 1024 + rest, 12_000_000);
}

#[test]
fn channel_samples_take_the_high_bytes() {
    // Two frames of two channels.
    let buf = [0, 1, 2, 3, 10, 11, 12, 13, 20, 21, 22, 23, 30, 31, 32, 33];
    assert_eq!(extract_channel_samples(&buf, 2, 0), vec![1, 2, 3, 21, 22, 23]);
    assert_eq!(extract_channel_samples(&buf, 2, 1), vec![11, 12, 13, 31, 32, 33]);
    assert_eq!(extract_channel_samples(&buf, 1, 0), vec![1, 2, 3, 11, 12, 13, 21, 22, 23, 31, 32, 33]);
    assert_eq!(extract_channel_samples(&[], 3, 2), Vec::<u8>::new());
}

#[test]
fn channel_samples_of_chunks_concatenate() {
    let whole: Vec<u8> = (0u8..48).collect();
    for ch in 0..3 {
        let all = extract_channel_samples(&whole, 3, ch);
        let mut parts = extract_channel_samples(&whole[..24], 3, ch);
        parts.extend(extract_channel_samples(&whole[24..], 3, ch));
        assert_eq!(all, parts);
    }
}

#[test]
fn frames_fit_check() {
    assert!(check_frames_fit(8, 2, 1));
    assert!(!check_frames_fit(6, 2, 1));
    assert!(check_frames_fit(0, 2, 7));
    // A last, partial frame that still holds channel 0 but not channel 1.
    assert!(check_frames_fit(12, 2, 0));
    assert!(!check_frames_fit(12, 2, 1));
}

#[test]
fn name_session_writes_the_field() {
    let mut log = vec![0xaau8; 1600];
    name_session(&mut log, b"abc");
    assert_eq!(&log[1552..1555], b"abc");
    assert!(log[1555..1572].iter().all(|b| *b == 0));
    assert!(log[..1552].iter().all(|b| *b == 0xaa));
    assert!(log[1572..].iter().all(|b| *b == 0xaa));

    let mut log = vec![0xaau8; 1572];
    name_session(&mut log, b"a name that is far too long");
    assert_eq!(&log[1552..1571], b"a name that is far ");
    assert_eq!(log[1571], 0);
}

#[test]
fn naming_keeps_the_log_data() {
    let bytes = sample_log(&[1000, 2000], &[500], 1600);
    let mut named = bytes.clone();
    name_session(&mut named, b"gig");
    let a = read_log_file(&bytes).unwrap();
    let b = read_log_file(&named).unwrap();
    assert_eq!(a.take_size, b.take_size);
    assert_eq!(a.take_markers, b.take_markers);
    assert_eq!(a.total_length, b.total_length);
    assert_eq!(a.session_no, b.session_no);
}

#[test]
fn session_info_numbers() {
    let mut log = log_with(vec![100], vec![48000, 96000, 7], 48000, 2);
    log.total_length = 480000;
    log.no_markers = 2;
    let info = get_session_info(&log).unwrap();
    assert_eq!(info.total_length_bytes, 1_920_000);
    assert_eq!(info.total_seconds, 10);
    assert_eq!(info.marker_seconds, vec![1, 2]);

    log.no_markers = 9;
    assert_eq!(get_session_info(&log).unwrap().marker_seconds, vec![1, 2, 0]);

    log.sample_rate = 0;
    assert!(get_session_info(&log).is_none());
    log.sample_rate = 48000;
    log.no_channels = 0;
    assert!(get_session_info(&log).is_none());
}

#[test]
fn span_within_first_take_is_exact() {
    let log = log_with(vec![1000, 2000], vec![], 10, 2);
    let (start_take, end_take, s, e) = calc_limits_time(2, 40, &log);
    assert_eq!((start_take, end_take, s, e), (0, 0, 40, 800));
    assert_eq!(take_skip(0, start_take, s), Some(160));
    assert_eq!(calc_take_len(0, start_take, &log.take_size, end_take, s, e), 760);
}

#[test]
fn start_take_never_after_end_take() {
    let log = log_with(vec![50, 50, 50, 50], vec![], 1, 1);
    for start in 0..200u32 {
        for stop in start..200u32 {
            let (a, b, _, _) = calc_limits_time(start, stop, &log);
            assert!(a <= b);
        }
    }
}

#[test]
fn span_plan_parts_are_relative_to_their_takes() {
    let sizes = vec![100u32, 200, 300];
    // [150, 450): take 1 from sample 50 on, then take 2 up to sample 150.
    assert_eq!(span_plan(&sizes, 3, 150, 450), vec![(1, 50, 150), (2, 0, 150)]);
    assert_eq!(plan_total(&span_plan(&sizes, 3, 150, 450)), 300);
    // within the first take
    assert_eq!(span_plan(&sizes, 3, 20, 70), vec![(0, 20, 50)]);
    // across all takes
    assert_eq!(span_plan(&sizes, 3, 0, 600), vec![(0, 0, 100), (1, 0, 200), (2, 0, 300)]);
    // past the end: cut to the takes
    assert_eq!(plan_total(&span_plan(&sizes, 3, 550, 900)), 50);
    // empty or reversed spans read nothing
    assert_eq!(span_plan(&sizes, 3, 70, 70), vec![]);
    assert_eq!(span_plan(&sizes, 3, 300, 100), vec![]);
    // only the first no_takes entries count
    assert_eq!(span_plan(&sizes, 2, 0, 600), vec![(0, 0, 100), (1, 0, 200)]);
}

#[test]
fn span_plan_lengths_add_up() {
    let sizes = vec![40u32, 0, 24, 96, 8];
    for s in 0..=168u32 {
        for e in s..=168u32 {
            let plan = span_plan(&sizes, 5, s, e);
            assert_eq!(plan_total(&plan), (e - s) as u128);
            for &(take, skip, len) in &plan {
                assert!(len > 0 && skip + len <= sizes[take]);
            }
        }
    }
}

#[test]
fn chunk_size_does_not_change_channel_data() {
    // A take of 96 samples over 3 channels, read in chunks of 24, 48 or 36 bytes.
    let take: Vec<u8> = (0..=255u8).cycle().take(96 * 4).collect();
    for ch in 0..3u32 {
        let whole = extract_channel_samples(&take, 3, ch);
        for bufsize in [24usize, 48, 36, 384, 1000] {
            let (full, rest) = chunk_layout(96, bufsize);
            let mut got = Vec::new();
            for c in 0..full as usize {
                got.extend(extract_channel_samples(&take[c * bufsize..(c + 1) * bufsize], 3, ch));
            }
            let at = full as usize * bufsize;
            got.extend(extract_channel_samples(&take[at..at + rest], 3, ch));
            assert_eq!(got, whole);
        }
    }
}

#[test]
fn part_location_and_span_header_samples() {
    assert_eq!(part_location((2, 50, 150)), (32768 + 200, 150));
    assert_eq!(part_location((0, 0, 7)), (32768, 7));
    let sizes = vec![100u32, 200, 300];
    let plan = span_plan(&sizes, 3, 150, 450);
    assert_eq!(span_samples_per_channel(&plan, 2), Some(150));
    assert_eq!(span_samples_per_channel(&plan, 1), Some(300));
    let huge = vec![(0usize, 0u32, u32::MAX), (1, 0, u32::MAX)];
    assert_eq!(span_samples_per_channel(&huge, 1), None);
    assert_eq!(span_samples_per_channel(&huge, 2), Some(u32::MAX));
}

#[test]
fn span_read_from_take_files_matches_session_audio() {
    // Three takes of 2 channels; sizes in samples over all channels.
    let sizes = vec![6u32, 4, 8];
    let mut takes: Vec<Vec<u8>> = Vec::new();
    let mut session: Vec<u8> = Vec::new();
    for (t, size) in sizes.iter().enumerate() {
        let mut file = vec![0xeeu8; 32768];
        for w in 0..*size as usize * 4 {
            file.push((t * 64 + w) as u8);
        }
        session.extend_from_slice(&file[32768..]);
        takes.push(file);
    }
    let (s, e) = (4u32, 16u32);
    let plan = span_plan(&sizes, 3, s, e);
    for ch in 0..2u32 {
        let mut got = Vec::new();
        for &part in &plan {
            let (offset, length) = part_location(part);
            let start = offset as usize;
            let bytes = &takes[part.0][start..start + 4 * length as usize];
            got.extend(extract_channel_samples(bytes, 2, ch));
        }
        let want = extract_channel_samples(&session[4 * s as usize..4 * e as usize], 2, ch);
        assert_eq!(got, want);
    }
}
