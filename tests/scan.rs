use fm_scan::locate::{select_pid, utf16le_pattern, utf8_pattern, window_of};
use fm_scan::scan::{scan_memory, ScanConfig, Scanner};
use fm_scan::window::{find_in_window, first_match};

fn config(lower: usize, upper: usize, chunk: usize, pattern: &[u8]) -> ScanConfig {
    ScanConfig { lower, upper, chunk_size: chunk, pattern: pattern.to_vec() }
}

/// Splits `bytes` into windows of `chunk` bytes; the windows listed in
/// `unreadable` read as `None`.
fn memory(bytes: &[u8], chunk: usize, unreadable: &[usize]) -> Vec<Option<Vec<u8>>> {
    bytes
        .chunks(chunk)
        .enumerate()
        .map(|(j, w)| if unreadable.contains(&j) { None } else { Some(w.to_vec()) })
        .collect()
}

fn plant(bytes: &mut [u8], at: usize, pattern: &[u8]) {
    bytes[at..at + pattern.len()].copy_from_slice(pattern);
}

#[test]
fn straddling_pattern_found_at_its_start() {
    let p = [0xAA, 0xBB, 0xCC];
    let mut bytes = vec![0u8; 0x40];
    plant(&mut bytes, 0x0E, &p);
    let r = scan_memory(config(0x0, 0x40, 16, &p), &memory(&bytes, 16, &[]));
    assert_eq!(r, Some(0x0E));
}

#[test]
fn absent_pattern_visits_every_window() {
    let p = [0xAA, 0xBB, 0xCC];
    let bytes = vec![0u8; 0x40];
    let mem = memory(&bytes, 16, &[]);
    assert_eq!(scan_memory(config(0x0, 0x40, 16, &p), &mem), None);

    let mut scanner = Scanner::new(config(0x0, 0x40, 16, &p));
    let mut bases = Vec::new();
    while let Some(base) = scanner.next_base() {
        bases.push(base);
        let w = mem[(base / 16) as usize].clone();
        assert_eq!(scanner.feed(w), None);
    }
    assert_eq!(bases, vec![0x00, 0x10, 0x20, 0x30]);
    assert_eq!(scanner.visited(), 4);
}

#[test]
fn exact_match_in_readable_range() {
    let p = [1, 2, 3, 4];
    let mut bytes = vec![0u8; 64];
    plant(&mut bytes, 37, &p);
    let r = scan_memory(config(0x1000, 0x1040, 16, &p), &memory(&bytes, 16, &[]));
    assert_eq!(r, Some(0x1000 + 37));
}

#[test]
fn every_boundary_offset_is_found() {
    let p = [9, 8, 7, 6, 5];
    for d in 1..p.len() {
        let mut bytes = vec![0u8; 64];
        let at = 32 - d;
        plant(&mut bytes, at, &p);
        let r = scan_memory(config(0, 64, 16, &p), &memory(&bytes, 16, &[]));
        assert_eq!(r, Some(at));
    }
}

#[test]
fn pattern_as_long_as_a_window_across_a_boundary() {
    let p = [5, 6, 7, 8];
    let mut bytes = vec![0u8; 16];
    plant(&mut bytes, 6, &p);
    let r = scan_memory(config(0, 16, 4, &p), &memory(&bytes, 4, &[]));
    assert_eq!(r, Some(6));
}

#[test]
fn unreadable_windows_are_skipped() {
    let p = [0xDE, 0xAD];
    let mut bytes = vec![0u8; 64];
    plant(&mut bytes, 50, &p);
    let r = scan_memory(config(0, 64, 16, &p), &memory(&bytes, 16, &[0, 2]));
    assert_eq!(r, Some(50));
}

#[test]
fn pattern_in_unreadable_window_is_not_reported() {
    let p = [0xDE, 0xAD];
    let mut bytes = vec![0u8; 64];
    plant(&mut bytes, 20, &p);
    let r = scan_memory(config(0, 64, 16, &p), &memory(&bytes, 16, &[1]));
    assert_eq!(r, None);
}

#[test]
fn straddle_into_unreadable_window_is_not_reported() {
    let p = [0xDE, 0xAD];
    let mut bytes = vec![0u8; 64];
    plant(&mut bytes, 15, &p);
    let r = scan_memory(config(0, 64, 16, &p), &memory(&bytes, 16, &[1]));
    assert_eq!(r, None);
}

#[test]
fn lowest_of_several_matches_is_reported() {
    let p = [4, 4];
    let mut bytes = vec![0u8; 64];
    plant(&mut bytes, 40, &p);
    plant(&mut bytes, 31, &p);
    plant(&mut bytes, 5, &p);
    let r = scan_memory(config(0, 64, 16, &p), &memory(&bytes, 16, &[]));
    assert_eq!(r, Some(5));
    let r = scan_memory(config(0, 64, 16, &p), &memory(&bytes, 16, &[0]));
    assert_eq!(r, Some(31));
}

#[test]
fn range_not_a_multiple_of_the_chunk_reads_a_whole_last_window() {
    let p = [7, 7, 7];
    let mut bytes = vec![0u8; 32];
    plant(&mut bytes, 28, &p);
    let r = scan_memory(config(0, 20, 16, &p), &memory(&bytes, 16, &[]));
    assert_eq!(r, Some(28));
}

#[test]
fn empty_range_reads_nothing() {
    let p = [1];
    let r = scan_memory(config(8, 8, 16, &p), &Vec::new());
    assert_eq!(r, None);
    let scanner = Scanner::new(config(8, 8, 16, &p));
    assert_eq!(scanner.next_base(), None);
}

#[test]
fn find_in_window_reports_lowest_absolute_address() {
    let w = vec![0, 1, 2, 1, 2, 3];
    assert_eq!(find_in_window(&w, 0x500, &vec![1, 2]), Some(0x501));
    assert_eq!(find_in_window(&w, 0x500, &vec![2, 3]), Some(0x504));
    assert_eq!(find_in_window(&w, 0x500, &vec![3, 1]), None);
    assert_eq!(first_match(&w, &vec![1, 2, 3]), Some(3));
    assert_eq!(first_match(&w, &vec![0, 1, 2, 1, 2, 3, 4]), None);
}

#[test]
fn window_of_splits_address() {
    assert_eq!(window_of(0x30000000, 0x20000, 0x30041234), (0x30040000, 0x1234));
    assert_eq!(window_of(0, 16, 0x0E), (0x00, 0x0E));
    assert_eq!(window_of(3, 16, 3), (3, 0));
}

#[test]
fn select_pid_takes_last_of_same_name() {
    let procs = vec![
        (10, String::from("fm.exe")),
        (11, String::from("bash")),
        (12, String::from("fm.exe")),
        (13, String::from("fm.exe2")),
    ];
    assert_eq!(select_pid(&procs, &String::from("fm.exe")), Some(12));
    assert_eq!(select_pid(&procs, &String::from("bash")), Some(11));
    assert_eq!(select_pid(&procs, &String::from("fm")), None);
    assert_eq!(select_pid(&Vec::new(), &String::from("fm.exe")), None);
}

#[test]
fn utf8_pattern_is_the_text_bytes() {
    assert_eq!(utf8_pattern("Wadhah Zaidi"), b"Wadhah Zaidi".to_vec());
    assert_eq!(utf8_pattern("\u{e9}"), vec![0xC3, 0xA9]);
    assert_eq!(utf8_pattern(""), Vec::<u8>::new());
}

#[test]
fn remote_read_of_own_memory() {
    let pid = sysinfo::get_current_pid().expect("own pid") as i32;
    let proc_ = fm_scan::remote::RemoteProcess::open(pid).expect("handle");
    let data: Vec<u8> = vec![0x11, 0x22, 0x33, 0x44, 0x55, 0x66, 0x77, 0x88];
    let addr = data.as_ptr() as usize;
    if let Some(read) = proc_.read_window(addr, 8) {
        assert_eq!(read, data);
    }
    assert_eq!(proc_.read_window(0, 8), None);
}

#[test]
fn utf16le_pattern_is_wide_text() {
    assert_eq!(utf16le_pattern("Wa"), vec![0x57, 0x00, 0x61, 0x00]);
    assert_eq!(utf16le_pattern("\u{e9}\u{20ac}"), vec![0xE9, 0x00, 0xAC, 0x20]);
    assert_eq!(utf16le_pattern("\u{1F600}"), vec![0x3D, 0xD8, 0x00, 0xDE]);
    assert_eq!(utf16le_pattern(""), Vec::<u8>::new());
}

#[test]
fn wide_name_found_across_windows() {
    let p = utf16le_pattern("Zaidi");
    let mut bytes = vec![0u8; 64];
    plant(&mut bytes, 12, &p);
    let r = scan_memory(config(0x2000, 0x2040, 16, &p), &memory(&bytes, 16, &[]));
    assert_eq!(r, Some(0x200C));
    assert_eq!(window_of(0x2000, 16, 0x200C), (0x2000, 0x0C));
}
