use onebrc::driver::check_records;
use onebrc::driver::cleanup_region;
use onebrc::driver::last_newline;
use onebrc::driver::process_buffer;
use onebrc::hash_table::Table;
use onebrc::hash_table::TableError;
use onebrc::report::render_entries;
use onebrc::report::sort_entries;

fn run_on(table_size: usize, input: &[u8]) -> Result<String, TableError> {
    let mut tbl = Table::new(table_size);
    assert!(check_records(input), "malformed test input");
    cleanup_region(&mut tbl, input, 0)?;
    let mut entries = tbl.entries();
    sort_entries(&mut entries);
    let out = render_entries(&entries);
    Ok(String::from_utf8(out).unwrap())
}

fn run(input: &[u8]) -> String {
    run_on(1 << 16, input).unwrap()
}

/// Emulate the read-buffer driver: refill a buffer of the given size from
/// the input, process up to the last newline, and carry the tail over as
/// the residue of the next round.
fn run_chunked(input: &[u8], buf_size: usize) -> String {
    let mut tbl = Table::new(1 << 16);
    let mut residue: Vec<u8> = Vec::new();
    let mut pos = 0;
    while pos < input.len() {
        let take = buf_size.min(input.len() - pos).min(buf_size - residue.len());
        let mut buf = residue.clone();
        buf.extend_from_slice(&input[pos..pos + take]);
        pos += take;
        let effective = match last_newline(&buf) {
            Some(k) => &buf[..k + 1],
            None => &buf[..0],
        };
        assert!(check_records(effective));
        let consumed = process_buffer(&mut tbl, &buf).unwrap();
        residue = buf[consumed..].to_vec();
    }
    let mut entries = tbl.entries();
    sort_entries(&mut entries);
    String::from_utf8(render_entries(&entries)).unwrap()
}

#[test]
fn test_ten_station_report() {
    let input = b"Hamburg;12.0\nBulawayo;8.9\nPalembang;38.8\nSt. Johns;15.2\nCracow;12.6\nBridgetown;26.9\nIstanbul;6.2\nRoseau;34.4\nConakry;31.2\nIstanbul;23.0\n";
    let expected = "{Bridgetown=26.9/26.9/26.9, Bulawayo=8.9/8.9/8.9, Conakry=31.2/31.2/31.2, Cracow=12.6/12.6/12.6, Hamburg=12.0/12.0/12.0, Istanbul=6.2/14.6/23.0, Palembang=38.8/38.8/38.8, Roseau=34.4/34.4/34.4, St. Johns=15.2/15.2/15.2}";
    assert_eq!(run(input), expected);
}

#[test]
fn test_single_station_two_samples() {
    assert_eq!(run(b"Xi;5.0\nXi;-5.0\n"), "{Xi=-5.0/0.0/5.0}");
}

#[test]
fn test_long_name_slow_path() {
    let input = b"Llanfairpwllgwyngyllgogerychwyrndrobwllllantysiliogogogoch;0.0\n";
    let expected =
        "{Llanfairpwllgwyngyllgogerychwyrndrobwllllantysiliogogogoch=0.0/0.0/0.0}";
    assert_eq!(run(input), expected);
}

#[test]
fn test_block_boundary_mid_name() {
    let input = b"Hamburg;12.0\nBulawayo;8.9\nPalembang;38.8\nSt. Johns;15.2\nCracow;12.6\nBridgetown;26.9\nIstanbul;6.2\nRoseau;34.4\nConakry;31.2\nIstanbul;23.0\n";
    let whole = run(input);
    assert_eq!(run_chunked(input, 64), whole);
    assert_eq!(run_chunked(input, 4 << 20), whole);
}

#[test]
fn test_extreme_values() {
    assert_eq!(run(b"A;-99.9\nA;99.9\n"), "{A=-99.9/0.0/99.9}");
}

#[test]
fn test_tail_after_last_newline_ignored() {
    let input = b"Oslo;1.0\npartial";
    let mut tbl = Table::new(1 << 16);
    let consumed = process_buffer(&mut tbl, input).unwrap();
    assert_eq!(consumed, 9);
    let mut entries = tbl.entries();
    sort_entries(&mut entries);
    let out = String::from_utf8(render_entries(&entries)).unwrap();
    assert_eq!(out, "{Oslo=1.0/1.0/1.0}");
}

#[test]
fn test_zero_hash_reported() {
    // a single NUL byte hashes to the empty-slot sentinel
    let r = run_on(1 << 8, b"\x00;1.0\n");
    assert_eq!(r.unwrap_err(), TableError::ZeroHash);
    // sixteen identical bytes make the prefix and suffix cancel
    let r = run_on(1 << 8, b"AAAAAAAAAAAAAAAA;1.0\n");
    assert_eq!(r.unwrap_err(), TableError::ZeroHash);
}

#[test]
fn test_probe_overflow_reported() {
    let mut input = Vec::new();
    for i in 0..9 {
        input.extend_from_slice(format!("Station{};1.0\n", i).as_bytes());
    }
    let r = run_on(8, &input);
    assert_eq!(r.unwrap_err(), TableError::ProbeOverflow);
}

#[test]
fn test_count_overflow_reported() {
    let mut input = Vec::new();
    for _ in 0..65536 {
        input.extend_from_slice(b"A;0.1\n");
    }
    let r = run_on(1 << 8, &input);
    assert_eq!(r.unwrap_err(), TableError::CountOverflow);
}

#[test]
fn test_count_at_ceiling_is_fine() {
    let mut input = Vec::new();
    for _ in 0..65535 {
        input.extend_from_slice(b"A;0.1\n");
    }
    assert_eq!(run_on(1 << 8, &input).unwrap(), "{A=0.1/0.1/0.1}");
}

#[test]
fn test_mean_rounds_half_away_from_zero() {
    // 0.2 and 0.3 average to 0.25, reported as 0.3
    assert_eq!(run(b"P;0.2\nP;0.3\n"), "{P=0.2/0.3/0.3}");
    // symmetric on the negative side
    assert_eq!(run(b"N;-0.2\nN;-0.3\n"), "{N=-0.3/-0.3/-0.2}");
}

#[test]
fn test_check_records_rejects_malformed() {
    assert!(check_records(b""));
    assert!(check_records(b"A;1.0\n"));
    assert!(!check_records(b"A;1.0"));
    assert!(!check_records(b";1.0\n"));
    assert!(!check_records(b"A1.0\n"));
    assert!(!check_records(b"A;1.00\n"));
    assert!(!check_records(b"A;abc\n"));
    assert!(!check_records(b"A;1.0\nB"));
    let long_name = vec![b'x'; 101];
    let mut line = long_name.clone();
    line.extend_from_slice(b";1.0\n");
    assert!(!check_records(&line));
}

#[test]
fn test_last_newline_positions() {
    assert_eq!(last_newline(b"abc\ndef\n"), Some(7));
    assert_eq!(last_newline(b"abc\ndef"), Some(3));
    assert_eq!(last_newline(b"abcdef"), None);
    assert_eq!(last_newline(b""), None);
}

#[test]
fn test_region_split_matches_whole() {
    // the same records split into two regions at a record boundary
    let whole = b"Xi;1.2\nBo;3.4\nAb;5.6\nCd;7.8\nXi;2.0\n";
    let r1 = &whole[..14];
    let r2 = &whole[14..];
    let mut tbl = Table::new(1 << 8);
    assert!(check_records(r1));
    assert!(check_records(r2));
    cleanup_region(&mut tbl, r1, 0).unwrap();
    cleanup_region(&mut tbl, r2, 0).unwrap();
    let mut entries = tbl.entries();
    sort_entries(&mut entries);
    let split = String::from_utf8(render_entries(&entries)).unwrap();
    assert_eq!(split, run_on(1 << 8, whole).unwrap());
}

#[test]
fn test_empty_input_empty_report() {
    assert_eq!(run(b""), "{}");
}
