use onebrc::byte_buffer::ByteBuffer;

fn fmt_to_nibbles(n: u32) -> String {
    let bitstr = format!("{:0>32b}", n);
    bitstr
        .as_bytes()
        .chunks(4)
        .map(str::from_utf8)
        .collect::<Result<Vec<&str>, _>>()
        .unwrap()
        .join(" ")
}

fn expected_mask(bytes: &[u8], needle: u8) -> u32 {
    bytes
        .iter()
        .enumerate()
        .filter(|&(_, b)| b == &needle)
        .fold(0u32, |mask, (i, _)| mask | (1 << i))
}

fn next(newlines: u32) -> usize {
    let mut last_newline = newlines;
    while last_newline.count_ones() > 1 {
        last_newline &= last_newline - 1;
    }

    return last_newline.trailing_zeros() as usize + 1;
}

#[test]
fn test_find_delimiters_equivalence() {
    let bytes = b";12.3\nAbc;4.5\nDef;6.7\nGhi;8.9\nJon;3.3\n";

    let (semicolons1, newlines1) = bytes[..32].find_delimiters();
    let (semicolons2, newlines2) = bytes[..32].find_delimiters_swar();
    assert_eq!(semicolons1, semicolons2);
    assert_eq!(newlines1, newlines2);
}

#[test]
fn test_find_delimiters() {
    let lines = vec![
        "Bāgepalli;17.8",
        "San Fernando;-1.9",
        "Kika;4.3",
        "Bo;6.8",
        "Poyo;39.2",
        "Pālakodu;10.4",
        "Konibodom;40.2",
    ];
    let str = lines.join("\n");
    let bytes = str.as_bytes();

    let (semicolons, newlines) = bytes[..32].find_delimiters();
    assert_eq!(semicolons, expected_mask(&bytes[..32], b';'));
    assert_eq!(newlines, expected_mask(&bytes[..32], b'\n'));

    println!("SC: {}", fmt_to_nibbles(semicolons));
    println!("NL: {}", fmt_to_nibbles(newlines));

    println!(
        "Round 1: {}",
        str::from_utf8(&bytes[next(newlines)..]).unwrap()
    );

    let start = next(newlines);
    let (semicolons, newlines) = bytes[start..start + 32].find_delimiters();
    assert_eq!(semicolons, expected_mask(&bytes[start..start + 32], b';'));
    assert_eq!(newlines, expected_mask(&bytes[start..start + 32], b'\n'));

    println!("SC: {}", fmt_to_nibbles(semicolons));
    println!("NL: {}", fmt_to_nibbles(newlines));

    println!(
        "Round 2: {}",
        str::from_utf8(&bytes[start + next(newlines)..]).unwrap()
    );

    let start = start + next(newlines);
    let (semicolons, newlines) = bytes[start..start + 32].find_delimiters();
    assert_eq!(semicolons, expected_mask(&bytes[start..start + 32], b';'));
    assert_eq!(newlines, expected_mask(&bytes[start..start + 32], b'\n'));

    println!("SC: {}", fmt_to_nibbles(semicolons));
    println!("NL: {}", fmt_to_nibbles(newlines));

    println!(
        "Round 3: {}",
        str::from_utf8(&bytes[start + next(newlines)..]).unwrap()
    );

    let start = start + next(newlines);
    let end = start + 32.min(bytes.len() - start);
    let (semicolons, newlines) = bytes[start..end].find_delimiters();
    assert_eq!(semicolons, expected_mask(&bytes[start..end], b';'));
    assert_eq!(newlines, expected_mask(&bytes[start..end], b'\n'));

    println!("SC: {}", fmt_to_nibbles(semicolons));
    println!("NL: {}", fmt_to_nibbles(newlines));

    println!("Complete",);
}

#[test]
fn test_no_delimiters() {
    let line = "Llanfairpwllgwyngyllgogerychwyrndrobwllllantysiliogogogoch;12.3\n";
    let bytes = line.as_bytes();

    let (semicolons, newlines) = bytes[..32].find_delimiters();
    assert_eq!(semicolons, 0);
    assert_eq!(newlines, 0);
}

#[test]
fn test_one_complete_line() {
    let lines = "Melbourne;23.4\nSan Francisco;-1.2\n";
    let bytes = lines.as_bytes();

    let (semicolons, newlines) = bytes[..32].find_delimiters();
    assert_eq!(semicolons, expected_mask(&bytes[..32], b';'));
    assert_eq!(newlines, expected_mask(&bytes[..32], b'\n'));
    assert_eq!(semicolons.count_ones(), 2); // Two semicolons visible
    assert_eq!(newlines.count_ones(), 1); // Only one newline complete
}

#[test]
fn test_four_complete_lines() {
    let lines = "Xi;1.2\nBo;3.4\nAb;5.6\nCd;7.8\nLeftover";
    let bytes = lines.as_bytes();

    let (semicolons, newlines) = bytes[..32].find_delimiters();
    assert_eq!(semicolons, expected_mask(&bytes[..32], b';'));
    assert_eq!(newlines, expected_mask(&bytes[..32], b'\n'));
    assert_eq!(semicolons.count_ones(), 4);
    assert_eq!(newlines.count_ones(), 4);
}

#[test]
fn test_delimiter_at_position_zero() {
    let bytes = b";12.3\nAbc;4.5\nDef;6.7\nGhi;8.9\nJon;3.3\n";

    let (semicolons, _) = bytes[..32].find_delimiters();
    assert_eq!(semicolons, expected_mask(&bytes[..32], b';'));
    assert!(semicolons & 1 != 0, "Expected semicolon at position 0");
}

#[test]
fn test_delimiter_at_position_31() {
    let line = "SomeStationNameHere;12.34567899\n";
    assert_eq!(line.len(), 32);
    let bytes = line.as_bytes();

    let (semicolons, newlines) = bytes[..32].find_delimiters();
    assert_eq!(semicolons, expected_mask(&bytes[..32], b';'));
    assert_eq!(newlines, expected_mask(&bytes[..32], b'\n'));
    assert!(newlines & (1 << 31) != 0, "Expected newline at position 31");
}

#[test]
fn test_delimiter_at_boundaries() {
    let line = "1234567;8\n901234;6.7\nAbcdef;8.9\n";
    let bytes = line.as_bytes();

    let (semicolons, newlines) = bytes[..32].find_delimiters();
    assert_eq!(semicolons, expected_mask(&bytes[..32], b';'));
    assert_eq!(newlines, expected_mask(&bytes[..32], b'\n'));

    assert!(
        semicolons & (1 << 7) != 0,
        "Expected semicolon at position 7"
    );
    assert!(newlines & (1 << 9) != 0, "Expected newline at position 9");
}

#[test]
fn test_window_smaller_than_32() {
    let line = "Tokyo;35.6\n";
    let bytes = line.as_bytes();
    assert!(bytes.len() < 32);

    let (semicolons, newlines) = bytes.find_delimiters();
    assert_eq!(semicolons, expected_mask(bytes, b';'));
    assert_eq!(newlines, expected_mask(bytes, b'\n'));
}

#[test]
fn test_byte_position() {
    let cases: Vec<(Vec<u8>, Option<usize>, Option<usize>)> = vec![
        (b"Xi;3.4\n".to_vec(), Some(2), Some(6)),
        (b"Lima;5.6\n".to_vec(), Some(4), Some(8)),
        (b"Berlin;12.3\n".to_vec(), Some(6), Some(11)),
        (b"Melbourne;23.4\n".to_vec(), Some(9), Some(14)),
        (b"San Francisco;-5.2\n".to_vec(), Some(13), Some(18)),
        (b"Thiruvananthapuram;31.2\n".to_vec(), Some(18), Some(23)),
        (
            b"Some Very Long Station Name That Goes On Forever;99.9\n".to_vec(),
            Some(48),
            Some(53),
        ),
        (b"".to_vec(), None, None),
        (b"Hell\nBo\n".to_vec(), None, Some(4)),
    ];

    for (input, semicolon, newline) in cases {
        assert_eq!(input.byte_position(b';'), semicolon);
        assert_eq!(input.byte_position(b'\n'), newline);
    }
}

#[test]
fn test_byte_position_realistic() {
    let lines = vec![
        "Bāgepalli;17.8",
        "San Fernando;-1.9",
        "Kika;4.3",
        "Bo;6.8",
        "Poyo;39.2",
        "Pālakodu;10.4",
        "Konibodom;40.2",
    ];
    let str = lines.join("\n");
    let bytes = str.as_bytes();

    let end = bytes.len();

    // Bāgepalli;17.8
    let start = 0;
    let newline = bytes[start..end].byte_position(b'\n').unwrap();
    assert_eq!(newline, 15);

    let line = &bytes[start..start + newline];
    assert!(!line.is_empty());
    assert_eq!(line.byte_position(b';'), Some(10));

    // San Fernando;-1.9
    let start = start + newline + 1;
    let newline = bytes[start..end].byte_position(b'\n').unwrap();
    assert_eq!(newline, 17);

    let line = &bytes[start..start + newline];
    assert!(!line.is_empty());
    assert_eq!(line.byte_position(b';'), Some(12));

    // Kika;4.3
    let start = start + newline + 1;
    let newline = bytes[start..end].byte_position(b'\n').unwrap();
    assert_eq!(newline, 8);

    let line = &bytes[start..start + newline];
    assert!(!line.is_empty());
    assert_eq!(line.byte_position(b';'), Some(4));

    // Bo;6.8
    let start = start + newline + 1;
    let newline = bytes[start..end].byte_position(b'\n').unwrap();
    assert_eq!(newline, 6);

    let line = &bytes[start..start + newline];
    assert!(!line.is_empty());
    assert_eq!(line.byte_position(b';'), Some(2));
}

#[test]
fn test_find_delimiters64_wide_window() {
    let lines = "Melbourne;23.4\nSan Francisco;-1.2\nBerlin;12.3\nOslo;1.0\n";
    let bytes = lines.as_bytes();
    assert!(bytes.len() > 32);

    let (semi64, nl64) = bytes.find_delimiters64();
    for j in 0..64usize.min(bytes.len()) {
        assert_eq!((semi64 >> j) & 1 == 1, bytes[j] == b';');
        assert_eq!((nl64 >> j) & 1 == 1, bytes[j] == b'\n');
    }
    for j in bytes.len()..64 {
        assert_eq!((semi64 >> j) & 1, 0);
        assert_eq!((nl64 >> j) & 1, 0);
    }

    // the low half agrees with the 32-byte scan
    let (semi32, nl32) = bytes[..32].find_delimiters();
    assert_eq!(semi64 as u32, semi32);
    assert_eq!(nl64 as u32, nl32);
}
