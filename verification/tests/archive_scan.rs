use alquitran::archive::Archive;
use alquitran::header::Format;
use alquitran::header::LintHeader;
use alquitran::issues::Hint;
use alquitran::issues::Issue;

fn set_field(block: &mut Vec<u8>, start: usize, bytes: &[u8]) {
    for (k, &b) in bytes.iter().enumerate() {
        block[start + k] = b;
    }
}

/// Build a conforming ustar header block and stamp a valid checksum.
fn make_header(name: &[u8], typeflag: u8, size: u64, mode: &[u8]) -> Vec<u8> {
    let mut b = vec![0u8; 512];
    set_field(&mut b, 0, name);
    set_field(&mut b, 100, mode);
    set_field(&mut b, 108, b"0000000\0");
    set_field(&mut b, 116, b"0000000\0");
    set_field(&mut b, 124, format!("{:011o}\0", size).as_bytes());
    set_field(&mut b, 136, b"00000000000\0");
    b[156] = typeflag;
    set_field(&mut b, 257, b"ustar\0");
    set_field(&mut b, 263, b"00");
    set_field(&mut b, 329, b"0000000\0");
    set_field(&mut b, 337, b"0000000\0");
    with_checksum(b)
}

fn with_checksum(mut b: Vec<u8>) -> Vec<u8> {
    for i in 148..156 {
        b[i] = b' ';
    }
    let sum: u64 = b.iter().map(|&x| x as u64).sum();
    set_field(&mut b, 148, format!("{:06o}\0 ", sum).as_bytes());
    b
}

fn terminator() -> Vec<u8> {
    vec![0u8; 1024]
}

#[test]
fn two_zero_blocks_are_portable() {
    let mut a = Archive::new(vec![0u8; 1024]);
    let result = a.lint().unwrap();
    assert!(result.is_portable());
    assert_eq!(None, result.format);
    assert_eq!(0, result.issues.len());
    assert!(result.dump.is_none());
}

#[test]
fn conforming_single_file() {
    let mut input = make_header(b"file.txt", b'0', 3, b"0000644\0");
    let mut data = vec![0u8; 512];
    data[0] = b'a';
    data[1] = b'b';
    data[2] = b'c';
    input.extend_from_slice(&data);
    input.extend_from_slice(&terminator());
    let mut a = Archive::new(input);
    let result = a.lint().unwrap();
    assert!(result.is_portable());
    assert_eq!(Some(Format::Ustar), result.format);
}

#[test]
fn duplicate_path_halts_and_is_reported() {
    let mut input = make_header(b"file", b'0', 0, b"0000644\0");
    input.extend_from_slice(&make_header(b"file", b'0', 0, b"0000644\0"));
    // a block after the duplicate is never examined
    input.extend_from_slice(&vec![0xAAu8; 512]);
    let mut a = Archive::new(input);
    let result = a.lint().unwrap();
    assert!(!result.is_portable());
    assert_eq!(vec![b"file".to_vec()], result.duplicated_paths);
    assert_eq!(0, result.issues.len());
    assert!(result.dump.is_some());
}

#[test]
fn read_only_directory_with_entries() {
    let mut input = make_header(b"dir/", b'5', 0, b"0000555\0");
    input.extend_from_slice(&make_header(b"dir/file", b'0', 0, b"0000644\0"));
    let mut a = Archive::new(input);
    let result = a.lint().unwrap();
    assert!(result.issues.contains(&Issue::ReadOnlyDirectoryWithEntries));
    assert_eq!(1, result.issues.len());
}

#[test]
fn writable_directory_with_entries_is_fine() {
    let mut input = make_header(b"dir/", b'5', 0, b"0000755\0");
    input.extend_from_slice(&make_header(b"dir/file", b'0', 0, b"0000644\0"));
    input.extend_from_slice(&terminator());
    let mut a = Archive::new(input);
    let result = a.lint().unwrap();
    assert!(result.is_portable());
}

#[test]
fn link_is_parent() {
    let mut input = make_header(b"link", b'2', 0, b"0000777\0");
    input.extend_from_slice(&make_header(b"link/inside", b'0', 0, b"0000644\0"));
    let mut a = Archive::new(input);
    let result = a.lint().unwrap();
    assert!(result.issues.contains(&Issue::LinkIsParent));
}

#[test]
fn format_change_halts() {
    let mut gnu = make_header(b"one", b'0', 0, b"0000644\0");
    set_field(&mut gnu, 257, b"ustar  \0");
    let gnu = with_checksum(gnu);
    let mut input = make_header(b"one", b'0', 0, b"0000644\0");
    input.extend_from_slice(&gnu);
    let mut a = Archive::new(input);
    let result = a.lint().unwrap();
    assert!(result.issues.contains(&Issue::FormatChanged));
    assert_eq!(Some(Format::Ustar), result.format);
}

#[test]
fn trailing_bytes_after_terminator() {
    let mut input = terminator();
    input.push(b'x');
    let mut a = Archive::new(input);
    let result = a.lint().unwrap();
    assert!(!result.is_portable());
    assert!(result.issues.contains(&Issue::TrailingByteNotNul));
    assert!(result.dump.is_none());
}

#[test]
fn truncated_archive_is_a_hard_failure() {
    let mut a = Archive::new(vec![0u8; 100]);
    assert!(a.lint().is_err());
}

#[test]
fn lone_terminator_then_data_is_an_anomaly() {
    let mut input = vec![0u8; 512];
    input.extend_from_slice(&make_header(b"file", b'0', 0, b"0000644\0"));
    let mut a = Archive::new(input);
    let result = a.lint().unwrap();
    assert!(!result.is_portable());
    let dump = result.dump.unwrap();
    assert_eq!(0, dump.offset);
    assert!(dump.bytes.iter().all(|&b| b == 0));
}

#[test]
fn data_padding_must_be_nul() {
    let mut input = make_header(b"file", b'0', 1, b"0000644\0");
    let mut data = vec![0u8; 512];
    data[0] = b'a';
    data[511] = b'!';
    input.extend_from_slice(&data);
    input.extend_from_slice(&terminator());
    let mut a = Archive::new(input);
    let result = a.lint().unwrap();
    assert!(result.issues.contains(&Issue::DataPaddingNotNul));
    assert_eq!(1, result.dump.as_ref().unwrap().offset);
}

#[test]
fn pax_entry_with_size_override_halts() {
    let mut input = make_header(b"pax", b'x', 11, b"0000644\0");
    let mut data = vec![0u8; 512];
    set_field(&mut data, 0, b"11 size=99\n");
    input.extend_from_slice(&data);
    input.extend_from_slice(&terminator());
    let mut a = Archive::new(input);
    let result = a.lint().unwrap();
    assert!(result.issues.contains(&Issue::PaxSize));
    assert_eq!(0, result.dump.as_ref().unwrap().offset);
}

#[test]
fn invalid_checksum_is_reported_alone() {
    let mut b = make_header(b"file", b'0', 0, b"0000644\0");
    // corrupt a name byte after the checksum was stamped
    b[0] = b'X';
    let h = LintHeader::new(b);
    assert_eq!(vec![Issue::InvalidChecksum], h.issues);
}

#[test]
fn header_rules() {
    let good = LintHeader::new(make_header(b"file", b'0', 0, b"0000644\0"));
    assert_eq!(0, good.issues.len());
    assert_eq!(Format::Ustar, good.format);
    assert_eq!(b"file".to_vec(), good.path);

    let mode = LintHeader::new(make_header(b"file", b'0', 0, b"0017777\0"));
    assert!(mode.issues.contains(&Issue::InvalidMode));

    let large = LintHeader::new(make_header(b"file", b'0', 0x80000000, b"0000644\0"));
    assert!(large.issues.contains(&Issue::LargeEntry));

    let dir = LintHeader::new(make_header(b"dir", b'5', 0, b"0000755\0"));
    assert!(dir.issues.contains(&Issue::DirectoryWithoutSlash));

    let slash = LintHeader::new(make_header(b"file/", b'0', 0, b"0000644\0"));
    assert!(slash.issues.contains(&Issue::RegularDirectory));

    let abs = LintHeader::new(make_header(b"/file", b'0', 0, b"0000644\0"));
    assert!(abs.issues.contains(&Issue::AbsolutePath));

    let dotdot = LintHeader::new(make_header(b"../file", b'0', 0, b"0000644\0"));
    assert!(dotdot.issues.contains(&Issue::DotDotPath));

    let tf = LintHeader::new(make_header(b"file", b'Z', 0, b"0000644\0"));
    assert!(tf.issues.contains(&Issue::InvalidTypeFlag));

    let sized_link = LintHeader::new(make_header(b"file", b'2', 4, b"0000644\0"));
    assert!(sized_link.issues.contains(&Issue::NoDataWithSize));
}

#[test]
fn link_to_itself() {
    let mut b = make_header(b"file", b'1', 0, b"0000644\0");
    set_field(&mut b, 157, b"file\0");
    let h = LintHeader::new(with_checksum(b));
    assert!(h.issues.contains(&Issue::LinkToItself));
}

#[test]
fn hints_of_the_dumped_header_are_kept() {
    let mut input = make_header(b"b@d", b'0', 0, b"0000644\0");
    input.extend_from_slice(&make_header(b"b@d", b'0', 0, b"0000644\0"));
    let mut a = Archive::new(input);
    let result = a.lint().unwrap();
    assert_eq!(vec![b"b@d".to_vec()], result.duplicated_paths);
    assert!(result.hints.contains(&Hint::UnportableCharInPath));
}

#[test]
fn empty_name_is_rejected() {
    let h = LintHeader::new(make_header(b"", b'0', 0, b"0000644\0"));
    assert!(h.issues.contains(&Issue::EmptyName));
    assert!(h.issues.contains(&Issue::EmptyPath));
}

#[test]
fn gnu_archive_is_accepted_as_gnu() {
    let mut gnu = make_header(b"file", b'0', 0, b"0000644\0");
    set_field(&mut gnu, 257, b"ustar  \0");
    let mut input = with_checksum(gnu);
    input.extend_from_slice(&terminator());
    let mut a = Archive::new(input);
    let result = a.lint().unwrap();
    assert!(result.is_portable());
    assert_eq!(Some(Format::Gnu), result.format);
}

#[test]
fn v7_header_without_magic() {
    let mut b = vec![0u8; 512];
    set_field(&mut b, 0, b"file");
    set_field(&mut b, 100, b"0000644\0");
    set_field(&mut b, 108, b"0000000\0");
    set_field(&mut b, 116, b"0000000\0");
    set_field(&mut b, 124, b"00000000000\0");
    set_field(&mut b, 136, b"00000000000\0");
    b[156] = b'0';
    let h = LintHeader::new(with_checksum(b));
    assert_eq!(Format::V7, h.format);
    assert_eq!(0, h.issues.len());
}

#[test]
fn data_block_counts() {
    let h = LintHeader::new(make_header(b"file", b'0', 0, b"0000644\0"));
    assert_eq!(0, h.get_data_block_count());
    let h1 = LintHeader::new(make_header(b"file", b'0', 1, b"0000644\0"));
    assert_eq!(1, h1.get_data_block_count());
    let h512 = LintHeader::new(make_header(b"file", b'0', 512, b"0000644\0"));
    assert_eq!(1, h512.get_data_block_count());
    let h513 = LintHeader::new(make_header(b"file", b'0', 513, b"0000644\0"));
    assert_eq!(2, h513.get_data_block_count());
    let link = LintHeader::new(make_header(b"file", b'2', 0, b"0000644\0"));
    assert_eq!(0, link.get_data_block_count());
}
