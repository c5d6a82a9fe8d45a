use cascette::bytes::{checked_end, offset_size, read_u16_be, read_u32_be, read_uint_be};
use cascette::keys::parse_hex_u32;
use cascette::text::utf8_error;
use cascette::{
    parse_wow_generic_path, ContentKey, EncodingKey, PathNodeIssue, Region, TvfsError,
    TvfsManifest, TvfsManifestHeader,
};

const TVFS_FOLDER_NODE: u32 = 0x8000_0000;

fn push_entry(buf: &mut Vec<u8>, name: &str, node_value: u32) {
    buf.push(name.len() as u8);
    buf.extend_from_slice(name.as_bytes());
    buf.push(0xff);
    buf.extend_from_slice(&node_value.to_be_bytes());
}

/// A manifest with the given tables after a 46-byte header (flag 0x02 set).
fn manifest_bytes(ekey_size: u8, path_table: &[u8], vfs_table: &[u8], cft_table: &[u8]) -> Vec<u8> {
    let header_size = 46usize;
    let path_table_offset = header_size;
    let vfs_table_offset = path_table_offset + path_table.len();
    let cft_table_offset = vfs_table_offset + vfs_table.len();
    let mut data = Vec::new();
    data.extend_from_slice(b"TVFS");
    data.extend_from_slice(&[1, 46, ekey_size, 9]);
    data.extend_from_slice(&0x07u32.to_be_bytes());
    data.extend_from_slice(&(path_table_offset as u32).to_be_bytes());
    data.extend_from_slice(&(path_table.len() as u32).to_be_bytes());
    data.extend_from_slice(&(vfs_table_offset as u32).to_be_bytes());
    data.extend_from_slice(&(vfs_table.len() as u32).to_be_bytes());
    data.extend_from_slice(&(cft_table_offset as u32).to_be_bytes());
    data.extend_from_slice(&(cft_table.len() as u32).to_be_bytes());
    data.extend_from_slice(&1u16.to_be_bytes());
    data.extend_from_slice(&0u32.to_be_bytes());
    data.extend_from_slice(&0u32.to_be_bytes());
    data.extend_from_slice(path_table);
    data.extend_from_slice(vfs_table);
    data.extend_from_slice(cft_table);
    data
}

/// A path table holding the given records inside a root folder node.
fn rooted(records: &[u8]) -> Vec<u8> {
    let mut path_table = vec![0xff];
    let folder_len = (records.len() + 4) as u32 | TVFS_FOLDER_NODE;
    path_table.extend_from_slice(&folder_len.to_be_bytes());
    path_table.extend_from_slice(records);
    path_table
}

/// A VFS record of one span at file offset 0 with the given size and CFT offset.
fn one_span(size: u32, cft_offset: u8) -> Vec<u8> {
    let mut vfs = vec![1];
    vfs.extend_from_slice(&0u32.to_be_bytes());
    vfs.extend_from_slice(&size.to_be_bytes());
    vfs.push(cft_offset);
    vfs
}

#[test]
fn parses_wow_generic_manifest_entry() {
    let path = "0000000000000000:0009661887cd491cd119e8c7aa48b562d7482ed8";
    let mut path_table = vec![0xff];
    let folder_len_pos = path_table.len();
    path_table.extend_from_slice(&0u32.to_be_bytes());
    let folder_start = path_table.len();
    push_entry(&mut path_table, path, 0);
    let folder_len = (path_table.len() - folder_start + 4) as u32 | TVFS_FOLDER_NODE;
    path_table[folder_len_pos..folder_len_pos + 4].copy_from_slice(&folder_len.to_be_bytes());

    let mut vfs_table = vec![1];
    vfs_table.extend_from_slice(&0u32.to_be_bytes());
    vfs_table.extend_from_slice(&0x9800u32.to_be_bytes());
    vfs_table.push(0);

    let mut cft_table = vec![0xdb, 0x47, 0x2f, 0xf5, 0xca, 0x74, 0x46, 0x5b, 0xaa];

    let header_size = 46usize;
    let path_table_offset = header_size;
    let vfs_table_offset = path_table_offset + path_table.len();
    let cft_table_offset = vfs_table_offset + vfs_table.len();

    let mut data = Vec::new();
    data.extend_from_slice(b"TVFS");
    data.extend_from_slice(&[1, 46, 9, 9]);
    data.extend_from_slice(&0x07u32.to_be_bytes());
    data.extend_from_slice(&(path_table_offset as u32).to_be_bytes());
    data.extend_from_slice(&(path_table.len() as u32).to_be_bytes());
    data.extend_from_slice(&(vfs_table_offset as u32).to_be_bytes());
    data.extend_from_slice(&(vfs_table.len() as u32).to_be_bytes());
    data.extend_from_slice(&(cft_table_offset as u32).to_be_bytes());
    data.extend_from_slice(&(cft_table.len() as u32).to_be_bytes());
    data.extend_from_slice(&1u16.to_be_bytes());
    data.extend_from_slice(&0u32.to_be_bytes());
    data.extend_from_slice(&0u32.to_be_bytes());
    data.append(&mut path_table);
    data.append(&mut vfs_table);
    data.append(&mut cft_table);

    let manifest = TvfsManifest::parse(&data).expect("manifest should parse");
    assert_eq!(manifest.entries.len(), 1);
    let entry = &manifest.entries[0];
    assert_eq!(entry.file_data_id, Some(615960));
    assert_eq!(
        entry.content_key.map(|key| key.to_hex()).as_deref(),
        Some("87cd491cd119e8c7aa48b562d7482ed8")
    );
    assert_eq!(
        entry.encoding_key.as_bytes()[..9],
        [0xdb, 0x47, 0x2f, 0xf5, 0xca, 0x74, 0x46, 0x5b, 0xaa]
    );
    assert_eq!(entry.file_size, 0x9800);
}

#[test]
fn parses_wow_short_generic_manifest_entry() {
    let generic = parse_wow_generic_path("0009661887cd491cd119e8c7aa48b562d7482ed8").unwrap();
    assert_eq!(generic.file_data_id, 615960);
    assert_eq!(generic.locale_flags, 0);
    assert_eq!(generic.content_flags, 0);
    assert_eq!(
        generic.content_key.to_hex(),
        "87cd491cd119e8c7aa48b562d7482ed8"
    );
}

#[test]
fn generic_long_form_reads_all_fields() {
    let generic =
        parse_wow_generic_path("0000000200000004:0009661887CD491CD119E8C7AA48B562D7482ED8-extra//")
            .unwrap();
    assert_eq!(generic.locale_flags, 2);
    assert_eq!(generic.content_flags, 4);
    assert_eq!(generic.file_data_id, 0x0009_6618);
    assert_eq!(generic.content_key.to_hex(), "87cd491cd119e8c7aa48b562d7482ed8");
    // A twelve-byte prefix carries four digits of content flags.
    let short = parse_wow_generic_path("00000002abcd:0000000187cd491cd119e8c7aa48b562d7482ed8").unwrap();
    assert_eq!(short.content_flags, 0xabcd);
    assert_eq!(short.file_data_id, 1);
}

#[test]
fn generic_path_rejects_other_names() {
    assert!(parse_wow_generic_path("world/maps/azeroth.wdt").is_none());
    assert!(parse_wow_generic_path("").is_none());
    // Not hexadecimal.
    assert!(parse_wow_generic_path("0009661g87cd491cd119e8c7aa48b562d7482ed8").is_none());
    // Prefix of the wrong length.
    assert!(parse_wow_generic_path("0000000000:0009661887cd491cd119e8c7aa48b562d7482ed8").is_none());
    // Payload too short.
    assert!(parse_wow_generic_path("0000000000000000:0009661887cd491cd119e8c7aa48b562d7482e").is_none());
}

#[test]
fn generic_path_follows_from_str_radix_sign_rule() {
    // `u32::from_str_radix` accepts one leading `+`.
    let plus = parse_wow_generic_path("+009661887cd491cd119e8c7aa48b562d7482ed8").unwrap();
    assert_eq!(plus.file_data_id, 0x0009_6618);
    assert!(parse_wow_generic_path("-009661887cd491cd119e8c7aa48b562d7482ed8").is_none());
}

#[test]
fn content_key_hex_roundtrip() {
    let key = ContentKey::from_hex("00112233445566778899AABBCCDDEEFF").unwrap();
    assert_eq!(
        key.as_bytes(),
        &[0x00, 0x11, 0x22, 0x33, 0x44, 0x55, 0x66, 0x77, 0x88, 0x99, 0xaa, 0xbb, 0xcc, 0xdd, 0xee, 0xff]
    );
    let text = key.to_hex();
    assert_eq!(text, "00112233445566778899aabbccddeeff");
    assert_eq!(ContentKey::from_hex(&text), Some(key));
    assert!(ContentKey::from_hex("00112233445566778899aabbccddeef").is_none());
    assert!(ContentKey::from_hex("00112233445566778899aabbccddeefg").is_none());
}

#[test]
fn encoding_key_keeps_bytes() {
    let bytes = [7u8; 16];
    assert_eq!(EncodingKey::from_bytes(bytes).as_bytes(), &bytes);
}

#[test]
fn header_errors_in_order() {
    let good = manifest_bytes(9, &[], &[], &[]);
    assert_eq!(
        TvfsManifestHeader::parse(&good[..37]),
        Err(TvfsError::InvalidPathNode(0, PathNodeIssue::HeaderTruncated))
    );
    let mut bad = good.clone();
    bad[0] = b'X';
    assert_eq!(TvfsManifestHeader::parse(&bad), Err(TvfsError::InvalidMagic(*b"XVFS")));
    let mut bad = good.clone();
    bad[4] = 2;
    assert_eq!(TvfsManifestHeader::parse(&bad), Err(TvfsError::UnsupportedVersion(2)));
    let mut bad = good.clone();
    bad[5] = 37;
    assert_eq!(TvfsManifestHeader::parse(&bad), Err(TvfsError::InvalidHeaderSize(37)));
    let mut bad = good.clone();
    bad[5] = 47;
    assert_eq!(TvfsManifestHeader::parse(&bad), Err(TvfsError::InvalidHeaderSize(47)));
    let mut bad = good.clone();
    bad[6] = 17;
    assert_eq!(
        TvfsManifestHeader::parse(&bad),
        Err(TvfsError::InvalidKeySize { ekey: 17, pkey: 9 })
    );
    let mut bad = good.clone();
    bad[7] = 0;
    assert_eq!(
        TvfsManifestHeader::parse(&bad),
        Err(TvfsError::InvalidKeySize { ekey: 9, pkey: 0 })
    );
}

#[test]
fn header_reads_fields_and_encoding_spec_table() {
    let data = manifest_bytes(9, &[1, 2], &[3], &[4, 5, 6]);
    let header = TvfsManifestHeader::parse(&data).unwrap();
    assert_eq!(header.format_version, 1);
    assert_eq!(header.header_size, 46);
    assert_eq!(header.ekey_size, 9);
    assert_eq!(header.pkey_size, 9);
    assert_eq!(header.flags, 7);
    assert_eq!(header.path_table_offset, 46);
    assert_eq!(header.path_table_size, 2);
    assert_eq!(header.vfs_table_offset, 48);
    assert_eq!(header.vfs_table_size, 1);
    assert_eq!(header.cft_table_offset, 49);
    assert_eq!(header.cft_table_size, 3);
    assert_eq!(header.max_depth, 1);
    assert_eq!(header.est_table_offset, Some(0));
    assert_eq!(header.est_table_size, Some(0));

    // Without flag 0x02 there is no encoding spec table.
    let mut plain = data.clone();
    plain[11] = 0x05;
    let header = TvfsManifestHeader::parse(&plain).unwrap();
    assert_eq!(header.est_table_offset, None);
    assert_eq!(header.est_table_size, None);
}

#[test]
fn header_with_cut_off_encoding_spec_fields() {
    let mut data = manifest_bytes(9, &[], &[], &[]);
    data[5] = 38;
    data.truncate(40);
    assert_eq!(
        TvfsManifestHeader::parse(&data),
        Err(TvfsError::InvalidPathNode(
            38,
            PathNodeIssue::RangeExceeds { region: Region::U32, end: 42, limit: 40 }
        ))
    );
}

#[test]
fn header_rejects_tables_past_the_end() {
    let mut data = manifest_bytes(9, &[0; 4], &[], &[]);
    // Path table size 5 at offset 46 ends at 51, past the 50 bytes.
    data[19] = 5;
    assert_eq!(
        TvfsManifestHeader::parse(&data),
        Err(TvfsError::InvalidPathNode(
            46,
            PathNodeIssue::RangeExceeds { region: Region::PathTable, end: 51, limit: 50 }
        ))
    );
}

#[test]
fn nested_folders_join_paths_and_read_spans() {
    // root folder > "dir" folder > "file.txt" (VFS offset 0), then "top" (VFS offset 10).
    let mut inner = Vec::new();
    push_entry(&mut inner, "file.txt", 0);
    let mut records = Vec::new();
    records.push(3);
    records.extend_from_slice(b"dir");
    records.push(0);
    records.push(0xff);
    records.extend_from_slice(&((inner.len() as u32 + 4) | TVFS_FOLDER_NODE).to_be_bytes());
    records.extend_from_slice(&inner);
    push_entry(&mut records, "top", 10);
    let path_table = rooted(&records);

    let mut vfs = one_span(0x10, 0);
    // Two spans for "top": sizes 1 and 2, CFT offsets 0 and 2.
    vfs.push(2);
    vfs.extend_from_slice(&5u32.to_be_bytes());
    vfs.extend_from_slice(&1u32.to_be_bytes());
    vfs.push(0);
    vfs.extend_from_slice(&6u32.to_be_bytes());
    vfs.extend_from_slice(&2u32.to_be_bytes());
    vfs.push(2);
    assert_eq!(vfs.len(), 10 + 1 + 18);
    let cft = vec![0xaa, 0xbb, 0xcc, 0xdd];

    let data = manifest_bytes(2, &path_table, &vfs, &cft);
    let manifest = TvfsManifest::parse(&data).unwrap();
    assert_eq!(manifest.entries.len(), 3);
    assert_eq!(manifest.entries[0].path, "dir/file.txt");
    assert_eq!(manifest.entries[0].file_size, 0x10);
    assert_eq!(manifest.entries[0].file_data_id, None);
    assert_eq!(manifest.entries[0].content_key, None);
    let mut expected_key = [0u8; 16];
    expected_key[0] = 0xaa;
    expected_key[1] = 0xbb;
    assert_eq!(manifest.entries[0].encoding_key.as_bytes(), &expected_key);
    assert_eq!(manifest.entries[1].path, "top");
    assert_eq!((manifest.entries[1].file_offset, manifest.entries[1].file_size), (5, 1));
    assert_eq!(manifest.entries[2].path, "top");
    assert_eq!((manifest.entries[2].file_offset, manifest.entries[2].file_size), (6, 2));
    expected_key[0] = 0xcc;
    expected_key[1] = 0xdd;
    assert_eq!(manifest.entries[2].encoding_key.as_bytes(), &expected_key);
}

#[test]
fn span_count_outside_range_gives_no_entries() {
    let mut records = Vec::new();
    push_entry(&mut records, "a", 0);
    let vfs = vec![0u8];
    let data = manifest_bytes(1, &rooted(&records), &vfs, &[1]);
    let manifest = TvfsManifest::parse(&data).unwrap();
    assert!(manifest.entries.is_empty());
}

#[test]
fn root_node_must_be_a_folder() {
    let mut path_table = vec![0xff];
    path_table.extend_from_slice(&5u32.to_be_bytes());
    let data = manifest_bytes(1, &path_table, &[], &[]);
    assert_eq!(
        TvfsManifest::parse(&data).unwrap_err(),
        TvfsError::InvalidPathNode(46, PathNodeIssue::RootNotFolder)
    );
}

#[test]
fn folder_shorter_than_its_node_value_is_rejected() {
    let mut records = Vec::new();
    push_entry(&mut records, "d", TVFS_FOLDER_NODE | 3);
    let data = manifest_bytes(1, &rooted(&records), &[], &[]);
    // The record starts at 51 and ends after 1 + 1 + 5 bytes.
    assert_eq!(
        TvfsManifest::parse(&data).unwrap_err(),
        TvfsError::InvalidPathNode(58, PathNodeIssue::FolderTooShort)
    );
}

#[test]
fn vfs_offset_past_table_is_rejected() {
    let mut records = Vec::new();
    push_entry(&mut records, "a", 1);
    let data = manifest_bytes(1, &rooted(&records), &[1], &[]);
    let vfs_start = 46 + 5 + records.len();
    assert_eq!(
        TvfsManifest::parse(&data).unwrap_err(),
        TvfsError::InvalidPathNode(vfs_start + 1, PathNodeIssue::VfsOffsetPastTable)
    );
}

#[test]
fn invalid_utf8_fragment_is_rejected() {
    let records = vec![2, 0xc3, 0x28, 0xff, 0, 0, 0, 0];
    let data = manifest_bytes(1, &rooted(&records), &one_span(1, 0), &[9]);
    assert_eq!(
        TvfsManifest::parse(&data).unwrap_err(),
        TvfsError::InvalidPathNode(51, PathNodeIssue::InvalidUtf8 { valid_up_to: 0, error_len: Some(1) })
    );
}

#[test]
fn truncated_utf8_fragment_reports_where_it_stops() {
    let records = vec![3, b'a', 0xe2, 0x82, 0xff, 0, 0, 0, 0];
    let data = manifest_bytes(1, &rooted(&records), &one_span(1, 0), &[9]);
    assert_eq!(
        TvfsManifest::parse(&data).unwrap_err(),
        TvfsError::InvalidPathNode(51, PathNodeIssue::InvalidUtf8 { valid_up_to: 1, error_len: None })
    );
}

#[test]
fn utf8_error_matches_std_detail() {
    let cases: Vec<&[u8]> = vec![
        b"plain",
        b"\xc3\x28",
        b"a\xe2\x82",
        b"ab\xed\xa0\x80",
        b"\xf0\x9f\x98",
        b"\xf0\x9f\x98x",
        b"\xe1\x80\x41",
        b"\xff",
        b"\xc0\x80",
        b"ok\xf4\x90\x80\x80",
        b"caf\xc3\xa9",
    ];
    for bytes in cases {
        let expected = match std::str::from_utf8(bytes) {
            Ok(_) => None,
            Err(e) => Some((e.valid_up_to(), e.error_len().map(|n| n as u8))),
        };
        assert_eq!(utf8_error(bytes, 0, bytes.len()), expected, "{:?}", bytes);
    }
    assert_eq!(utf8_error(b"xx\xe2\x82yy", 2, 4), Some((0, None)));
    assert_eq!(utf8_error(b"xxa\xe2\x82\x41", 2, 6), Some((1, Some(2))));
}

#[test]
fn utf8_paths_are_kept() {
    let mut records = Vec::new();
    push_entry(&mut records, "données/é", 0);
    let data = manifest_bytes(1, &rooted(&records), &one_span(1, 0), &[9]);
    let manifest = TvfsManifest::parse(&data).unwrap();
    assert_eq!(manifest.entries[0].path, "données/é");
}

#[test]
fn trailing_slashes_are_trimmed_from_entry_paths() {
    // A name followed by a 0x00 separator and the node value.
    let mut records = vec![3];
    records.extend_from_slice(b"abc");
    records.push(0);
    records.push(0xff);
    records.extend_from_slice(&0u32.to_be_bytes());
    let data = manifest_bytes(1, &rooted(&records), &one_span(1, 0), &[9]);
    let manifest = TvfsManifest::parse(&data).unwrap();
    assert_eq!(manifest.entries[0].path, "abc");
}

#[test]
fn encoding_key_outside_container_table_is_rejected() {
    let mut records = Vec::new();
    push_entry(&mut records, "a", 0);
    // CFT offset 1 with a 2-byte key in a 2-byte table.
    let data = manifest_bytes(2, &rooted(&records), &one_span(1, 1), &[1, 2]);
    let cft_start = data.len() - 2;
    assert_eq!(
        TvfsManifest::parse(&data).unwrap_err(),
        TvfsError::InvalidPathNode(
            cft_start + 1,
            PathNodeIssue::RangeExceeds { region: Region::CftEncodingKey, end: cft_start + 3, limit: cft_start + 2 }
        )
    );
}

#[test]
fn byte_helpers() {
    let data = [0x12, 0x34, 0x56, 0x78];
    assert_eq!(read_u16_be(&data, 1), Ok(0x3456));
    assert_eq!(read_u32_be(&data, 0), Ok(0x1234_5678));
    assert_eq!(
        read_u32_be(&data, 1),
        Err(TvfsError::InvalidPathNode(1, PathNodeIssue::RangeExceeds { region: Region::U32, end: 5, limit: 4 }))
    );
    assert_eq!(read_uint_be(&data[..3]), 0x12_3456);
    assert_eq!(read_uint_be(&[]), 0);
    assert_eq!(checked_end(3, 4, 7, Region::PathName), Ok(7));
    assert_eq!(
        checked_end(usize::MAX, 1, usize::MAX, Region::VfsSpan),
        Err(TvfsError::InvalidPathNode(usize::MAX, PathNodeIssue::RangeOverflow(Region::VfsSpan)))
    );
    assert_eq!(
        [0, 1, 0xff, 0x100, 0xffff, 0x1_0000, 0xff_ffff, 0x100_0000].map(offset_size),
        [0, 1, 1, 2, 2, 3, 3, 4]
    );
    assert_eq!(Region::CftEncodingKey.name(), "CFT encoding key");
}

#[test]
fn uint_fold_keeps_low_32_bits() {
    assert_eq!(read_uint_be(&[1, 2, 3]), 0x01_0203);
    assert_eq!(read_uint_be(&[1, 2, 3, 4, 5]), 0x0203_0405);
    assert_eq!(read_uint_be(&[0xff; 9]), 0xffff_ffff);
}

#[test]
fn hex_u32_follows_from_str_radix() {
    assert_eq!(parse_hex_u32(b"000000001", 0, 9), Some(1));
    assert_eq!(parse_hex_u32(b"ffffffff", 0, 8), Some(u32::MAX));
    assert_eq!(parse_hex_u32(b"100000000", 0, 9), None);
    assert_eq!(parse_hex_u32(b"+1F", 0, 3), Some(0x1f));
    assert_eq!(parse_hex_u32(b"+", 0, 1), None);
    assert_eq!(parse_hex_u32(b"", 0, 0), None);
    assert_eq!(parse_hex_u32(b"x12", 1, 3), Some(0x12));
}

#[test]
fn content_key_comes_from_container_file_table_for_plain_paths() {
    let mut records = Vec::new();
    push_entry(&mut records, "file", 0);
    let ckey: Vec<u8> = (0x10..0x20).collect();
    let mut cft = vec![0xaa, 0xbb, 0, 0, 0, 5];
    cft.extend_from_slice(&ckey);
    let data = manifest_bytes(2, &rooted(&records), &one_span(5, 0), &cft);
    let manifest = TvfsManifest::parse(&data).unwrap();
    let entry = &manifest.entries[0];
    assert_eq!(entry.path, "file");
    assert_eq!(entry.file_data_id, None);
    assert_eq!(entry.content_key.map(|k| k.as_bytes().to_vec()), Some(ckey.clone()));

    // Without flag 0x01 the records carry no content key.
    let mut plain = data.clone();
    plain[11] = 0x06;
    let manifest = TvfsManifest::parse(&plain).unwrap();
    assert_eq!(manifest.entries[0].content_key, None);

    // A record too short to hold the key gives none.
    let data = manifest_bytes(2, &rooted(&records), &one_span(5, 0), &cft[..21]);
    assert_eq!(TvfsManifest::parse(&data).unwrap().entries[0].content_key, None);
}

#[test]
fn generic_path_key_takes_precedence_over_table_key() {
    let mut records = Vec::new();
    push_entry(&mut records, "0009661887cd491cd119e8c7aa48b562d7482ed8", 0);
    let mut cft = vec![0xaa, 0xbb, 0, 0, 0, 5];
    cft.extend_from_slice(&[0x77; 16]);
    let data = manifest_bytes(2, &rooted(&records), &one_span(5, 0), &cft);
    let manifest = TvfsManifest::parse(&data).unwrap();
    assert_eq!(
        manifest.entries[0].content_key.map(|k| k.to_hex()).as_deref(),
        Some("87cd491cd119e8c7aa48b562d7482ed8")
    );
}

#[test]
fn generic_path_split_inside_a_character_is_not_generic() {
    // Byte 8 falls inside the two-byte 'é' (bytes 7 and 8).
    let path = format!("0000000é{}", "0".repeat(31));
    assert_eq!(path.len(), 40);
    assert!(parse_wow_generic_path(&path).is_none());
    // The ':' split leaves a prefix whose byte 8 is inside 'é'.
    let path = format!("0000000é000:{}", "0".repeat(40));
    assert!(parse_wow_generic_path(&path).is_none());
}
