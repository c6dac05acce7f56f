use rsync_archive::archive::sevenz::codec::CompressedPack;
use rsync_archive::archive::sevenz::header::pack_header_file;
use rsync_archive::archive::tar_lz4::decode_frame_bytes;
use std::io::Write;
use rsync_archive::archive::payload::{buffer_len, footer_start, frame_table_span, index_span, member_range_end, MAX_INDEX_LEN};
use rsync_archive::archive::seekable_zstd::{
    self as szst, member_header, MemberIndex, MemberIndexEntry, SeekableLayout,
};
use rsync_archive::archive::sevenz::codec::{
    compress_bytes, dict_size_for_level, dict_size_for_member, lz4_hc_available, lz4_level_byte,
    lzma2_backend_name, lzma2_dict_prop, zstd_level,
};
use rsync_archive::archive::sevenz::header::{
    bitset_bytes, filetime_from_unix_secs, write_raw_header, write_raw_header_at, write_start_header,
    write_u64, HeaderFile, K_EMPTY_FILE, K_EMPTY_STREAM, K_END, K_FILES_INFO, K_HEADER,
    K_MAIN_STREAMS_INFO, K_M_TIME, K_SUB_STREAMS_INFO, K_WIN_ATTRIBUTES,
};
use rsync_archive::archive::sevenz::header::{end_header, stored_member, StoredMember};
use rsync_archive::archive::sevenz::method::CompressMethod;
use rsync_archive::archive::sevenz::pack_stream::{
    reads_whole, streamed_header_file, zstd_intra_workers, PackEncoder, StreamedPack,
};
use rsync_archive::archive::tar_common::{
    build_tar_headers, encode_index, expected_tar_member_count, parent_dir_names, parse_index,
    TarMemberIndexEntry, TarMemberMeta,
};
use rsync_archive::archive::tar_layout::{dir_hops, TarLayout};
use rsync_archive::archive::tar_lz4::{
    copy_from_frame, encode_frame_table, frame_for_offset, parse_frame_table, read_range_end,
    FrameTableEntry, FrameWriter,
};
use rsync_archive::archive::zstd_writer::{
    check_member_written, encode_seekable_member, finish_seekable_payload, SeekableZstdEncoder,
};
use rsync_archive::archive::seekable_zstd::DEFAULT_FRAME_SIZE as DEFAULT_ZSTD_FRAME;
use rsync_archive::error::Error;
use rsync_archive::select::walk::{MemberKind, SelectedEntry};

const USTAR_LINKNAME_LEN: usize = 100;

fn field_cstr(b: &[u8]) -> String {
    let end = b.iter().position(|&c| c == 0).unwrap_or(b.len());
    String::from_utf8_lossy(&b[..end]).into_owned()
}

fn octal_field(b: &[u8]) -> u64 {
    let s = std::str::from_utf8(b).unwrap().trim_end_matches('\0').trim();
    u64::from_str_radix(s, 8).unwrap()
}

fn file_meta(size: u64, mode: u32, uid: u32, gid: u32) -> TarMemberMeta {
    TarMemberMeta {
        size,
        mtime: 0,
        mode,
        uid,
        gid,
        uname: String::new(),
        gname: String::new(),
        is_dir: false,
        link_target: None,
        is_hard_link: false,
    }
}

#[test]
fn dict_clamp_tiny_member() {
    let d = dict_size_for_member(5, 8000);
    assert!(d <= 16 * 1024, "dict={d}");
    assert!(d >= 4096);
    assert!(d < dict_size_for_level(5));
}

#[test]
fn dict_prop_stable() {
    assert_eq!(lzma2_dict_prop(1 << 22), lzma2_dict_prop(1 << 22));
}

#[test]
fn backend_names_are_stable() {
    let name = lzma2_backend_name();
    assert!(name == "liblzma" || name == "lzma-rust2");
    assert_eq!(lz4_hc_available(), false);
    assert_eq!(name == "liblzma", false);
}

#[test]
fn dict_prop_known_values() {
    assert_eq!(lzma2_dict_prop(1 << 22), 20);
    assert_eq!(lzma2_dict_prop(4096), 0);
    assert_eq!(lzma2_dict_prop(3 << 20), 19);
    assert_eq!(zstd_level(9), 19);
    assert_eq!(lz4_level_byte(0), 1);
    assert_eq!(lz4_level_byte(40), 12);
}

#[test]
fn compress_bytes_lz4_records_sizes_and_crcs() {
    let input = b"hello hello hello hello".to_vec();
    let p = compress_bytes(&input, CompressMethod::Lz4, 3).unwrap();
    assert_eq!(p.uncompressed_size, input.len() as u64);
    assert_eq!(p.crc32, crc32fast::hash(&input));
    assert_eq!(p.pack_crc, crc32fast::hash(&p.data));
    assert_ne!(p.data, input);
    assert_eq!(p.method_props, vec![1, 0, 3]);
}

#[test]
fn parse_aliases() {
    assert_eq!(CompressMethod::parse("zstd").unwrap(), CompressMethod::Zstd);
    assert_eq!(CompressMethod::parse("LZ4").unwrap(), CompressMethod::Lz4);
    assert_eq!(CompressMethod::parse("lzma2").unwrap(), CompressMethod::Lzma2);
    assert!(CompressMethod::parse("brotli").is_err());
}

#[test]
fn bitset_msb_first() {
    assert_eq!(bitset_bytes(1, |i| i == 0), vec![0x80]);
    assert_eq!(bitset_bytes(8, |i| i < 2), vec![0xC0]);
}

#[test]
fn bitset_spans_bytes() {
    assert_eq!(bitset_bytes(9, |i| i == 8), vec![0x00, 0x80]);
    assert_eq!(bitset_bytes(0, |_| true), Vec::<u8>::new());
}

#[test]
fn header_starts_and_ends_correctly() {
    let files = vec![HeaderFile {
        name: "a.txt".into(),
        pack_size: 4,
        pack_crc: 1,
        unpack_size: 4,
        content_crc: 2,
        method_id: vec![0x00],
        method_props: vec![],
        empty: false,
        mtime: None,
    }];
    let mut h = Vec::new();
    write_raw_header(&mut h, &files).unwrap();
    assert_eq!(h[0], K_HEADER);
    assert_eq!(*h.last().unwrap(), K_END);
    assert!(h.contains(&K_SUB_STREAMS_INFO));
    assert!(h.contains(&K_WIN_ATTRIBUTES));
    assert!(h.contains(&K_M_TIME));
}

#[test]
fn start_header_has_sig_and_crc() {
    let sig = write_start_header(100, 50, 0xABCD_EF01);
    assert_eq!(&sig[..6], b"7z\xBC\xAF\x27\x1C");
    assert_eq!(&sig[6..8], &[0, 4]);
    let expected_crc = crc32fast::hash(&sig[12..]);
    assert_eq!(&sig[8..12], &expected_crc.to_le_bytes());
    assert_eq!(sig.len(), 32);
    assert_eq!(&sig[12..20], &100u64.to_le_bytes());
}

#[test]
fn empty_only_header_omits_pack_streams() {
    let files = vec![HeaderFile::empty_file("empty.dat".to_string())];
    let mut h = Vec::new();
    write_raw_header(&mut h, &files).unwrap();
    assert_eq!(h[0], K_HEADER);
    assert_eq!(h[1], K_MAIN_STREAMS_INFO);
    assert_eq!(h[2], K_END);
    assert!(h.contains(&K_EMPTY_STREAM));
    assert!(h.contains(&K_EMPTY_FILE));
    assert!(h.contains(&K_FILES_INFO));
}

#[test]
fn raw_header_exact_bytes_for_one_stored_file() {
    let mut f = HeaderFile::stored("a".to_string(), 4, 0x11223344);
    f.mtime = Some(7);
    let mut h = Vec::new();
    write_raw_header_at(&mut h, &[f], 99).unwrap();
    let mut want = vec![0x01, 0x04];
    want.extend_from_slice(&[0x06, 0x00, 0x01, 0x09, 0x04, 0x0A, 0x01, 0x44, 0x33, 0x22, 0x11, 0x00]);
    want.extend_from_slice(&[0x07, 0x0B, 0x01, 0x00, 0x01, 0x01, 0x00, 0x0C, 0x04, 0x00]);
    want.extend_from_slice(&[0x08, 0x0A, 0x01, 0x44, 0x33, 0x22, 0x11, 0x00]);
    want.push(0x00);
    want.extend_from_slice(&[0x05, 0x01]);
    want.extend_from_slice(&[0x11, 0x05, 0x00, b'a', 0x00, 0x00, 0x00]);
    want.extend_from_slice(&[0x14, 0x0A, 0x01, 0x00]);
    want.extend_from_slice(&7u64.to_le_bytes());
    want.extend_from_slice(&[0x15, 0x06, 0x01, 0x00]);
    want.extend_from_slice(&0x81A4_0020u32.to_le_bytes());
    want.extend_from_slice(&[0x00, 0x00]);
    assert_eq!(h, want);
}

#[test]
fn write_u64_encodings() {
    let mut h = Vec::new();
    write_u64(&mut h, 0x7F).unwrap();
    write_u64(&mut h, 0x80).unwrap();
    write_u64(&mut h, 0x1234).unwrap();
    assert_eq!(h, vec![0x7F, 0x80, 0x80, 0x92, 0x34]);
    let mut g = Vec::new();
    write_u64(&mut g, u64::MAX).unwrap();
    assert_eq!(g, vec![0xFF, 0xFF, 0xFF, 0xFF, 0xFF, 0xFF, 0xFF, 0xFF, 0xFF]);
}

#[test]
fn filetime_conversion() {
    assert_eq!(filetime_from_unix_secs(0), 116_444_736_000_000_000);
    assert_eq!(filetime_from_unix_secs(1), 116_444_736_010_000_000);
}

#[test]
fn header_embeds_mode_uid_gid() {
    let mut meta = file_meta(3, 0o750, 1000, 1001);
    meta.mtime = 1_700_000_000;
    let hdr = build_tar_headers("file.txt", &meta).unwrap();
    assert_eq!(hdr.len(), 512);
    assert_eq!(hdr[156], b'0');
    assert_eq!(octal_field(&hdr[100..108]), 0o750);
    assert_eq!(octal_field(&hdr[108..116]), 1000);
    assert_eq!(octal_field(&hdr[116..124]), 1001);
}

#[test]
fn dir_header_typeflag_5_trailing_slash() {
    let meta = TarMemberMeta {
        size: 0,
        mtime: 42,
        mode: 0o755,
        uid: 0,
        gid: 0,
        uname: String::new(),
        gname: String::new(),
        is_dir: true,
        link_target: None,
        is_hard_link: false,
    };
    let hdr = build_tar_headers("a/b", &meta).unwrap();
    assert_eq!(hdr.len(), 512);
    assert_eq!(hdr[156], b'5');
    assert_eq!(field_cstr(&hdr[0..100]), "a/b/");
    assert_eq!(octal_field(&hdr[124..136]), 0);
    let hdr2 = build_tar_headers("a/b/", &meta).unwrap();
    assert_eq!(field_cstr(&hdr2[0..100]), "a/b/");
}

#[test]
fn parent_dir_names_nested() {
    assert!(parent_dir_names("c.txt").is_empty());
    assert_eq!(parent_dir_names("a/b/c.txt"), vec!["a/".to_string(), "a/b/".to_string()]);
    assert_eq!(parent_dir_names("/a/b/c.txt"), vec!["a/".to_string(), "a/b/".to_string()]);
}

fn sel(name: &str) -> SelectedEntry {
    SelectedEntry {
        abs_path: format!("/tmp/{name}"),
        archive_name: name.into(),
        size: 1,
        mtime_unix: None,
        mode: 0o644,
        uid: 0,
        gid: 0,
        uname: String::new(),
        gname: String::new(),
        kind: MemberKind::File,
    }
}

#[test]
fn expected_member_count_includes_unique_dirs() {
    let entries = vec![sel("a/b/c.txt"), sel("a/d.txt"), sel("top.txt")];
    assert_eq!(expected_tar_member_count(&entries), 3 + 2);
}

#[test]
fn header_embeds_uname_gname() {
    let mut meta = file_meta(1, 0o644, 1000, 100);
    meta.uname = "alice".into();
    meta.gname = "staff".into();
    let hdr = build_tar_headers("f.txt", &meta).unwrap();
    assert_eq!(hdr.len(), 512);
    assert_eq!(field_cstr(&hdr[265..297]), "alice");
    assert_eq!(field_cstr(&hdr[297..329]), "staff");
}

#[test]
fn long_uname_uses_pax() {
    let long = "u".repeat(40);
    let mut meta = file_meta(1, 0o644, 1, 1);
    meta.uname = long.clone();
    let hdr = build_tar_headers("x", &meta).unwrap();
    assert!(hdr.len() > 512);
    assert_eq!(hdr[156], b'x');
    let body = String::from_utf8_lossy(&hdr[512..]);
    assert!(body.contains(&format!("uname={long}")));
    let ustar = &hdr[hdr.len() - 512..];
    assert_eq!(field_cstr(&ustar[265..297]), &long[..32]);
}

#[test]
fn large_uid_uses_pax() {
    let meta = file_meta(1, 0o644, 3_000_000, 0);
    let hdr = build_tar_headers("x", &meta).unwrap();
    assert!(hdr.len() > 512);
    assert_eq!(hdr[156], b'x');
    let body = String::from_utf8_lossy(&hdr[512..]);
    assert!(body.contains("uid=3000000"));
}

#[test]
fn symlink_header_typeflag_2_and_linkname() {
    let meta = TarMemberMeta {
        size: 0,
        mtime: 99,
        mode: 0o777,
        uid: 1000,
        gid: 100,
        uname: String::new(),
        gname: String::new(),
        is_dir: false,
        link_target: Some("target.txt".into()),
        is_hard_link: false,
    };
    let hdr = build_tar_headers("link.txt", &meta).unwrap();
    assert_eq!(hdr.len(), 512);
    assert_eq!(hdr[156], b'2');
    assert_eq!(field_cstr(&hdr[0..100]), "link.txt");
    assert_eq!(field_cstr(&hdr[157..257]), "target.txt");
    assert_eq!(octal_field(&hdr[124..136]), 0);
}

#[test]
fn hardlink_header_typeflag_1_and_linkname() {
    let meta = TarMemberMeta {
        size: 0,
        mtime: 99,
        mode: 0o644,
        uid: 1000,
        gid: 100,
        uname: String::new(),
        gname: String::new(),
        is_dir: false,
        link_target: Some("a.txt".into()),
        is_hard_link: true,
    };
    let hdr = build_tar_headers("b.txt", &meta).unwrap();
    assert_eq!(hdr.len(), 512);
    assert_eq!(hdr[156], b'1');
    assert_eq!(field_cstr(&hdr[0..100]), "b.txt");
    assert_eq!(field_cstr(&hdr[157..257]), "a.txt");
    assert_eq!(octal_field(&hdr[124..136]), 0);
}

#[test]
fn long_link_target_uses_pax_linkpath() {
    let long_target = format!("dir/{}", "t".repeat(120));
    let meta = TarMemberMeta {
        size: 0,
        mtime: 1,
        mode: 0o777,
        uid: 0,
        gid: 0,
        uname: String::new(),
        gname: String::new(),
        is_dir: false,
        link_target: Some(long_target.clone()),
        is_hard_link: false,
    };
    let hdr = build_tar_headers("l", &meta).unwrap();
    assert!(hdr.len() > 512);
    assert_eq!(hdr[156], b'x');
    let body = String::from_utf8_lossy(&hdr[512..]);
    assert!(body.contains(&format!("linkpath={long_target}")));
    let ustar = &hdr[hdr.len() - 512..];
    assert_eq!(ustar[156], b'2');
    assert_eq!(field_cstr(&ustar[157..257]), &long_target[..USTAR_LINKNAME_LEN.min(long_target.len())]);
}

#[test]
fn index_roundtrip_includes_owner() {
    let members = vec![TarMemberIndexEntry {
        name: "a".into(),
        tar_header_offset: 0,
        tar_data_offset: 512,
        data_len: 1,
        mode: 0o640,
        mtime_unix: 99,
        uid: 42,
        gid: 43,
    }];
    let bytes = encode_index(&members).unwrap();
    let parsed = parse_index(&bytes).unwrap();
    assert_eq!(parsed.members[0].mode, 0o640);
    assert_eq!(parsed.members[0].uid, 42);
    assert_eq!(parsed.members[0].gid, 43);
}

#[test]
fn tar_index_rejects_trailing_and_truncated() {
    let members = vec![TarMemberIndexEntry {
        name: "dir/é".into(),
        tar_header_offset: 5,
        tar_data_offset: 517,
        data_len: 9,
        mode: 0o600,
        mtime_unix: 1,
        uid: 2,
        gid: 3,
    }];
    let mut bytes = encode_index(&members).unwrap();
    assert_eq!(&bytes[..8], b"RATAIDX1");
    assert_eq!(parse_index(&bytes).unwrap().members, members);
    bytes.push(0);
    assert!(matches!(parse_index(&bytes), Err(Error::Archive(_))));
    bytes.truncate(bytes.len() - 2);
    assert!(matches!(parse_index(&bytes), Err(Error::Archive(_))));
    assert!(matches!(parse_index(b"short"), Err(Error::Archive(_))));
}

#[test]
fn seekable_index_roundtrip_and_lookup() {
    let members = vec![
        MemberIndexEntry { name: "a.txt".into(), data_offset: 21, data_len: 5 },
        MemberIndexEntry { name: "sub/b.txt".into(), data_offset: 46, data_len: 0 },
    ];
    let bytes = szst::encode_index(&members).unwrap();
    assert_eq!(&bytes[..8], b"RAZSIDX1");
    let idx: MemberIndex = szst::parse_index(&bytes).unwrap();
    assert_eq!(idx.version, 1);
    assert_eq!(idx.members, members);
    assert_eq!(idx.get("sub/b.txt").unwrap().data_offset, 46);
    assert!(idx.get("missing").is_none());
    assert_eq!(idx.names(), vec!["a.txt", "sub/b.txt"]);
    let mut bad = bytes.clone();
    bad[0] = b'X';
    assert!(matches!(szst::parse_index(&bad), Err(Error::Archive(_))));
}

#[test]
fn seekable_layout_offsets_and_trailer() {
    let mut l = SeekableLayout::new();
    assert_eq!(member_header("ab", 3), vec![2, 0, 0, 0, 0, 0, 0, 0, b'a', b'b', 3, 0, 0, 0, 0, 0, 0, 0]);
    assert_eq!(l.record_member("ab".to_string(), 3).unwrap(), 18);
    assert_eq!(l.pos(), 21);
    assert_eq!(l.record_member("c".to_string(), 0).unwrap(), 38);
    assert_eq!(l.pos(), 38);
    let t = l.finish().unwrap();
    let idx = szst::parse_index(&t[..t.len() - 8]).unwrap();
    assert_eq!(idx.members.len(), 2);
    assert_eq!(&t[t.len() - 8..], &38u64.to_le_bytes());
    let mut big = SeekableLayout::new();
    assert!(matches!(big.record_member("x".to_string(), u64::MAX), Err(Error::Archive(_))));
    assert_eq!(big.pos(), 0);
    assert_eq!(szst::zstd_level(12), 9);
    assert_eq!(szst::zstd_level(3), 3);
}

#[test]
fn payload_footer_checks() {
    assert!(matches!(footer_start(7), Err(Error::Archive(_))));
    assert_eq!(footer_start(100).unwrap(), 92);
    assert_eq!(index_span(100, 40).unwrap(), 52);
    assert!(index_span(100, 92).is_err());
    assert!(index_span(MAX_INDEX_LEN + 20, 0).is_err());
    assert_eq!(member_range_end(10, 5).unwrap(), 15);
    assert!(member_range_end(u64::MAX, 1).is_err());
    assert_eq!(buffer_len(7).unwrap(), 7);
}

#[test]
fn frame_table_roundtrip() {
    let frames = vec![
        FrameTableEntry { compressed_offset: 0, compressed_size: 10, uncompressed_offset: 0, uncompressed_size: 100 },
        FrameTableEntry { compressed_offset: 10, compressed_size: 7, uncompressed_offset: 100, uncompressed_size: 50 },
    ];
    let bytes = encode_frame_table(&frames, 150).unwrap();
    assert_eq!(&bytes[..8], b"RATLFRM1");
    assert_eq!(bytes.len(), 36 + 64);
    assert_eq!(&bytes[bytes.len() - 8..], &17u64.to_le_bytes());
    let t = parse_frame_table(&bytes).unwrap();
    assert_eq!(t.frames, frames);
    assert_eq!(t.total_uncompressed, 150);
    let mut short = bytes.clone();
    short.pop();
    assert!(matches!(parse_frame_table(&short), Err(Error::Archive(_))));
    let huge = vec![FrameTableEntry { compressed_offset: 0, compressed_size: u64::MAX, uncompressed_offset: 0, uncompressed_size: 1 }, frames[1]];
    assert!(encode_frame_table(&huge, 1).is_err());
}

#[test]
fn frame_lookup_and_copy() {
    let frames = vec![
        FrameTableEntry { compressed_offset: 0, compressed_size: 3, uncompressed_offset: 0, uncompressed_size: 4 },
        FrameTableEntry { compressed_offset: 3, compressed_size: 3, uncompressed_offset: 4, uncompressed_size: 4 },
    ];
    assert_eq!(frame_for_offset(&frames, 5), Some(1));
    assert_eq!(frame_for_offset(&frames, 8), None);
    assert_eq!(read_range_end(8, 2, 6).unwrap(), 8);
    assert!(read_range_end(8, 2, 7).is_err());
    let mut dst = vec![9u8];
    let c = copy_from_frame(&mut dst, 3, &frames[1], b"efgh", 6).unwrap();
    assert_eq!(c, 8);
    assert_eq!(dst, vec![9, b'g', b'h']);
    let mut d2 = Vec::new();
    assert!(copy_from_frame(&mut d2, 2, &frames[1], b"e", 6).is_err());
}

#[test]
fn frame_writer_cuts_frames_and_covers_payload() {
    let mut w = FrameWriter::new(10);
    let data = vec![7u8; 150_000];
    let out1 = w.write_all(&data).unwrap();
    assert_eq!(w.frames().len(), 2);
    let tail = w.finish().unwrap();
    let frames = w.frames().to_vec();
    assert_eq!(frames.len(), 3);
    assert_eq!(frames[0].uncompressed_size, 65536);
    assert_eq!(frames[1].uncompressed_offset, 65536);
    let total: u64 = frames.iter().map(|f| f.uncompressed_size).sum();
    assert_eq!(total, 150_000);
    let all: Vec<u8> = [out1, tail].concat();
    let table_at = frames.iter().map(|f| f.compressed_size).sum::<u64>() as usize;
    let t = parse_frame_table(&all[table_at..]).unwrap();
    assert_eq!(t.frames, frames);
    assert_eq!(t.total_uncompressed, 150_000);
}

#[test]
fn tar_layout_dirs_once_and_padding() {
    let mut l = TarLayout::new();
    let dmeta = TarMemberMeta { is_dir: true, ..file_meta(0, 0o755, 0, 0) };
    let h = l.add_dir("a/", &dmeta).unwrap().unwrap();
    assert_eq!(h.len(), 512);
    assert!(l.add_dir("a/", &dmeta).unwrap().is_none());
    let fh = l.begin_member("a/x.txt", &file_meta(3, 0o644, 0, 0)).unwrap();
    assert_eq!(fh.len(), 512);
    assert_eq!(l.pos(), 1024);
    assert!(matches!(l.end_member(2), Err(Error::Archive(_))));
    let mut l2 = TarLayout::new();
    l2.begin_member("x.txt", &file_meta(3, 0o644, 0, 0)).unwrap();
    let pad = l2.end_member(3).unwrap();
    assert_eq!(pad, vec![0u8; 509]);
    assert_eq!(l2.pos(), 1024);
    assert_eq!(l2.index()[0].tar_data_offset, 512);
    let tail = l2.finish().unwrap();
    assert_eq!(&tail[..1024], &[0u8; 1024][..]);
    assert_eq!(&tail[tail.len() - 8..], &2048u64.to_le_bytes());
    assert_eq!(parse_index(&tail[1024..tail.len() - 8]).unwrap().members.len(), 1);
}

#[test]
fn dir_hops_counts_levels() {
    assert_eq!(dir_hops("a/b/c.txt", "a/"), Some(2));
    assert_eq!(dir_hops("a/b/c.txt", "a/b/"), Some(1));
    assert_eq!(dir_hops("/a/b/c.txt", "a/b"), Some(1));
    assert_eq!(dir_hops("a/b/c.txt", "x/"), None);
    assert_eq!(dir_hops("a/b", "/"), None);
    assert_eq!(dir_hops("ab/c", "a/"), None);
}

#[test]
fn pack_header_file_records_pack_and_empty_members() {
    let pack = CompressedPack {
        data: vec![1, 2, 3, 4],
        method_id: vec![0x21],
        method_props: vec![0x10],
        crc32: 0xDEAD_BEEF,
        uncompressed_size: 9,
        pack_crc: 0,
    };
    let (hf, bytes) = pack_header_file("a/b.bin".to_string(), pack, Some(42));
    assert_eq!(bytes, vec![1, 2, 3, 4]);
    assert_eq!(hf.name, "a/b.bin");
    assert_eq!(hf.pack_size, 4);
    assert_eq!(hf.pack_crc, crc32fast::hash(&[1, 2, 3, 4]));
    assert_eq!(hf.unpack_size, 9);
    assert_eq!(hf.content_crc, 0xDEAD_BEEF);
    assert_eq!(hf.method_id, vec![0x21]);
    assert_eq!(hf.method_props, vec![0x10]);
    assert!(!hf.empty);
    assert_eq!(hf.mtime, Some(42));

    let kept = CompressedPack {
        data: vec![9],
        method_id: vec![0x21],
        method_props: vec![],
        crc32: 1,
        uncompressed_size: 1,
        pack_crc: 77,
    };
    assert_eq!(pack_header_file("k".to_string(), kept, None).0.pack_crc, 77);

    let empty = CompressedPack {
        data: vec![],
        method_id: vec![0x21],
        method_props: vec![],
        crc32: 0,
        uncompressed_size: 0,
        pack_crc: 0,
    };
    let (hf, bytes) = pack_header_file("e".to_string(), empty, Some(5));
    assert!(bytes.is_empty());
    assert!(hf.empty);
    assert_eq!(hf.pack_size, 0);
    assert_eq!(hf.method_id, vec![0u8]);
    assert_eq!(hf.mtime, Some(5));
}

#[test]
fn decode_frame_bytes_checks_size_and_validity() {
    let payload = b"hello frames hello frames hello frames".to_vec();
    let mut enc = lz4_flex::frame::FrameEncoder::new(Vec::new());
    enc.write_all(&payload).unwrap();
    let raw = enc.finish().unwrap();
    let frame = FrameTableEntry {
        compressed_offset: 0,
        compressed_size: raw.len() as u64,
        uncompressed_offset: 0,
        uncompressed_size: payload.len() as u64,
    };
    assert_eq!(decode_frame_bytes(&raw, &frame).unwrap(), payload);
    let wrong = FrameTableEntry { uncompressed_size: payload.len() as u64 + 1, ..frame.clone() };
    assert!(matches!(decode_frame_bytes(&raw, &wrong), Err(Error::Archive(_))));
    assert!(matches!(decode_frame_bytes(b"not lz4 at all", &frame), Err(Error::Archive(_))));
}

#[test]
fn frame_table_span_bounds() {
    assert_eq!(frame_table_span(100, 40).unwrap(), 60);
    assert!(matches!(frame_table_span(35, 0), Err(Error::Archive(_))));
    assert!(matches!(frame_table_span(100, 100), Err(Error::Archive(_))));
    assert!(matches!(frame_table_span(MAX_INDEX_LEN + 100, 50), Err(Error::Archive(_))));
    assert_eq!(frame_table_span(MAX_INDEX_LEN + 100, 100).unwrap(), MAX_INDEX_LEN);
}

#[test]
fn tar_layout_remembers_emitted_dirs() {
    let meta = rsync_archive::archive::tar_common::default_dir_meta();
    let mut layout = TarLayout::new();
    assert!(!layout.has_dir("a/"));
    let first = layout.add_dir("a/", &meta).unwrap();
    assert!(first.is_some());
    assert!(layout.has_dir("a/"));
    assert!(!layout.has_dir("a/b/"));
    assert!(layout.add_dir("a/", &meta).unwrap().is_none());
    assert_eq!(layout.index().len(), 1);
    assert_eq!(layout.pos(), first.unwrap().len() as u64);
}

#[test]
fn mod_nested_path_emits_dir_chain() {
    // Lay out a tar payload for one nested file, frame it with LZ4, then read
    // the frame table, the frames and the member index back.
    let dir_meta = rsync_archive::archive::tar_common::default_dir_meta();
    let mut layout = TarLayout::new();
    let mut payload: Vec<u8> = Vec::new();
    for d in parent_dir_names("a/b/c.txt") {
        if let Some(h) = layout.add_dir(&d, &dir_meta).unwrap() {
            payload.extend_from_slice(&h);
        }
    }
    let meta = TarMemberMeta {
        size: 4,
        mtime: 99,
        mode: 0o644,
        uid: 0,
        gid: 0,
        uname: String::new(),
        gname: String::new(),
        is_dir: false,
        link_target: None,
        is_hard_link: false,
    };
    payload.extend_from_slice(&layout.begin_member("a/b/c.txt", &meta).unwrap());
    payload.extend_from_slice(b"deep");
    payload.extend_from_slice(&layout.end_member(4).unwrap());
    payload.extend_from_slice(&layout.finish().unwrap());

    let mut w = FrameWriter::new(512);
    let mut file = w.write_all(&payload).unwrap();
    file.extend_from_slice(&w.finish().unwrap());

    let n = file.len();
    let footer = u64::from_le_bytes(file[n - 8..].try_into().unwrap());
    let span = rsync_archive::archive::payload::frame_table_span(n as u64, footer).unwrap();
    let table = parse_frame_table(&file[footer as usize..footer as usize + span as usize]).unwrap();
    let mut back: Vec<u8> = Vec::new();
    for f in &table.frames {
        let raw = &file[f.compressed_offset as usize..(f.compressed_offset + f.compressed_size) as usize];
        back.extend_from_slice(&decode_frame_bytes(raw, f).unwrap());
    }
    assert_eq!(back, payload);

    let m = back.len();
    let index_start = u64::from_le_bytes(back[m - 8..].try_into().unwrap()) as usize;
    let index = parse_index(&back[index_start..m - 8]).unwrap();
    assert_eq!(index.members.len(), 3);
    assert_eq!(index.names(), vec!["a/", "a/b/", "a/b/c.txt"]);
    let c = &index.members[2];
    assert_eq!(&back[c.tar_data_offset as usize..(c.tar_data_offset + c.data_len) as usize], b"deep");
}

#[test]
fn codec_lzma2_roundtrip() {
    let msg = b"hello multi codec ".repeat(100);
    let out = compress_bytes(&msg, CompressMethod::Lzma2, 1).unwrap();
    assert_eq!(out.method_id, vec![0x21]);
    assert_eq!(out.pack_crc, crc32fast::hash(&out.data));
    let dict = dict_size_for_member(1, msg.len() as u64);
    assert_eq!(out.method_props, vec![lzma2_dict_prop(dict)]);
    let mut decoded = Vec::new();
    std::io::Read::read_to_end(&mut lzma_rust2::Lzma2Reader::new(out.data.as_slice(), dict, None), &mut decoded)
        .unwrap();
    assert_eq!(decoded, msg);
}

#[test]
fn zstd_roundtrip() {
    let msg = b"zstd member payload!!".repeat(80);
    let out = compress_bytes(&msg, CompressMethod::Zstd, 3).unwrap();
    assert_eq!(out.method_id, CompressMethod::Zstd.method_id());
    assert_eq!(out.method_props.len(), 3);
    let decoded = zstd::stream::decode_all(out.data.as_slice()).unwrap();
    assert_eq!(decoded, msg);
    assert_eq!(out.crc32, crc32fast::hash(&msg));
}

#[test]
fn lz4_roundtrip() {
    let msg = b"lz4 fast payload".repeat(50);
    let out = compress_bytes(&msg, CompressMethod::Lz4, 1).unwrap();
    assert_eq!(out.method_id, CompressMethod::Lz4.method_id());
    assert_eq!(out.method_props, vec![1, 0, 1]);
    let mut decoded = Vec::new();
    std::io::Read::read_to_end(&mut lz4_flex::frame::FrameDecoder::new(out.data.as_slice()), &mut decoded).unwrap();
    assert_eq!(decoded, msg);
}

#[test]
fn stored_member_records_size_and_crc() {
    let f = stored_member("x.bin".to_string(), b"abcdef");
    assert_eq!(f.pack_size, 6);
    assert_eq!(f.unpack_size, 6);
    assert_eq!(f.content_crc, crc32fast::hash(b"abcdef"));
    assert_eq!(f.pack_crc, f.content_crc);
    assert!(!f.empty);
    assert!(stored_member("e".to_string(), b"").empty);
    let mut m = StoredMember::start("x.bin".to_string());
    m.feed(b"abc");
    m.feed(b"def");
    let g = m.finish();
    assert_eq!(g.content_crc, f.content_crc);
    assert_eq!(g.pack_size, 6);
}

#[test]
fn end_header_points_at_the_header() {
    assert!(matches!(end_header(&[], 32), Err(Error::EmptyArchive)));
    let files = vec![stored_member("a".to_string(), b"hi")];
    let (h, s) = end_header(&files, 34).unwrap();
    assert_eq!(s.len(), 32);
    assert_eq!(&s[..6], &[0x37, 0x7A, 0xBC, 0xAF, 0x27, 0x1C]);
    assert_eq!(u64::from_le_bytes(s[12..20].try_into().unwrap()), 2);
    assert_eq!(u64::from_le_bytes(s[20..28].try_into().unwrap()), h.len() as u64);
    assert_eq!(u32::from_le_bytes(s[28..32].try_into().unwrap()), crc32fast::hash(&h));
}

#[test]
fn lzma2_dict_prop_decodes_back() {
    assert_eq!(lzma2_dict_prop(4096), 0);
    assert_eq!(lzma2_dict_prop(6144), 1);
    assert_eq!(lzma2_dict_prop(1 << 22), 20);
    assert_eq!(lzma2_dict_prop(1 << 26), 28);
    for k in 12u32..=31 {
        for d in [1u64 << k, 3u64 << (k - 1)] {
            if d > 0xC000_0000 {
                continue;
            }
            let p = lzma2_dict_prop(d as u32) as u64;
            assert!(p <= 39);
            assert_eq!((2 | (p & 1)) << (p / 2 + 11), d, "dict {d}");
        }
    }
}

#[test]
fn lzma2_roundtrip_multiple_levels() {
    let msg = b"lzma2 level sweep payload #".repeat(400);
    for level in [0u32, 1, 3, 5, 7, 9] {
        let out = compress_bytes(&msg, CompressMethod::Lzma2, level).unwrap();
        assert_eq!(out.method_id, vec![0x21], "level {level}");
        assert_eq!(out.crc32, crc32fast::hash(&msg), "level {level}");
        assert_eq!(out.uncompressed_size, msg.len() as u64);
        let dict = dict_size_for_member(level, msg.len() as u64);
        assert_eq!(out.method_props, vec![lzma2_dict_prop(dict)], "level {level} dict prop");
        let mut decoded = Vec::new();
        std::io::Read::read_to_end(&mut lzma_rust2::Lzma2Reader::new(out.data.as_slice(), dict, None), &mut decoded)
            .unwrap();
        assert_eq!(decoded, msg, "level {level}");
    }
}

#[test]
fn lz4_roundtrip_multiple_levels() {
    let msg = b"lz4 level sweep data @@".repeat(600);
    for level in [1u32, 2, 3, 5, 7, 9] {
        let out = compress_bytes(&msg, CompressMethod::Lz4, level).unwrap();
        assert_eq!(out.method_id, CompressMethod::Lz4.method_id(), "level {level}");
        assert_eq!(out.method_props, vec![1, 0, lz4_level_byte(level)], "level {level} props");
        assert_eq!(out.crc32, crc32fast::hash(&msg), "level {level}");
        let mut decoded = Vec::new();
        std::io::Read::read_to_end(&mut lz4_flex::frame::FrameDecoder::new(out.data.as_slice()), &mut decoded)
            .unwrap();
        assert_eq!(decoded, msg, "level {level}");
    }
}

fn seekable_decode_all(archive: &[u8]) -> Vec<u8> {
    let mut dec = zeekstd::Decoder::new(zeekstd::BytesWrapper::new(archive)).unwrap();
    let total = dec.seek_table().size_decomp() as usize;
    let mut out = vec![0u8; total];
    let mut filled = 0;
    while filled < total {
        let n = dec.decompress(&mut out[filled..]).unwrap();
        assert!(n > 0);
        filled += n;
    }
    out
}

#[test]
fn seekable_zstd_encoder_roundtrip_in_pieces() {
    let data: Vec<u8> = (0..300_000u32).map(|i| (i % 251) as u8 ^ (i / 1000) as u8).collect();
    let mut enc = SeekableZstdEncoder::new(3, 65536).unwrap();
    let mut archive = Vec::new();
    for chunk in data.chunks(7777) {
        archive.extend(enc.compress(chunk).unwrap());
    }
    archive.extend(enc.finish().unwrap());
    assert_ne!(archive, data);
    let dec = zeekstd::Decoder::new(zeekstd::BytesWrapper::new(&archive)).unwrap();
    // 300000 bytes cut at 65536 uncompressed bytes make five frames.
    assert_eq!(dec.seek_table().num_frames(), 5);
    assert_eq!(seekable_decode_all(&archive), data);
}

#[test]
fn seekable_zstd_encoder_same_bytes_whatever_the_pieces() {
    let data = b"same archive for any chunking ".repeat(5000);
    let one = {
        let mut enc = SeekableZstdEncoder::new(5, 32768).unwrap();
        let mut a = enc.compress(&data).unwrap();
        a.extend(enc.finish().unwrap());
        a
    };
    let many = {
        let mut enc = SeekableZstdEncoder::new(5, 32768).unwrap();
        let mut a = Vec::new();
        for c in data.chunks(1000) {
            a.extend(enc.compress(c).unwrap());
        }
        a.extend(enc.finish().unwrap());
        a
    };
    assert_eq!(one, many);
}

#[test]
fn seekable_zstd_encoder_refuses_frame_size_zero_and_takes_empty_input() {
    assert!(matches!(SeekableZstdEncoder::new(3, 0), Err(Error::Compress(_))));
    let mut enc = SeekableZstdEncoder::new(3, 1024).unwrap();
    assert!(enc.compress(&[]).unwrap().is_empty());
    let archive = enc.finish().unwrap();
    assert!(!archive.is_empty());
    assert_eq!(seekable_decode_all(&archive), Vec::<u8>::new());
}

#[test]
fn seekable_payload_through_encoder_lists_and_extracts() {
    let mut enc = SeekableZstdEncoder::new(3, DEFAULT_ZSTD_FRAME).unwrap();
    let mut layout = SeekableLayout::new();
    let mut archive = Vec::new();
    let members: [(&str, &[u8]); 3] = [("a.txt", b"alpha"), ("dir/b.bin", &[0u8, 1, 2, 3, 4, 5, 6]), ("empty", b"")];
    for (name, body) in members {
        let (doff, out) = encode_seekable_member(&mut enc, &mut layout, name, body.len() as u64).unwrap();
        archive.extend(out);
        archive.extend(enc.compress(body).unwrap());
        check_member_written(body.len() as u64, body.len() as u64).unwrap();
        assert_eq!(layout.pos(), doff + body.len() as u64);
    }
    assert!(matches!(check_member_written(5, 4), Err(Error::Archive(_))));
    archive.extend(finish_seekable_payload(enc, &layout).unwrap());
    let payload = seekable_decode_all(&archive);
    // Header of the first member: name length 5, "a.txt", data length 5.
    assert_eq!(&payload[..8], &5u64.to_le_bytes());
    assert_eq!(&payload[8..13], b"a.txt");
    assert_eq!(&payload[13..21], &5u64.to_le_bytes());
    assert_eq!(&payload[21..26], b"alpha");
    let n = payload.len();
    let index_start = u64::from_le_bytes(payload[n - 8..].try_into().unwrap()) as usize;
    let index = szst::parse_index(&payload[index_start..n - 8]).unwrap();
    assert_eq!(index.names(), vec!["a.txt", "dir/b.bin", "empty"]);
    let b = index.get("dir/b.bin").unwrap();
    assert_eq!(&payload[b.data_offset as usize..(b.data_offset + b.data_len) as usize], &[0u8, 1, 2, 3, 4, 5, 6]);
}

#[test]
fn encode_seekable_member_refuses_offset_overflow() {
    let mut enc = SeekableZstdEncoder::new(1, 4096).unwrap();
    let mut layout = SeekableLayout::new();
    let r = encode_seekable_member(&mut enc, &mut layout, "x", u64::MAX - 10);
    assert!(matches!(r, Err(Error::Archive(_))));
    assert_eq!(layout.pos(), 0);
    assert!(enc.compress(b"still usable").unwrap().len() <= 131072);
}

#[test]
fn lzma2_pack_decodes_with_dict_from_property_byte() {
    for (len, level) in [(0usize, 5u32), (100, 1), (5000, 3), (70_000, 9), (300_000, 2)] {
        let msg: Vec<u8> = (0..len).map(|i| (i * 7 % 256) as u8).collect();
        let out = compress_bytes(&msg, CompressMethod::Lzma2, level).unwrap();
        assert_eq!(out.method_props.len(), 1);
        let p = out.method_props[0] as u64;
        assert!(p <= 39);
        let dict = ((2 | (p & 1)) << (p / 2 + 11)) as u32;
        assert_eq!(dict, dict_size_for_member(level, len as u64));
        let mut decoded = Vec::new();
        std::io::Read::read_to_end(&mut lzma_rust2::Lzma2Reader::new(out.data.as_slice(), dict, None), &mut decoded)
            .unwrap();
        assert_eq!(decoded, msg);
    }
}

fn stream_in_pieces(data: &[u8], method: CompressMethod, level: u32, piece: usize) -> (Vec<u8>, StreamedPack) {
    let mut enc = PackEncoder::new(method, level, data.len() as u64, 0).unwrap();
    let mut pack = Vec::new();
    for c in data.chunks(piece) {
        pack.extend(enc.feed(c).unwrap());
    }
    let (tail, info) = enc.finish().unwrap();
    pack.extend(tail);
    (pack, info)
}

#[test]
fn streamed_pack_matches_compress_bytes_for_every_method() {
    let data: Vec<u8> = (0..1_500_000u32).map(|i| ((i * 31) % 253) as u8 ^ (i / 4096) as u8).collect();
    for method in [CompressMethod::Lzma2, CompressMethod::Zstd, CompressMethod::Lz4] {
        let whole = compress_bytes(&data, method, 3).unwrap();
        // LZ4 takes its block size from the first piece, so only the whole
        // member in one piece gives the same frame.
        let pieces: &[usize] =
            if method == CompressMethod::Lz4 { &[1_500_000] } else { &[4096, 100_000, 262_144, 1_500_000] };
        for &piece in pieces {
            let (pack, info) = stream_in_pieces(&data, method, 3, piece);
            assert_eq!(pack, whole.data, "{method:?} piece {piece}");
            assert_eq!(info.method_props, whole.method_props);
            assert_eq!(info.crc32, whole.crc32);
            assert_eq!(info.uncompressed_size, data.len() as u64);
            assert_eq!(info.pack_crc, crc32fast::hash(&pack));
            assert_eq!(info.pack_size, pack.len() as u64);
        }
    }
}

#[test]
fn streamed_lz4_frame_in_small_pieces_decodes_back() {
    let data = b"lz4 streamed in pieces ".repeat(40_000);
    for piece in [1000usize, 65_536, 262_144] {
        let (pack, info) = stream_in_pieces(&data, CompressMethod::Lz4, 1, piece);
        let mut decoded = Vec::new();
        std::io::Read::read_to_end(&mut lz4_flex::frame::FrameDecoder::new(pack.as_slice()), &mut decoded).unwrap();
        assert_eq!(decoded, data);
        assert_eq!(info.crc32, crc32fast::hash(&data));
        assert_eq!(info.pack_size, pack.len() as u64);
    }
}

#[test]
fn streamed_zstd_member_of_another_size_than_announced_fails() {
    let mut enc = PackEncoder::new(CompressMethod::Zstd, 3, 10, 0).unwrap();
    let fed = enc.feed(b"only five").map(|_| ());
    assert!(fed.is_ok());
    assert!(matches!(enc.finish(), Err(Error::Compress(_))));
}

#[test]
fn streamed_header_file_of_empty_and_full_members() {
    let enc = PackEncoder::new(CompressMethod::Lz4, 1, 0, 0).unwrap();
    let (_, info) = enc.finish().unwrap();
    assert_eq!(info.uncompressed_size, 0);
    assert!(info.pack_size > 0);
    let hf = streamed_header_file("e".to_string(), CompressMethod::Lz4, info, Some(7));
    assert!(!hf.empty);
    let empty = StreamedPack { method_props: vec![], crc32: 0, uncompressed_size: 0, pack_crc: 0, pack_size: 0 };
    let hf = streamed_header_file("z".to_string(), CompressMethod::Lzma2, empty, Some(9));
    assert!(hf.empty);
    assert_eq!(hf.method_id, vec![0x00]);
    assert_eq!(hf.mtime, Some(9));
    let (pack, info) = stream_in_pieces(b"abcabcabc", CompressMethod::Lzma2, 5, 2);
    let hf = streamed_header_file("m".to_string(), CompressMethod::Lzma2, info, None);
    assert_eq!(hf.pack_size, pack.len() as u64);
    assert_eq!(hf.unpack_size, 9);
    assert_eq!(hf.content_crc, crc32fast::hash(b"abcabcabc"));
    assert_eq!(hf.method_id, vec![0x21]);
}

#[test]
fn members_read_whole_up_to_one_mebibyte() {
    assert!(!reads_whole(0));
    assert!(reads_whole(1));
    assert!(reads_whole(1 << 20));
    assert!(!reads_whole((1 << 20) + 1));
}

#[test]
fn zstd_workers_within_a_member() {
    assert_eq!(zstd_intra_workers(CompressMethod::Zstd, 1, 16), 4);
    assert_eq!(zstd_intra_workers(CompressMethod::Zstd, 1, 2), 2);
    assert_eq!(zstd_intra_workers(CompressMethod::Zstd, 1, 0), 1);
    assert_eq!(zstd_intra_workers(CompressMethod::Zstd, 3, 16), 1);
    assert_eq!(zstd_intra_workers(CompressMethod::Lzma2, 1, 16), 1);
    // A large member with several workers still makes a frame that decodes back.
    let data: Vec<u8> = (0..9_000_000u32).map(|i| (i % 97) as u8 ^ (i >> 16) as u8).collect();
    let mut enc = PackEncoder::new(CompressMethod::Zstd, 3, data.len() as u64, 2).unwrap();
    let mut pack = Vec::new();
    for c in data.chunks(1 << 20) {
        pack.extend(enc.feed(c).unwrap());
    }
    let (tail, info) = enc.finish().unwrap();
    pack.extend(tail);
    assert_eq!(info.pack_size, pack.len() as u64);
    assert_eq!(zstd::stream::decode_all(pack.as_slice()).unwrap(), data);
}
