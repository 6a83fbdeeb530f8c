//! Building torrents.
use bitors::num::NonZeroU64;
use bitors::path::FilePath;
use bitors::torrent::builder::fields::{v1_fields, v2_fields};
use bitors::torrent::builder::layout::{remove_common_prefix, FileEntry};
use bitors::torrent::builder::merkle::{v2_file_hashes, V2FileHashes};
use bitors::torrent::builder::pieces::{plan_pieces, v1_piece_hashes, Source};
use bitors::torrent::builder::state::{Empty, HasFiles};
use bitors::torrent::builder::tree::fits_in_tree;
use bitors::torrent::builder::{Disk, Error, Layout, Listing};
use bitors::torrent::{FileMode, FileTreeNode, TorrentBuf, TorrentMeta};
use bitors::{parse_torrent, Torrent, TorrentBuilder, Url};

fn hex(bytes: &[u8]) -> String {
    let mut s = String::new();
    for b in bytes {
        s.push_str(&format!("{b:02x}"));
    }
    s
}

fn path(text: &str) -> FilePath {
    FilePath::from_bytes(text.as_bytes())
}

fn file(text: &str, length: u64) -> Listing {
    Listing::File(path(text), length)
}

fn url(text: &str) -> Url {
    Url::parse(text).unwrap()
}

fn number(n: u64) -> NonZeroU64 {
    NonZeroU64::new(n).unwrap()
}

fn big() -> Vec<u8> {
    (0..40000usize).map(|i| ((i * 7 + 3) % 251) as u8).collect()
}

/// A directory `dir` with the files `a.txt`, `sub/b.bin` and `zero`.
fn directory() -> Listing {
    Listing::Directory(vec![
        (path("dir/sub/b.bin"), 40000),
        (path("dir/zero"), 0),
        (path("dir/a.txt"), 5),
    ])
}

fn disk<'c>(b: &'c [u8]) -> Disk<'c> {
    Disk {
        now: 1700000000,
        canonical_prefix: Some(path("/home/user/dir")),
        contents: vec![b"hello", b, b""],
    }
}

#[test]
fn the_layout_is_in_order_and_relative() {
    let builder = TorrentBuilder::<HasFiles>::from_path(directory()).unwrap();
    let layout: Layout = builder.layout();
    assert_eq!(layout.common_prefix, path("dir"));
    let listed: Vec<(FilePath, FilePath, u64)> = layout
        .files
        .into_iter()
        .map(|f| (f.disk_path, f.meta_path, f.length))
        .collect();
    assert_eq!(
        listed,
        vec![
            (path("dir/a.txt"), path("a.txt"), 5),
            (path("dir/sub/b.bin"), path("sub/b.bin"), 40000),
            (path("dir/zero"), path("zero"), 0),
        ]
    );
}

#[test]
fn the_order_in_which_files_are_added_does_not_matter() {
    let big = big();
    let files = vec![
        file("dir/zero", 0),
        file("dir/a.txt", 5),
        file("dir/sub/b.bin", 40000),
    ];
    let one = TorrentBuilder::<HasFiles>::from_paths(files).unwrap();
    let other = TorrentBuilder::<HasFiles>::from_path(directory()).unwrap();
    assert_eq!(
        one.build_hybrid(&disk(&big)).unwrap(),
        other.build_hybrid(&disk(&big)).unwrap()
    );
}

#[test]
fn a_v1_torrent_hashes_one_stream() {
    let big = big();
    let builder = TorrentBuilder::<HasFiles>::from_path(directory())
        .unwrap()
        .piece_length(number(16384));
    let torrent = builder.build_v1(&disk(&big)).unwrap();
    assert_eq!(
        hex(&torrent.info_hash_v1().unwrap()),
        "6067b9bfbea17bef52955763d736d6dfa7033160"
    );
    assert_eq!(torrent.info_hash_v2(), None);
    assert_eq!(torrent.name(), "dir");
    assert_eq!(torrent.total_size(), 40005);
    assert_eq!(torrent.file_count(), 3);
    assert_eq!(torrent.creation_date, Some(1700000000));
    assert_eq!(torrent.encoding.as_deref(), Some("UTF-8"));
    assert_eq!(torrent.tracker_tiers, None);
    assert_eq!(torrent.web_seeds, None);
    match &torrent.meta {
        TorrentMeta::V1 { info } => {
            let hashes: Vec<String> = info.kind.pieces.iter().map(|p| hex(p)).collect();
            assert_eq!(
                hashes,
                vec![
                    "11362b5ec0b4f7ea128b6805f2b82c2a76be33bc",
                    "0f51b821416d1327552d207285458f2cdbff6f23",
                    "9e4b8024428e26b40265871178e8a32a26b1511d",
                ]
            );
        }
        _ => panic!("not v1"),
    }
}

#[test]
fn a_v2_torrent_has_a_tree_and_layers() {
    let big = big();
    let builder = TorrentBuilder::<HasFiles>::from_path(directory())
        .unwrap()
        .piece_length(number(16384));
    let torrent = builder.build_v2(&disk(&big)).unwrap();
    assert_eq!(
        hex(&torrent.info_hash_v2().unwrap()),
        "7249a3ab1c5b69fff985a26169c30eedf365f62f668bbb9c5d3316c1ee99e79d"
    );
    match &torrent.meta {
        TorrentMeta::V2 { info, piece_layers } => {
            assert_eq!(info.kind.file_tree.file_count(), 3);
            assert_eq!(info.kind.file_tree.total_size(), 40005);
            assert_eq!(
                info.kind.file_tree.file_paths(),
                vec![path("a.txt"), path("sub/b.bin"), path("zero")]
            );
            assert_eq!(piece_layers.0.len(), 1);
            assert_eq!(
                hex(piece_layers.0.key_at(0)),
                "7d9f01ba091cfb3a86ea7319b5315cc9ea62e74f64ecd4fb1d6d03a45fcc7c37"
            );
            assert_eq!(
                hex(piece_layers.0.value_at(0)),
                "90b834666bd99804aad5f0d312a8862f91872e635fd6063d42fe787c4e1d84ee\
                 6602c191d6cb5362f91f44ec41563915ee19845df7ea2186b288ce2b7591e504\
                 0f35718bc771e7354cf587666968a7f1ff8579d84820103727254eeeac822ee3"
            );
            match info.kind.file_tree.0.get(b"a.txt") {
                Some(FileTreeNode::File(leaf)) => {
                    assert_eq!(leaf.length, 5);
                    assert_eq!(
                        hex(&leaf.pieces_root.as_ref().unwrap()[..]),
                        "2cf24dba5fb0a30e26e83b2ac5b9e29e1b161e5c1fa7425e73043362938b9824"
                    );
                }
                _ => panic!("not a file"),
            }
            match info.kind.file_tree.0.get(b"zero") {
                Some(FileTreeNode::File(leaf)) => assert_eq!(leaf.pieces_root, None),
                _ => panic!("not a file"),
            }
        }
        _ => panic!("not v2"),
    }
}

#[test]
fn a_hybrid_torrent_has_padding_files() {
    let big = big();
    let builder = TorrentBuilder::<HasFiles>::from_path(directory())
        .unwrap()
        .piece_length(number(16384));
    let torrent = builder.build(&disk(&big)).unwrap();
    assert_eq!(
        hex(&torrent.info_hash_v1().unwrap()),
        "8e71202070b2bb17403c74d58f6f74d6e4fda1de"
    );
    assert_eq!(
        hex(&torrent.info_hash_v2().unwrap()),
        "bf6147f7915b906ca76145f26ef37acc40c294df2c6caf6629f4ac24bc328741"
    );
    match &torrent.meta {
        TorrentMeta::Hybrid { info, .. } => {
            let hashes: Vec<String> = info.kind.v1.pieces.iter().map(|p| hex(p)).collect();
            assert_eq!(
                hashes,
                vec![
                    "f4b5ca23447bdc97f1f182878e6e1c56c53c91ed",
                    "82c735d4ba0315487ca989963138d78f3378c946",
                    "cca94f0bb5a1024e3d2cbe1968b9f95ce92c6115",
                    "fade1c1f8011d796e5c847feb212da956103314f",
                ]
            );
            match &info.kind.v1.file_mode {
                FileMode::Multi { files } => {
                    assert_eq!(files.len(), 5);
                    assert_eq!(files[1].path, vec![".pad", "16379"]);
                    assert_eq!(files[1].attr.as_ref().unwrap().as_bytes(), b"p");
                    assert_eq!(files[3].length, 9152);
                    assert_eq!(files[4].attr, None);
                }
                _ => panic!("not a list of files"),
            }
        }
        _ => panic!("not hybrid"),
    }
}

#[test]
fn a_built_torrent_reads_back() {
    let big = big();
    let builder = TorrentBuilder::<HasFiles>::from_path(directory())
        .unwrap()
        .add_tracker(url("udp://tracker.example.com:6969/announce"))
        .add_web_seed(url("https://mirror.example.com/dir/"))
        .comment("a comment")
        .created_by("a program")
        .source("a source")
        .private();
    let torrent = builder.build_hybrid(&disk(&big)).unwrap();
    let bytes = torrent.to_bencode().encode();
    let read = parse_torrent(&bytes).unwrap();
    assert_eq!(read.info_hash_v1(), torrent.info_hash_v1());
    assert_eq!(read.info_hash_v2(), torrent.info_hash_v2());
    assert_eq!(read.tracker_tiers, torrent.tracker_tiers);
    assert_eq!(read.web_seeds, torrent.web_seeds);
    assert_eq!(read.comment, torrent.comment);
    assert_eq!(read.created_by, torrent.created_by);
    assert_eq!(read.creation_date, torrent.creation_date);
    assert!(read.private());
    assert_eq!(read.source().unwrap(), "a source");
    assert_eq!(read.to_bencode().encode(), bytes);
}

#[test]
fn a_single_file_gives_its_name() {
    let builder = TorrentBuilder::<HasFiles>::from_path(file("dir/a.txt", 5)).unwrap();
    let disk = Disk {
        now: 0,
        canonical_prefix: None,
        contents: vec![b"hello"],
    };
    let torrent = builder.build_v1(&disk).unwrap();
    assert_eq!(torrent.name(), "a.txt");
    match &torrent.meta {
        TorrentMeta::V1 { info } => match info.kind.file_mode {
            FileMode::Single { length, .. } => assert_eq!(length, 5),
            _ => panic!("not a single file"),
        },
        _ => panic!("not v1"),
    }
    assert_eq!(
        hex(&torrent.info_hash_v1().unwrap()),
        "de3edc1dfa1958affac1dbdc8f34d4d6dac43f00"
    );
}

#[test]
fn a_single_file_of_whole_pieces_needs_no_padding() {
    let content = vec![1u8; 32768];
    let builder = TorrentBuilder::<HasFiles>::from_path(file("x", 32768))
        .unwrap()
        .piece_length(number(16384));
    let disk = Disk {
        now: 0,
        canonical_prefix: None,
        contents: vec![&content],
    };
    let torrent = builder.build_hybrid(&disk).unwrap();
    match &torrent.meta {
        TorrentMeta::Hybrid { info, .. } => assert!(info.kind.v1.file_mode.is_single()),
        _ => panic!("not hybrid"),
    }
    let bytes = torrent.to_bencode().encode();
    assert!(parse_torrent(&bytes).is_ok());
}

#[test]
fn a_single_file_with_another_name_does_not_read_back_as_a_hybrid() {
    let content = vec![1u8; 32768];
    let builder = TorrentBuilder::<HasFiles>::from_path(file("x", 32768))
        .unwrap()
        .piece_length(number(16384))
        .name("y");
    let disk = Disk {
        now: 0,
        canonical_prefix: None,
        contents: vec![&content],
    };
    let bytes = builder.build_hybrid(&disk).unwrap().to_bencode().encode();
    assert!(matches!(
        parse_torrent(&bytes),
        Err(bitors::error::Error::Torrent(
            bitors::torrent::Error::HybridMismatch
        ))
    ));
}

#[test]
fn a_second_file_ends_single_file_mode() {
    let builder = TorrentBuilder::<HasFiles>::from_path(file("d/a", 1))
        .unwrap()
        .add_path(file("d/b", 1))
        .unwrap();
    let disk = Disk {
        now: 0,
        canonical_prefix: Some(path("/x/d")),
        contents: vec![b"1", b"2"],
    };
    let torrent = builder.build_v1(&disk).unwrap();
    assert_eq!(torrent.name(), "d");
    assert_eq!(torrent.file_count(), 2);
}

#[test]
fn a_directory_with_one_file_is_listed() {
    let found = Listing::Directory(vec![(path("d/a"), 1)]);
    let builder = TorrentBuilder::<HasFiles>::from_path(found).unwrap();
    let disk = Disk {
        now: 0,
        canonical_prefix: Some(path("/x/d")),
        contents: vec![b"1"],
    };
    let torrent = builder.build_v1(&disk).unwrap();
    assert_eq!(torrent.name(), "d");
    match &torrent.meta {
        TorrentMeta::V1 { info } => assert!(info.kind.file_mode.is_multi()),
        _ => panic!("not v1"),
    }
}

#[test]
fn a_directory_that_cannot_be_found_gives_no_name() {
    let found = Listing::Directory(vec![(path("d/a"), 1)]);
    let builder = TorrentBuilder::<HasFiles>::from_path(found).unwrap();
    let disk = Disk {
        now: 0,
        canonical_prefix: None,
        contents: vec![b"1"],
    };
    assert_eq!(builder.build_v1(&disk).unwrap().name(), "New Torrent");
}

#[test]
fn a_directory_above_the_current_one_gives_no_name() {
    let found = Listing::Directory(vec![(path("../d/a"), 1)]);
    let builder = TorrentBuilder::<HasFiles>::from_path(found).unwrap();
    let disk = Disk {
        now: 0,
        canonical_prefix: Some(path("/x/d")),
        contents: vec![b"1"],
    };
    assert_eq!(builder.build_v1(&disk).unwrap().name(), "New Torrent");
}

#[test]
fn the_name_that_is_asked_for_counts() {
    let big = big();
    let builder = TorrentBuilder::<HasFiles>::from_path(directory()).unwrap().name("other");
    assert_eq!(builder.build_v1(&disk(&big)).unwrap().name(), "other");
}

#[test]
fn tiers_are_filled_one_after_the_other() {
    let builder = TorrentBuilder::<HasFiles>::from_path(file("a", 1))
        .unwrap()
        .next_tracker_tier()
        .add_tracker(url("udp://one.example.com/"))
        .add_trackers(vec![url("udp://two.example.com/"), url("udp://three.example.com/")])
        .next_tracker_tier()
        .next_tracker_tier()
        .add_tracker(url("udp://four.example.com/"))
        .next_tracker_tier()
        .add_web_seeds(vec![url("https://one.example.com/"), url("https://two.example.com/")]);
    let disk = Disk {
        now: 0,
        canonical_prefix: None,
        contents: vec![b"1"],
    };
    let torrent = builder.build_v1(&disk).unwrap();
    let tiers = torrent.tracker_tiers();
    assert_eq!(tiers.len(), 2);
    let first: Vec<&str> = tiers[0].iter().map(|u| u.as_str()).collect();
    assert_eq!(
        first,
        vec![
            "udp://one.example.com/",
            "udp://two.example.com/",
            "udp://three.example.com/",
        ]
    );
    assert_eq!(tiers[1].len(), 1);
    assert_eq!(torrent.web_seeds.as_ref().unwrap().len(), 2);
}

#[test]
fn the_creation_date_can_be_set() {
    let builder = TorrentBuilder::<HasFiles>::from_path(file("a", 1)).unwrap().creation_date(7);
    let disk = Disk {
        now: 9,
        canonical_prefix: None,
        contents: vec![b"1"],
    };
    assert_eq!(builder.build_v1(&disk).unwrap().creation_date, Some(7));
}

fn default_length(total: u64) -> u64 {
    let builder = TorrentBuilder::<HasFiles>::from_path(file("a", total)).unwrap();
    let layout = builder.layout();
    assert_eq!(layout.files[0].length, total);
    let content = vec![0u8; total as usize];
    let disk = Disk {
        now: 0,
        canonical_prefix: None,
        contents: vec![&content],
    };
    builder.build_v1(&disk).unwrap().piece_length().get()
}

#[test]
fn the_piece_length_follows_the_total_length() {
    assert_eq!(default_length(0), 16384);
    assert_eq!(default_length(16384000), 16384);
    assert_eq!(default_length(32767999), 16384);
    assert_eq!(default_length(32768000), 32768);
}

#[test]
fn a_directory_without_files_is_an_error_at_first() {
    let empty = || Listing::Directory(vec![]);
    assert!(matches!(
        TorrentBuilder::<HasFiles>::from_path(empty()),
        Err(Error::NoFiles)
    ));
    assert!(matches!(
        TorrentBuilder::<HasFiles>::from_paths(vec![empty(), empty()]),
        Err(Error::NoFiles)
    ));
    let builder = TorrentBuilder::<HasFiles>::from_paths(vec![empty(), file("a", 1)]).unwrap();
    let builder = builder.add_path(empty()).unwrap();
    assert_eq!(builder.layout().files.len(), 1);
}

#[test]
fn what_is_neither_a_file_nor_a_directory_is_rejected() {
    let socket = || Listing::Other(path("/run/socket"));
    match TorrentBuilder::<HasFiles>::from_path(socket()) {
        Err(Error::UnsupportedFileType(p)) => assert_eq!(p, path("/run/socket")),
        _ => panic!("accepted"),
    }
    let builder = TorrentBuilder::<HasFiles>::from_path(file("a", 1)).unwrap();
    assert!(matches!(
        builder.add_paths(vec![file("b", 1), socket()]),
        Err(Error::UnsupportedFileType(_))
    ));
}

#[test]
fn names_must_be_utf8() {
    let bad = FilePath::from_bytes(b"d/\xff");
    let found = Listing::Directory(vec![(bad, 1), (path("d/x"), 1)]);
    let builder = TorrentBuilder::<HasFiles>::from_path(found).unwrap();
    let disk = Disk {
        now: 0,
        canonical_prefix: None,
        contents: vec![b"1", b"2"],
    };
    assert_eq!(builder.build_v1(&disk), Err(Error::NonUtf8Name));
}

#[test]
fn v2_restricts_the_piece_length() {
    let disk = Disk {
        now: 0,
        canonical_prefix: None,
        contents: vec![b"1"],
    };
    let with = |n: u64| {
        TorrentBuilder::<HasFiles>::from_path(file("a", 1))
            .unwrap()
            .piece_length(number(n))
    };
    assert_eq!(
        with(8192).build_v2(&disk),
        Err(Error::InvalidPieceLengthV2(number(8192)))
    );
    assert_eq!(
        with(20000).build_hybrid(&disk),
        Err(Error::InvalidPieceLengthV2(number(20000)))
    );
    assert!(with(16384).build_v2(&disk).is_ok());
    assert!(with(1).build_v1(&disk).is_ok());
}

#[test]
fn a_builder_starts_without_anything() {
    let builder: TorrentBuilder<Empty> = Torrent::builder();
    let built: Result<TorrentBuf, Error> = builder
        .add_paths(vec![file("a", 0)])
        .unwrap()
        .build_v1(&Disk {
            now: 3,
            canonical_prefix: None,
            contents: vec![b""],
        });
    let torrent = built.unwrap();
    assert!(!torrent.private());
    assert_eq!(torrent.source(), None);
    assert_eq!(torrent.comment, None);
    assert_eq!(torrent.piece_length().get(), 16384);
    match &torrent.meta {
        TorrentMeta::V1 { info } => assert!(info.kind.pieces.is_empty()),
        _ => panic!("not v1"),
    }
    assert_eq!(
        TorrentBuilder::default().add_path(file("a", 0)).unwrap().layout().files.len(),
        1
    );
}

#[test]
fn pieces_are_planned_across_files() {
    let plans = plan_pieces(&[3, 0, 4], 5).unwrap();
    assert_eq!(plans.len(), 2);
    let first: Vec<(usize, usize, usize)> =
        plans[0].iter().map(|c| (c.source, c.offset, c.length)).collect();
    assert_eq!(first, vec![(0, 0, 3), (2, 0, 2)]);
    let second: Vec<(usize, usize, usize)> =
        plans[1].iter().map(|c| (c.source, c.offset, c.length)).collect();
    assert_eq!(second, vec![(2, 2, 2)]);
    assert!(plan_pieces(&[0, 0], 5).unwrap().is_empty());
}

#[test]
fn padding_is_hashed_as_zeros() {
    let padded = v1_piece_hashes(&[Source::Bytes(b"ab"), Source::Zeros(3)], 5).unwrap();
    let plain = v1_piece_hashes(&[Source::Bytes(b"ab\0\0\0")], 5).unwrap();
    assert_eq!(padded, plain);
}

#[test]
fn the_hashes_of_a_file_depend_on_its_length() {
    assert!(matches!(v2_file_hashes(b"", 16384), Ok(V2FileHashes::Empty)));
    match v2_file_hashes(b"hello", 16384) {
        Ok(V2FileHashes::SinglePiece { root }) => assert_eq!(
            hex(&root),
            "2cf24dba5fb0a30e26e83b2ac5b9e29e1b161e5c1fa7425e73043362938b9824"
        ),
        _ => panic!("not a single piece"),
    }
    match v2_file_hashes(&big(), 32768) {
        Ok(V2FileHashes::MultiPiece { root, layer }) => {
            assert_eq!(
                hex(&root),
                "7d9f01ba091cfb3a86ea7319b5315cc9ea62e74f64ecd4fb1d6d03a45fcc7c37"
            );
            let layer: Vec<String> = layer.iter().map(|h| hex(h)).collect();
            assert_eq!(
                layer,
                vec![
                    "6b7702ec93fd7bde4fccf7123b679a0703843fe9d838e7bc9ac4eee2c26e3923",
                    "df9bcb7ffbb32033e3572afcf79d257b87c2bd5b3c25f366e1e790d3b768b939",
                ]
            );
        }
        _ => panic!("not several pieces"),
    }
    match v2_file_hashes(&big(), 1 << 20) {
        Ok(V2FileHashes::SinglePiece { root }) => assert_eq!(
            hex(&root),
            "7d9f01ba091cfb3a86ea7319b5315cc9ea62e74f64ecd4fb1d6d03a45fcc7c37"
        ),
        _ => panic!("not a single piece"),
    }
}

fn entry(text: &str, length: u64) -> FileEntry {
    FileEntry {
        disk_path: path(text),
        meta_path: path(text),
        length,
        padding: false,
    }
}

#[test]
fn a_file_must_not_stand_where_a_directory_should_be() {
    assert!(fits_in_tree(&[entry("a/b", 1), entry("a/c", 1), entry("a/b", 1)]));
    assert!(!fits_in_tree(&[entry("a", 1), entry("a/c", 1)]));
    assert!(fits_in_tree(&[entry("a/c", 1), entry("a", 1)]));
}

#[test]
fn the_fields_of_the_versions_can_be_made_alone() {
    let files = [entry("a", 1), entry("b", 1)];
    let sources = [Source::Bytes(b"1"), Source::Bytes(b"2")];
    let v1 = v1_fields(&files, &sources, 16384, false).unwrap();
    assert_eq!(v1.pieces.len(), 1);
    let (v2, layers) = v2_fields(&files, &[b"1", b"2"], 16384).unwrap();
    assert_eq!(v2.file_tree.file_count(), 2);
    assert!(layers.0.is_empty());
}

#[test]
fn absolute_and_relative_paths_share_nothing() {
    let files = [(path("/a/x"), 1), (path("b/y"), 2)];
    let (prefix, entries) = remove_common_prefix(&files);
    assert_eq!(prefix, path("/"));
    assert_eq!(entries[0].meta_path, path("a/x"));
    assert_eq!(entries[1].meta_path, path("b/y"));
    let files = [(path("a/x"), 1), (path("b/y"), 2)];
    let (prefix, entries) = remove_common_prefix(&files);
    assert_eq!(prefix, path(""));
    assert_eq!(entries[0].meta_path, path("a/x"));
}

#[test]
fn every_version_reads_back() {
    let big = big();
    let disk = disk(&big);
    let v1 = TorrentBuilder::<HasFiles>::from_path(directory())
        .unwrap()
        .build_v1(&disk)
        .unwrap();
    let bytes = v1.to_bencode().encode();
    assert_eq!(parse_torrent(&bytes).unwrap(), v1);
    let v2 = TorrentBuilder::<HasFiles>::from_path(directory())
        .unwrap()
        .build_v2(&disk)
        .unwrap();
    let bytes = v2.to_bencode().encode();
    let read = parse_torrent(&bytes).unwrap();
    assert_eq!(read.info_hash_v2(), v2.info_hash_v2());
    assert_eq!(read.file_count(), 3);
    assert_eq!(read.to_bencode().encode(), bytes);
}

#[test]
fn the_tree_of_a_hybrid_torrent_follows_the_names() {
    let files = vec![
        (path("d/b"), 1),
        (path("d/a/z"), 1),
        (path("d/a!"), 1),
        (path("d/a/c/x"), 1),
    ];
    let builder = TorrentBuilder::<HasFiles>::from_path(Listing::Directory(files)).unwrap();
    let disk = Disk {
        now: 0,
        canonical_prefix: None,
        contents: vec![b"1", b"2", b"3", b"4"],
    };
    let torrent = builder.build_hybrid(&disk).unwrap();
    let bytes = torrent.to_bencode().encode();
    let read = parse_torrent(&bytes).unwrap();
    match &read.meta {
        TorrentMeta::Hybrid { info, .. } => assert_eq!(
            info.kind.v2.file_tree.file_paths(),
            vec![path("a/c/x"), path("a/z"), path("a!"), path("b")]
        ),
        _ => panic!("not hybrid"),
    }
}

#[test]
fn a_file_that_is_added_twice_is_a_mismatch() {
    let files = vec![file("d/a", 1), file("d/b", 1), file("d/a", 1)];
    let builder = TorrentBuilder::<HasFiles>::from_paths(files).unwrap();
    let disk = Disk {
        now: 0,
        canonical_prefix: None,
        contents: vec![b"1", b"1", b"2"],
    };
    let bytes = builder.build_hybrid(&disk).unwrap().to_bencode().encode();
    assert!(matches!(
        parse_torrent(&bytes),
        Err(bitors::error::Error::Torrent(
            bitors::torrent::Error::HybridMismatch
        ))
    ));
}
