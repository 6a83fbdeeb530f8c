//! Building v1-only torrents with a factory.
use bitors::num::NonZeroU64;
use bitors::path::FilePath;
use bitors::torrent::builder::{Disk, Listing};
use bitors::torrent::factory::state::{Empty, HasFiles};
use bitors::torrent::factory::{compute_piece_hashes, Error, TorrentFactory};
use bitors::torrent::{FileMode, TorrentMeta};
use bitors::{parse_torrent, Url};

fn hex(bytes: &[u8]) -> String {
    let mut s = String::new();
    for b in bytes {
        s.push_str(&format!("{b:02x}"));
    }
    s
}

fn path(text: &str) -> FilePath {
    FilePath::from_bytes(text.as_bytes())
}

fn url(text: &str) -> Url {
    Url::parse(text).unwrap()
}

fn big() -> Vec<u8> {
    (0..40000usize).map(|i| ((i * 7 + 3) % 251) as u8).collect()
}

fn directory() -> Listing {
    Listing::Directory(vec![
        (path("dir/zero"), 0),
        (path("dir/sub/b.bin"), 40000),
        (path("dir/a.txt"), 5),
    ])
}

#[test]
fn a_directory_becomes_a_list_of_files() {
    let big = big();
    let factory = TorrentFactory::<HasFiles>::from_path(directory()).unwrap();
    let layout = factory.layout();
    assert_eq!(layout.common_prefix, path("dir"));
    assert_eq!(layout.files[1].meta_path, path("sub/b.bin"));
    let disk = Disk {
        now: 12,
        canonical_prefix: Some(path("/x/dir")),
        contents: vec![b"hello", &big, b""],
    };
    let torrent = factory.build(&disk).unwrap();
    assert_eq!(torrent.name(), "dir");
    assert_eq!(torrent.piece_length().get(), 524288);
    assert_eq!(torrent.creation_date, Some(12));
    assert_eq!(
        hex(&torrent.info_hash_v1().unwrap()),
        "ca6435eb8cd3436f149544757ea47f24f9c7f401"
    );
    let bytes = torrent.to_bencode().encode();
    assert_eq!(parse_torrent(&bytes).unwrap(), torrent);
}

#[test]
fn a_single_file_gives_its_name_to_the_torrent() {
    let factory = TorrentFactory::<Empty>::new()
        .piece_length(NonZeroU64::new(16384).unwrap())
        .add_path(Listing::File(path("some/where/a.txt"), 5))
        .unwrap();
    assert_eq!(factory.layout().common_prefix, path("some/where/a.txt"));
    let disk = Disk {
        now: 0,
        canonical_prefix: None,
        contents: vec![b"hello"],
    };
    let torrent = factory.build(&disk).unwrap();
    assert_eq!(
        hex(&torrent.info_hash_v1().unwrap()),
        "de3edc1dfa1958affac1dbdc8f34d4d6dac43f00"
    );
}

#[test]
fn a_private_torrent_with_a_source_has_another_hash() {
    let factory = TorrentFactory::<HasFiles>::from_path(Listing::File(path("a.txt"), 5))
        .unwrap()
        .piece_length(NonZeroU64::new(16384).unwrap())
        .private();
    let disk = Disk {
        now: 0,
        canonical_prefix: None,
        contents: vec![b"hello"],
    };
    let torrent = factory.source("src").build(&disk).unwrap();
    assert_eq!(
        hex(&torrent.info_hash_v1().unwrap()),
        "9018e6de32f32fa8409b2f571d89e5e915d176f2"
    );
}

#[test]
fn what_is_asked_for_is_written() {
    let factory = TorrentFactory::<HasFiles>::from_paths(vec![Listing::File(path("a"), 1)])
        .unwrap()
        .name("other")
        .creation_date(5)
        .created_by("me")
        .comment("hi")
        .next_announce_tier()
        .add_announce_url(url("udp://one.example.com/"))
        .add_announce_urls(vec![url("udp://two.example.com/")])
        .next_announce_tier()
        .add_announce_url(url("udp://three.example.com/"))
        .add_url(url("https://one.example.com/"))
        .add_urls(vec![url("https://two.example.com/")]);
    let disk = Disk {
        now: 0,
        canonical_prefix: None,
        contents: vec![b"1"],
    };
    let torrent = factory.build(&disk).unwrap();
    assert_eq!(torrent.name(), "other");
    assert_eq!(torrent.creation_date, Some(5));
    assert_eq!(torrent.created_by.as_deref(), Some("me"));
    assert_eq!(torrent.comment.as_deref(), Some("hi"));
    let tiers = torrent.tracker_tiers();
    assert_eq!(tiers.len(), 2);
    assert_eq!(tiers[0].len(), 2);
    assert_eq!(torrent.web_seeds.as_ref().unwrap().len(), 2);
}

#[test]
fn files_of_different_directories_have_no_name_in_common() {
    let factory = TorrentFactory::<HasFiles>::from_path(Listing::File(path("a/x"), 1))
        .unwrap()
        .add_path(Listing::File(path("b/y"), 1))
        .unwrap()
        .add_paths(vec![Listing::Directory(vec![])])
        .unwrap();
    assert_eq!(factory.layout().common_prefix, path(""));
    let disk = Disk {
        now: 0,
        canonical_prefix: None,
        contents: vec![b"1", b"2"],
    };
    let torrent = factory.build(&disk).unwrap();
    assert_eq!(torrent.name(), "New Torrent");
    match &torrent.meta {
        TorrentMeta::V1 { info } => match &info.kind.file_mode {
            FileMode::Multi { files } => assert_eq!(files[1].path, vec!["b", "y"]),
            _ => panic!("not a list of files"),
        },
        _ => panic!("not v1"),
    }
}

#[test]
fn a_factory_needs_files_with_readable_names() {
    assert!(matches!(
        TorrentFactory::<HasFiles>::from_path(Listing::Directory(vec![])),
        Err(Error::NoFiles)
    ));
    assert!(matches!(
        TorrentFactory::default().add_paths(vec![]),
        Err(Error::NoFiles)
    ));
    assert!(matches!(
        TorrentFactory::<HasFiles>::from_path(Listing::Other(path("x"))),
        Err(Error::UnsupportedFileType(_))
    ));
    let bad = FilePath::from_bytes(b"d/\xff");
    let found = Listing::Directory(vec![(bad, 1), (path("d/x"), 1)]);
    let disk = Disk {
        now: 0,
        canonical_prefix: None,
        contents: vec![b"1", b"2"],
    };
    assert_eq!(
        TorrentFactory::<HasFiles>::from_path(found).unwrap().build(&disk),
        Err(Error::NonUtf8Name)
    );
}

#[test]
fn pieces_span_the_boundaries_between_files() {
    let hashes = compute_piece_hashes(&[b"he", b"", b"llo", b"hel", b"lo"], 5);
    assert_eq!(hashes.len(), 2);
    assert_eq!(hex(&hashes[0]), "aaf4c61ddcc5e8a2dabede0f3b482cd9aea9434d");
    assert_eq!(hashes[0], hashes[1]);
    assert!(compute_piece_hashes(&[b""], 5).is_empty());
    assert_eq!(compute_piece_hashes(&[b"hello!"], 5).len(), 2);
}

#[test]
fn the_order_of_the_files_does_not_matter_to_a_factory() {
    let one = TorrentFactory::<HasFiles>::from_paths(vec![
        Listing::File(path("d/b"), 1),
        Listing::File(path("d/a"), 2),
    ])
    .unwrap();
    let other = TorrentFactory::<HasFiles>::from_paths(vec![
        Listing::File(path("d/a"), 2),
        Listing::File(path("d/b"), 1),
    ])
    .unwrap();
    let disk = Disk {
        now: 3,
        canonical_prefix: None,
        contents: vec![b"aa", b"b"],
    };
    let torrent = one.build(&disk).unwrap();
    assert_eq!(torrent, other.build(&disk).unwrap());
    let bytes = torrent.to_bencode().encode();
    assert_eq!(parse_torrent(&bytes).unwrap(), torrent);
}
