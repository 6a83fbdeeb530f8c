//! Reading and writing torrents.
use std::borrow::Cow;

use bitors::bencode::{Bencode, Parser};
use bitors::error::Error as TopError;
use bitors::num::NonZeroU64;
use bitors::path::FilePath;
use bitors::torrent::{
    Error, FileInfo, FileInfoAttr, FileInfoAttrFlags, FileLeaf, FileMode, FileTree, FileTreeNode,
    InfoV2, IntoOwned, TorrentBuf, TorrentMeta, TrackerTier,
};
use bitors::{parse_torrent, Torrent, Url};

const HASH: &str = "aaaaaaaaaaaaaaaaaaaa";
const ROOT: &str = "rrrrrrrrrrrrrrrrrrrrrrrrrrrrrrrr";

fn text(s: &str) -> String {
    format!("{}:{}", s.len(), s)
}

/// A dictionary with the given entries.
fn dict(entries: &[(&str, String)]) -> String {
    let mut s = "d".to_string();
    for (key, value) in entries {
        s.push_str(&text(key));
        s.push_str(value);
    }
    s.push('e');
    s
}

fn integer(n: i64) -> String {
    format!("i{n}e")
}

fn list(items: &[String]) -> String {
    format!("l{}e", items.concat())
}

fn v1_info() -> String {
    dict(&[
        ("length", integer(5)),
        ("name", text("a.txt")),
        ("piece length", integer(16384)),
        ("pieces", text(HASH)),
    ])
}

fn leaf(length: i64, root: bool) -> String {
    let mut entries = vec![("length", integer(length))];
    if root {
        entries.push(("pieces root", text(ROOT)));
    }
    dict(&[("", dict(&entries))])
}

fn v2_info(tree: String) -> String {
    dict(&[
        ("file tree", tree),
        ("meta version", integer(2)),
        ("name", text("dir")),
        ("piece length", integer(16384)),
    ])
}

fn layers() -> String {
    dict(&[(ROOT, text("layer"))])
}

fn v2_torrent() -> String {
    let tree = dict(&[("a", leaf(20000, true)), ("b", leaf(0, false))]);
    dict(&[("info", v2_info(tree)), ("piece layers", layers())])
}

fn hybrid_torrent(files: String, tree: String) -> String {
    let info = dict(&[
        ("file tree", tree),
        ("files", files),
        ("meta version", integer(2)),
        ("name", text("dir")),
        ("piece length", integer(16384)),
        ("pieces", text(HASH)),
    ]);
    dict(&[("info", info), ("piece layers", layers())])
}

fn file(path: &[&str], length: i64, attr: Option<&str>) -> String {
    let mut entries = vec![];
    if let Some(attr) = attr {
        entries.push(("attr", text(attr)));
    }
    entries.push(("length", integer(length)));
    let path: Vec<String> = path.iter().map(|p| text(p)).collect();
    entries.push(("path", list(&path)));
    dict(&entries)
}

fn rejected(data: &str) -> Error {
    match parse_torrent(data.as_bytes()) {
        Err(TopError::Torrent(e)) => e,
        Err(TopError::Bencode(e)) => panic!("not bencode: {e:?}"),
        Ok(_) => panic!("accepted"),
    }
}

fn hex(bytes: &[u8]) -> String {
    let mut s = String::new();
    for b in bytes {
        s.push_str(&format!("{b:02x}"));
    }
    s
}

fn paths(names: &[&str]) -> Vec<FilePath> {
    names.iter().map(|n| FilePath::from_bytes(n.as_bytes())).collect()
}

#[test]
fn a_v1_torrent_is_read() {
    let data = dict(&[
        ("announce", text("udp://one.example.com/")),
        ("comment", text("hi")),
        ("created by", text("me")),
        ("creation date", integer(7)),
        ("encoding", text("UTF-8")),
        ("info", v1_info()),
        ("url-list", list(&[text("https://seed.example.com/")])),
    ]);
    let torrent = parse_torrent(data.as_bytes()).unwrap();
    assert!(torrent.is_v1() && !torrent.is_v2() && !torrent.is_hybrid());
    assert_eq!(torrent.name(), "a.txt");
    assert_eq!(torrent.piece_length(), NonZeroU64::new(16384).unwrap());
    assert_eq!(torrent.total_size(), 5);
    assert_eq!(torrent.file_count(), 1);
    assert!(!torrent.private());
    assert_eq!(torrent.source(), None);
    assert_eq!(torrent.comment.as_deref(), Some("hi"));
    assert_eq!(torrent.created_by.as_deref(), Some("me"));
    assert_eq!(torrent.creation_date, Some(7));
    assert_eq!(torrent.encoding.as_deref(), Some("UTF-8"));
    let tiers = torrent.tracker_tiers();
    assert_eq!(tiers.len(), 1);
    assert_eq!(tiers[0][0].as_str(), "udp://one.example.com/");
    assert_eq!(
        torrent.web_seeds.as_ref().unwrap()[0].as_str(),
        "https://seed.example.com/"
    );
    match &torrent.meta {
        TorrentMeta::V1 { info } => {
            assert_eq!(info.kind.pieces.len(), 1);
            assert_eq!(&info.kind.pieces[0], HASH.as_bytes());
            assert!(info.kind.file_mode.is_single() && !info.kind.file_mode.is_multi());
            assert_eq!(Some(info.info_hash()), torrent.info_hash_v1());
        }
        _ => panic!("not v1"),
    }
}

#[test]
fn what_follows_a_torrent_is_ignored() {
    let data = format!("{}rest", dict(&[("info", v1_info())]));
    assert!(parse_torrent(data.as_bytes()).is_ok());
}

#[test]
fn a_v2_torrent_is_read_too() {
    let data = v2_torrent();
    let torrent = parse_torrent(data.as_bytes()).unwrap();
    assert!(torrent.is_v2() && !torrent.is_v1() && !torrent.is_hybrid());
    assert_eq!(torrent.total_size(), 20000);
    assert_eq!(torrent.file_count(), 2);
    assert_eq!(torrent.info_hash_v1(), None);
    match &torrent.meta {
        TorrentMeta::V2 { info, piece_layers } => {
            assert_eq!(info.kind.file_tree.file_paths(), paths(&["a", "b"]));
            assert_eq!(piece_layers.0.get(ROOT.as_bytes()).unwrap().as_ref(), b"layer");
            assert_eq!(Some(info.info_hash()), torrent.info_hash_v2());
        }
        _ => panic!("not v2"),
    }
    assert_eq!(InfoV2::META_VERSION, 2);
    assert_eq!(torrent.to_bencode().encode(), data.as_bytes());
}

#[test]
fn a_hybrid_torrent_lists_the_same_files_twice() {
    let files = list(&[
        file(&["a"], 20000, Some("x")),
        file(&[".pad", "12768"], 12768, Some("p")),
        file(&["b", "c"], 0, None),
    ]);
    let tree = dict(&[("a", leaf(20000, true)), ("b", dict(&[("c", leaf(0, false))]))]);
    let data = hybrid_torrent(files.clone(), tree.clone());
    let torrent = parse_torrent(data.as_bytes()).unwrap();
    assert!(torrent.is_hybrid() && torrent.is_v1() && torrent.is_v2());
    assert_eq!(torrent.file_count(), 2);
    match &torrent.meta {
        TorrentMeta::Hybrid { info, .. } => {
            assert_eq!(Some(info.info_hash_v1()), torrent.info_hash_v1());
            assert_eq!(Some(info.info_hash_v2()), torrent.info_hash_v2());
        }
        _ => panic!("not hybrid"),
    }
    let other = dict(&[("a", leaf(20000, true)), ("b", dict(&[("d", leaf(0, false))]))]);
    assert!(matches!(
        rejected(&hybrid_torrent(files, other)),
        Error::HybridMismatch
    ));
}

#[test]
fn the_announce_list_takes_the_place_of_announce() {
    let tiers = list(&[
        list(&[text("udp://two.example.com/")]),
        list(&[text("udp://three.example.com/"), text("udp://four.example.com/")]),
    ]);
    let data = dict(&[
        ("announce", text("udp://one.example.com/")),
        ("announce-list", tiers),
        ("info", v1_info()),
    ]);
    let torrent = parse_torrent(data.as_bytes()).unwrap();
    let tiers = torrent.tracker_tiers();
    assert_eq!(tiers.len(), 2);
    assert_eq!(tiers[0][0].as_str(), "udp://two.example.com/");
    assert_eq!(tiers[1].len(), 2);
    let written = torrent.to_bencode();
    let written = written.as_dict().unwrap();
    assert_eq!(
        written.get(b"announce").unwrap().as_str().unwrap(),
        "udp://two.example.com/"
    );
}

#[test]
fn a_torrent_without_trackers_has_none() {
    let data = dict(&[("info", v1_info())]);
    let torrent = parse_torrent(data.as_bytes()).unwrap();
    assert!(torrent.tracker_tiers().is_empty());
    assert_eq!(torrent.to_bencode().encode(), data.as_bytes());
}

#[test]
fn data_that_is_not_bencode_is_rejected() {
    assert!(matches!(parse_torrent(b"nonsense"), Err(TopError::Bencode(_))));
}

#[test]
fn elements_of_the_wrong_kind_are_rejected() {
    assert!(matches!(rejected("i1e"), Error::Bencode(_)));
    assert!(matches!(
        rejected(&dict(&[("comment", integer(1)), ("info", v1_info())])),
        Error::Bencode(_)
    ));
}

#[test]
fn missing_fields_are_named() {
    match rejected("de") {
        Error::MissingField(name) => assert_eq!(name, "info"),
        _ => panic!("another error"),
    }
    let info = dict(&[("length", integer(5)), ("pieces", text(HASH))]);
    match rejected(&dict(&[("info", info)])) {
        Error::MissingField(name) => assert_eq!(name, "name"),
        _ => panic!("another error"),
    }
}

#[test]
fn illegal_values_are_named() {
    let info = dict(&[
        ("length", integer(-5)),
        ("name", text("a.txt")),
        ("piece length", integer(16384)),
        ("pieces", text(HASH)),
    ]);
    assert!(matches!(
        rejected(&dict(&[("info", info)])),
        Error::IllegalFieldValue("length")
    ));
    let info = dict(&[
        ("length", integer(5)),
        ("name", text("a.txt")),
        ("piece length", integer(0)),
        ("pieces", text(HASH)),
    ]);
    assert!(matches!(
        rejected(&dict(&[("info", info)])),
        Error::IllegalFieldValue("piece length")
    ));
}

#[test]
fn malformed_urls_are_rejected() {
    let data = dict(&[("announce", text("not a url")), ("info", v1_info())]);
    assert!(matches!(rejected(&data), Error::InvalidUrl(_)));
}

#[test]
fn the_length_of_pieces_must_be_a_multiple() {
    let info = dict(&[
        ("length", integer(5)),
        ("name", text("a.txt")),
        ("piece length", integer(16384)),
        ("pieces", text("short")),
    ]);
    assert!(matches!(
        rejected(&dict(&[("info", info)])),
        Error::InvalidPiecesLength
    ));
}

#[test]
fn incomplete_versions_are_rejected() {
    let info = dict(&[
        ("length", integer(5)),
        ("name", text("a.txt")),
        ("piece length", integer(16384)),
    ]);
    assert!(matches!(rejected(&dict(&[("info", info)])), Error::MalformedV1));
    let info = dict(&[
        ("meta version", integer(2)),
        ("name", text("a.txt")),
        ("piece length", integer(16384)),
    ]);
    assert!(matches!(rejected(&dict(&[("info", info)])), Error::MalformedV2));
    let info = dict(&[("name", text("a.txt")), ("piece length", integer(16384))]);
    assert!(matches!(
        rejected(&dict(&[("info", info)])),
        Error::UnrecognizedFormat
    ));
}

#[test]
fn v2_restricts_the_piece_length_of_what_is_read() {
    let info = dict(&[
        ("file tree", dict(&[("a", leaf(0, false))])),
        ("meta version", integer(2)),
        ("name", text("dir")),
        ("piece length", integer(1000)),
    ]);
    match rejected(&dict(&[("info", info), ("piece layers", layers())])) {
        Error::IllegalPieceLengthV2(n) => assert_eq!(n.get(), 1000),
        _ => panic!("another error"),
    }
}

#[test]
fn a_file_has_a_root_exactly_if_it_is_not_empty() {
    for node in [leaf(5, false), leaf(0, true)] {
        let tree = dict(&[("a", node)]);
        let data = dict(&[("info", v2_info(tree)), ("piece layers", layers())]);
        assert!(matches!(rejected(&data), Error::InvalidFileTree));
    }
}

#[test]
fn names_in_a_tree_must_be_utf8() {
    let mut data = b"d4:infod9:file treed1:".to_vec();
    data.push(0xff);
    data.extend(b"d0:d6:lengthi0eeee12:meta versioni2e4:name1:x12:piece lengthi16384ee12:piece layersdee");
    assert!(matches!(
        parse_torrent(&data),
        Err(TopError::Torrent(Error::Utf8(_)))
    ));
}

#[test]
fn setters_change_the_info_hash() {
    let data = dict(&[("info", v1_info())]);
    let torrent = parse_torrent(data.as_bytes()).unwrap();
    let mut changed = torrent.clone();
    assert_eq!(changed, torrent);
    changed.set_name("b.txt");
    assert_eq!(changed.name(), "b.txt");
    assert_ne!(changed.info_hash_v1(), torrent.info_hash_v1());
    let mut changed = torrent.clone();
    changed.set_private(true);
    assert!(changed.private());
    assert_ne!(changed.info_hash_v1(), torrent.info_hash_v1());
    let mut changed = torrent.clone();
    changed.set_source("somewhere");
    assert_eq!(changed.source().unwrap(), "somewhere");
    assert_ne!(changed.info_hash_v1(), torrent.info_hash_v1());
}

#[test]
fn an_owned_torrent_says_the_same() {
    let owned: TorrentBuf = {
        let data = v2_torrent();
        parse_torrent(data.as_bytes()).unwrap().into_owned()
    };
    assert_eq!(owned.to_bencode().encode(), v2_torrent().as_bytes());
}

#[test]
fn conversions_go_both_ways() {
    let data = v2_torrent();
    let torrent = Torrent::try_from(Parser::new(data.as_bytes()).parse().unwrap()).unwrap();
    assert_eq!(Bencode::from(&torrent).encode(), data.as_bytes());

    let data = file(&["a", "b"], 3, Some("xh"));
    let info = FileInfo::try_from(Parser::new(data.as_bytes()).parse().unwrap()).unwrap();
    assert_eq!(info.to_path_buf(), FilePath::from_bytes(b"a/b"));
    assert_eq!(Bencode::from(&info).encode(), data.as_bytes());

    let data = dict(&[("a", leaf(20000, true)), ("b", leaf(0, false))]);
    let tree = FileTree::try_from(Parser::new(data.as_bytes()).parse().unwrap()).unwrap();
    assert_eq!(tree.total_size(), 20000);
    assert_eq!(Bencode::from(&tree).encode(), data.as_bytes());

    let data = dict(&[("length", integer(0))]);
    let leaf = FileLeaf::try_from(Parser::new(data.as_bytes()).parse().unwrap()).unwrap();
    assert_eq!(leaf.length, 0);
    assert_eq!(Bencode::from(&leaf).encode(), data.as_bytes());
}

#[test]
fn a_file_with_a_name_is_written_as_a_directory() {
    let mut tree = FileTree::default();
    tree.0.insert(
        "a".into(),
        FileTreeNode::File(FileLeaf { length: 0, pieces_root: None }),
    );
    assert_eq!(tree.to_bencode().encode(), b"d1:ad0:d6:lengthi0eeee".to_vec());
    let bytes = tree.to_bencode().encode();
    let read = FileTree::try_from(Parser::new(&bytes).parse().unwrap()).unwrap();
    assert_eq!(read.file_paths(), tree.file_paths());
}

#[test]
fn attributes_are_letters() {
    let mut flags = FileInfoAttrFlags::empty();
    flags.insert(FileInfoAttrFlags { symlink: true, ..FileInfoAttrFlags::empty() });
    flags.insert(FileInfoAttrFlags { padding: true, ..FileInfoAttrFlags::empty() });
    assert!(!flags.contains(FileInfoAttrFlags { hidden: true, ..FileInfoAttrFlags::empty() }));
    let attr = FileInfoAttr::new(flags);
    assert_eq!(attr.as_bytes(), b"lp");
    let read = FileInfoAttr::try_from(Bencode::Bytes(b"pl")).unwrap();
    assert_eq!(read.flags(), flags);
    assert_eq!(read.as_bytes(), b"lp");
    assert!(matches!(
        FileInfoAttr::try_from(Bencode::Bytes(b"z")),
        Err(Error::IllegalFieldValue("attr"))
    ));
}

#[test]
fn shuffling_keeps_the_trackers() {
    let urls: Vec<Url> = (0..20)
        .map(|i| Url::parse(&format!("udp://tracker{i}.example.com/")).unwrap())
        .collect();
    let mut tier = TrackerTier(urls.clone());
    let mut moved = false;
    for _ in 0..20 {
        tier.shuffle();
        moved = moved || tier.0 != urls;
    }
    assert!(moved);
    let mut before: Vec<&str> = urls.iter().map(|u| u.as_str()).collect();
    let mut after: Vec<&str> = tier.iter().map(|u| u.as_str()).collect();
    before.sort_unstable();
    after.sort_unstable();
    assert_eq!(before, after);
    assert!(!tier.is_empty());
    assert!(TrackerTier::default().is_empty());
}

#[test]
fn urls_are_normalized() {
    let url = Url::parse("HTTPS://Example.COM:443/a/../b").unwrap();
    assert_eq!(url.as_str(), "https://example.com/b");
    assert!(Url::parse("relative").is_err());
}

#[test]
fn a_date_before_the_epoch_is_illegal() {
    let data = dict(&[("creation date", integer(-1)), ("info", v1_info())]);
    assert!(matches!(
        rejected(&data),
        Error::IllegalFieldValue("creation date")
    ));
}

#[test]
fn every_entry_of_a_list_of_files_counts() {
    let files = list(&[
        file(&["x"], 3, None),
        file(&[".pad", "7"], 7, Some("p")),
        file(&["y"], 4, None),
    ]);
    let info = dict(&[
        ("files", files),
        ("name", text("dir")),
        ("piece length", integer(10)),
        ("pieces", text(HASH)),
    ]);
    let data = dict(&[("info", info)]);
    let torrent = parse_torrent(data.as_bytes()).unwrap();
    assert_eq!(torrent.file_count(), 3);
    assert_eq!(torrent.total_size(), 14);
    match &torrent.meta {
        TorrentMeta::V1 { info } => match &info.kind.file_mode {
            FileMode::Multi { files } => assert_eq!(files.len(), 3),
            _ => panic!("not a list"),
        },
        _ => panic!("not v1"),
    }
    assert_eq!(hex(&torrent.info_hash_v1().unwrap()).len(), 40);
}

#[test]
fn fields_that_are_absent_are_not_written() {
    let data = dict(&[("info", v1_info())]);
    let mut torrent = parse_torrent(data.as_bytes()).unwrap();
    for key in ["announce", "announce-list", "comment", "created by", "creation date"] {
        assert!(torrent.to_bencode().as_dict().unwrap().get(key.as_bytes()).is_none());
    }
    torrent.comment = Some("a comment".into());
    torrent.creation_date = Some(1);
    let written = torrent.to_bencode();
    let written = written.as_dict().unwrap();
    assert!(written.get(b"comment").is_some());
    assert!(written.get(b"creation date").is_some());
    assert!(written.get(b"created by").is_none());
    assert!(written.get(b"piece layers").is_none());
    assert!(written.get(b"info").is_some());
}

#[test]
fn a_torrent_that_was_parsed_survives() {
    for data in [
        dict(&[("info", v1_info())]),
        v2_torrent(),
        hybrid_torrent(
            list(&[file(&["a"], 1, None)]),
            dict(&[("a", leaf(1, true))]),
        ),
    ] {
        let torrent = parse_torrent(data.as_bytes()).unwrap();
        let bytes = torrent.to_bencode().encode();
        assert_eq!(parse_torrent(&bytes).unwrap(), torrent);
    }
}

#[test]
fn a_date_that_does_not_fit_becomes_zero() {
    let data = dict(&[("info", v1_info())]);
    let mut torrent = parse_torrent(data.as_bytes()).unwrap();
    torrent.creation_date = Some(u64::MAX);
    let bytes = torrent.to_bencode().encode();
    assert_eq!(parse_torrent(&bytes).unwrap().creation_date, Some(0));
}

#[test]
fn a_tree_that_is_nested_too_deeply_is_not_read_back() {
    let mut tree = dict(&[("a", leaf(1, true))]);
    for _ in 0..70 {
        tree = dict(&[("d", tree)]);
    }
    let data = dict(&[("info", v2_info(tree)), ("piece layers", layers())]);
    let bencode = Parser::with_max_depth(data.as_bytes(), 200).parse().unwrap();
    let torrent = Torrent::try_from(bencode).unwrap();
    assert_eq!(torrent.file_count(), 1);
    assert!(parse_torrent(&torrent.to_bencode().encode()).is_err());
}

#[test]
fn announce_is_ignored_beside_an_announce_list() {
    let tiers = list(&[list(&[text("udp://two.example.com/")])]);
    for announce in [integer(1), text("no url")] {
        let data = dict(&[
            ("announce", announce.clone()),
            ("announce-list", tiers.clone()),
            ("info", v1_info()),
        ]);
        let torrent = parse_torrent(data.as_bytes()).unwrap();
        assert_eq!(
            torrent.tracker_tiers()[0][0].as_str(),
            "udp://two.example.com/"
        );
        let data = dict(&[
            ("announce", announce),
            ("announce-list", list(&[])),
            ("info", v1_info()),
        ]);
        let torrent = parse_torrent(data.as_bytes()).unwrap();
        assert_eq!(torrent.tracker_tiers, Some(vec![]));
    }
    let data = dict(&[("announce", integer(1)), ("info", v1_info())]);
    assert!(matches!(rejected(&data), Error::Bencode(_)));
    let data = dict(&[
        ("announce", text("udp://one.example.com/")),
        ("announce-list", integer(1)),
        ("info", v1_info()),
    ]);
    assert!(matches!(rejected(&data), Error::Bencode(_)));
}

#[test]
fn what_is_parsed_borrows() {
    let data = dict(&[("comment", text("a comment")), ("info", v1_info())]);
    let torrent = parse_torrent(data.as_bytes()).unwrap();
    assert!(matches!(torrent.comment, Some(Cow::Borrowed("a comment"))));
    assert!(matches!(torrent.name(), Cow::Borrowed(_)));
    match &torrent.meta {
        TorrentMeta::V1 { info } => assert!(matches!(info.kind.pieces, Cow::Borrowed(_))),
        _ => panic!("not v1"),
    }
    let data = v2_torrent();
    let torrent = parse_torrent(data.as_bytes()).unwrap();
    match &torrent.meta {
        TorrentMeta::V2 { info, piece_layers } => {
            assert!(matches!(
                info.kind.file_tree.0.key_at(0),
                Cow::Borrowed("a")
            ));
            assert!(matches!(piece_layers.0.value_at(0), Cow::Borrowed(_)));
        }
        _ => panic!("not v2"),
    }
}

#[test]
fn urls_are_written_in_normal_form() {
    let data = dict(&[
        ("announce", text("HTTP://Example.COM:80/a b")),
        ("info", v1_info()),
        ("url-list", list(&[text("https://mirror.example.com")])),
    ]);
    let torrent = parse_torrent(data.as_bytes()).unwrap();
    let bytes = torrent.to_bencode().encode();
    let read = parse_torrent(&bytes).unwrap();
    assert_eq!(read, torrent);
    assert_eq!(
        read.tracker_tiers()[0][0].as_str(),
        "http://example.com/a%20b"
    );
    assert_eq!(
        read.web_seeds.unwrap()[0].as_str(),
        "https://mirror.example.com/"
    );
}

#[test]
fn the_paths_in_a_tree_rise() {
    let below = dict(&[
        ("", dict(&[("length", integer(0))])),
        ("b", leaf(0, false)),
    ]);
    let tree = dict(&[("a", below), ("a!", leaf(0, false)), ("c", leaf(0, false))]);
    let tree = FileTree::try_from(Parser::new(tree.as_bytes()).parse().unwrap()).unwrap();
    assert_eq!(tree.file_paths(), paths(&["a", "a/b", "a!", "c"]));
}

#[test]
fn leaves_and_file_entries_read_back() {
    let data = dict(&[("length", integer(3)), ("pieces root", text(ROOT))]);
    let leaf = FileLeaf::try_from(Parser::new(data.as_bytes()).parse().unwrap()).unwrap();
    assert_eq!(Bencode::from(&leaf).encode(), data.as_bytes());
    assert_eq!(FileLeaf::try_from(Bencode::from(&leaf)).unwrap(), leaf);
    let data = file(&["a", "b"], 3, Some("xh"));
    let info = FileInfo::try_from(Parser::new(data.as_bytes()).parse().unwrap()).unwrap();
    assert_eq!(Bencode::from(&info).encode(), data.as_bytes());
    assert_eq!(FileInfo::try_from(Bencode::from(&info)).unwrap(), info);
}
