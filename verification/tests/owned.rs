//! Owned torrents, and collecting what a torrent is made of.
use bitors::bencode::Parser;
use bitors::num::NonZeroU64;
use bitors::path::FilePath;
use bitors::torrent::creator::{self, TorrentCreator};
use bitors::torrent::owned::{OwnedFileInfo, OwnedFileMode, OwnedInfo, OwnedTorrent};
use bitors::torrent::{Error, FileMode, TrackerTier};
use bitors::{parse_torrent, Url};

const TORRENT: &[u8] = b"d8:announce22:udp://one.example.com/7:comment2:hi4:infod5:filesl\
    d4:attr1:x6:lengthi3e4:pathl1:a1:beee4:name3:dir12:piece lengthi16384e\
    6:pieces20:aaaaaaaaaaaaaaaaaaaa7:privatei1eee";

fn url(text: &str) -> Url {
    Url::parse(text).unwrap()
}

#[test]
fn an_owned_torrent_borrows_as_the_same() {
    let bencode = Parser::new(TORRENT).parse().unwrap();
    let owned = OwnedTorrent::try_from(&bencode).unwrap();
    assert_eq!(owned.comment.as_deref(), Some("hi"));
    assert!(owned.info.private);
    assert_eq!(owned.announce, Some(url("udp://one.example.com/")));
    assert_eq!(owned.trackers(), vec![TrackerTier(vec![url("udp://one.example.com/")])]);
    let torrent = parse_torrent(TORRENT).unwrap();
    let borrowed = owned.as_borrowed();
    assert_eq!(borrowed.name(), torrent.name());
    assert_eq!(borrowed.tracker_tiers, torrent.tracker_tiers);
    assert_eq!(borrowed.total_size(), 3);
    let again = OwnedTorrent::try_from(torrent).unwrap();
    assert_eq!(again.as_borrowed(), owned.as_borrowed());
}

#[test]
fn only_torrents_with_v1_fields_can_be_owned() {
    let data = b"d4:infod9:file treed1:ad0:d6:lengthi0eeee12:meta versioni2e4:name1:x\
                 12:piece lengthi16384ee12:piece layersdee";
    assert!(matches!(
        OwnedTorrent::try_from(&Parser::new(data).parse().unwrap()),
        Err(Error::MalformedV1)
    ));
    assert!(matches!(
        OwnedTorrent::try_from(parse_torrent(data).unwrap()),
        Err(Error::MalformedV1)
    ));
}

#[test]
fn trackers_come_from_the_list_if_there_is_one() {
    let info = || OwnedInfo {
        name: "x".to_string(),
        piece_length: NonZeroU64::new(1).unwrap(),
        pieces: vec![[7; 20]],
        private: false,
        file_mode: OwnedFileMode::Single { length: 1, md5sum: Some("m".to_string()) },
    };
    let torrent = |announce: Option<Url>, announce_list: Option<Vec<TrackerTier>>| OwnedTorrent {
        info: info(),
        announce,
        announce_list,
        creation_date: None,
        comment: None,
        created_by: None,
        encoding: None,
    };
    let one = url("udp://one.example.com/");
    let tiers = vec![TrackerTier(vec![url("udp://two.example.com/")])];
    assert_eq!(torrent(Some(one.clone()), Some(tiers.clone())).trackers(), tiers);
    assert_eq!(torrent(Some(one.clone()), None).trackers(), vec![TrackerTier(vec![one])]);
    assert!(torrent(None, None).trackers().is_empty());
    assert_eq!(torrent(None, None).as_borrowed().tracker_tiers, None);
    let borrowed = info();
    let borrowed = borrowed.as_borrowed();
    assert_eq!(borrowed.kind.pieces.as_ref(), &[[7; 20]]);
    let owned = OwnedInfo::from(borrowed);
    assert_eq!(owned.name, "x");
    match owned.file_mode {
        OwnedFileMode::Single { length, md5sum } => {
            assert_eq!(length, 1);
            assert_eq!(md5sum.as_deref(), Some("m"));
        }
        _ => panic!("not a single file"),
    }
}

#[test]
fn owned_files_lose_their_attributes() {
    let data = b"d4:attr1:x6:lengthi3e4:pathl1:a1:bee";
    let bencode = Parser::new(data).parse().unwrap();
    let owned = OwnedFileInfo::try_from(&bencode).unwrap();
    assert_eq!(owned.path, vec!["a", "b"]);
    assert_eq!(owned.as_borrowed().attr, None);
    assert_eq!(owned.as_borrowed().length, 3);
    let mode = FileMode::Multi { files: vec![owned.as_borrowed()] };
    let mode = OwnedFileMode::from(mode);
    assert!(mode.as_borrowed().is_multi());
    let info = b"d6:lengthi3e4:name1:a12:piece lengthi1e6:pieces0:e";
    let owned = OwnedInfo::try_from(&Parser::new(info).parse().unwrap()).unwrap();
    assert!(owned.pieces.is_empty());
    assert!(matches!(
        OwnedInfo::try_from(&Parser::new(b"de").parse().unwrap()),
        Err(Error::MissingField(_))
    ));
}

#[test]
fn a_creator_needs_files() {
    let path = |s: &str| FilePath::from_bytes(s.as_bytes());
    let creator = TorrentCreator::new()
        .name("n")
        .piece_length(5)
        .private()
        .creation_date(1)
        .comment("c")
        .next_announce_tier()
        .add_announce(url("udp://one.example.com/"))
        .add_announces(vec![url("udp://two.example.com/")])
        .next_announce_tier();
    assert!(matches!(creator.add_files(vec![]), Err(creator::Error::NoFiles)));
    let creator = TorrentCreator::new().add_files(vec![path("a")]).unwrap();
    let creator = creator.add_file(path("b")).add_files(vec![path("c"), path("d")]);
    let text = format!("{creator:?}");
    let one = format!("{:?}", TorrentCreator::new().add_file(path("a")).add_files(vec![
        path("b"),
        path("c"),
        path("d"),
    ]));
    assert_eq!(text, one);
}

#[test]
fn the_first_tracker_is_kept_beside_the_list() {
    let data = b"d13:announce-listll22:udp://two.example.com/el24:udp://three.example.com/ee\
                 4:infod6:lengthi3e4:name1:x12:piece lengthi1e6:pieces0:ee";
    let torrent = parse_torrent(data).unwrap();
    let two = url("udp://two.example.com/");
    let owned = OwnedTorrent::try_from(&Parser::new(data).parse().unwrap()).unwrap();
    assert_eq!(owned.announce, Some(two.clone()));
    assert_eq!(owned.announce_list.unwrap().len(), 2);
    assert_eq!(OwnedTorrent::try_from(torrent).unwrap().announce, Some(two));
}
