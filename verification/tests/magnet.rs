//! Magnet links.
use bitors::magnet::{InfoHashes, MagnetLink};
use bitors::{parse_torrent, Url};

#[test]
fn a_link_with_nothing_but_a_hash() {
    let link = MagnetLink::new(InfoHashes::V1([0xab; 20]));
    assert_eq!(
        link.to_uri(),
        "magnet:?xt=urn:btih:abababababababababababababababababababab"
    );
}

#[test]
fn everything_that_is_known_is_written() {
    let mut v1 = [0u8; 20];
    for (i, b) in v1.iter_mut().enumerate() {
        *b = i as u8;
    }
    let link = MagnetLink {
        info_hashes: InfoHashes::Hybrid { v1, v2: [0x0f; 32] },
        name: Some("My Torrent/é".to_string()),
        trackers: vec![
            Url::parse("udp://tracker.example.com:6969/announce").unwrap(),
            Url::parse("https://other.example.com/?a=b").unwrap(),
        ],
        size: Some(1_073_741_824),
        v1_base32: false,
    };
    assert_eq!(
        link.to_uri(),
        "magnet:?xt=urn:btih:000102030405060708090a0b0c0d0e0f10111213\
         &xt=urn:btmh:12200f0f0f0f0f0f0f0f0f0f0f0f0f0f0f0f0f0f0f0f0f0f0f0f0f0f0f0f0f0f0f0f\
         &dn=My%20Torrent%2F%C3%A9&xl=1073741824\
         &tr=udp%3A%2F%2Ftracker.example.com%3A6969%2Fannounce\
         &tr=https%3A%2F%2Fother.example.com%2F%3Fa%3Db"
    );
    let base32 = link.clone().v1_base32().to_uri();
    assert!(base32.starts_with("magnet:?xt=urn:btih:AAAQEAYEAUDAOCAJBIFQYDIOB4IBCEQT&xt="));
    assert_ne!(link.clone().v1_base32(), link);
}

#[test]
fn a_v2_hash_is_never_in_base_32() {
    let link = MagnetLink::new(InfoHashes::V2([0x11; 32]));
    assert_eq!(link.to_uri(), link.clone().v1_base32().to_uri());
    assert!(link.to_uri().starts_with("magnet:?xt=urn:btmh:12201111"));
    assert_eq!(link.info_hashes.v1(), None);
    assert_eq!(link.info_hashes.v2(), Some(&[0x11; 32]));
}

#[test]
fn the_link_of_a_torrent() {
    let data = b"d8:announce22:udp://one.example.com/4:infod6:lengthi5e4:name5:a.txt\
                 12:piece lengthi16384e6:pieces20:aaaaaaaaaaaaaaaaaaaaee";
    let torrent = parse_torrent(data).unwrap();
    let link = torrent.magnet_link();
    assert_eq!(link.info_hashes.v1(), torrent.info_hash_v1().as_ref());
    assert_eq!(link.name.as_deref(), Some("a.txt"));
    assert_eq!(link.size, Some(5));
    assert_eq!(link.trackers.len(), 1);
    assert!(!link.v1_base32);
    assert_eq!(MagnetLink::from(&torrent), link);
    assert!(link.to_uri().ends_with("&dn=a.txt&xl=5&tr=udp%3A%2F%2Fone.example.com%2F"));
}
