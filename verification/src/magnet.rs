//! Magnet links.
use std::borrow::Cow;

use vstd::prelude::*;
use vstd::utf8::{
    encode_utf8, encode_utf8_decode_utf8, is_ascii_chars, is_ascii_chars_encode_utf8,
};

use crate::bencode::laws::lemma_ascii_is_utf8;
use crate::bencode::model::encode;
use crate::decimal::{decimal, is_digit, lemma_decimal_shape, push_decimal};
use crate::digest::{sha1_of, sha256_of};
use crate::sorting::views;
use crate::text::from_utf8;
use crate::torrent::copy::copy_urls;
use crate::torrent::model::TorrentModel;
use crate::torrent::query::{meta_name, meta_size};
use crate::torrent::types::{Torrent, TrackerTier};
use crate::torrent::write::info_value;
use crate::web::Url;

pub mod laws;

verus! {

/// ASCII bytes as text.
pub open spec fn ascii_text(s: Seq<u8>) -> Seq<char> {
    Seq::new(s.len(), |i: int| s[i] as char)
}

/// The lower case hexadecimal digit for `d`.
pub open spec fn hex_digit(d: int) -> char {
    if d < 10 {
        (48 + d) as char
    } else {
        (87 + d) as char
    }
}

/// The lower case hexadecimal form of some bytes: two digits for each of them.
pub open spec fn hex_text(s: Seq<u8>) -> Seq<char> {
    Seq::new(
        2 * s.len(),
        |i: int|
            if i % 2 == 0 {
                hex_digit(s[i / 2] as int / 16)
            } else {
                hex_digit(s[i / 2] as int % 16)
            },
    )
}

/// The base-32 digit for `d`: the capital letters, then `2` to `7`.
pub open spec fn base32_digit(d: int) -> char {
    if d < 26 {
        (65 + d) as char
    } else {
        (24 + d) as char
    }
}

/// The number that five bytes from position `i` on stand for, the first one counting most.
pub open spec fn five_bytes(s: Seq<u8>, i: int) -> int {
    s[i] * 0x1_0000_0000 + s[i + 1] * 0x100_0000 + s[i + 2] * 0x1_0000 + s[i + 3] * 0x100 + s[i + 4]
}

/// The base-32 form of some bytes, five of which make eight digits.
pub open spec fn base32_text(s: Seq<u8>) -> Seq<char> {
    Seq::new(
        (s.len() / 5) * 8,
        |i: int|
            base32_digit(
                (five_bytes(s, i / 8 * 5) / vstd::arithmetic::power::pow(32, (7 - i % 8) as nat))
                    % 32,
            ),
    )
}

/// The upper case hexadecimal digit for `d`.
pub open spec fn upper_hex_digit(d: int) -> char {
    if d < 10 {
        (48 + d) as char
    } else {
        (55 + d) as char
    }
}

/// A byte with a percent sign before its two hexadecimal digits.
pub open spec fn percent_text(b: u8) -> Seq<char> {
    seq!['%', upper_hex_digit(b as int / 16), upper_hex_digit(b as int % 16)]
}

/// A byte that stands for itself in a URI: a letter, a digit, or one of `-`, `.`, `_` and `~`.
pub open spec fn unreserved(b: u8) -> bool {
    ||| 48 <= b <= 57
    ||| 65 <= b <= 90
    ||| 97 <= b <= 122
    ||| b == 45
    ||| b == 46
    ||| b == 95
    ||| b == 126
}

/// Bytes as they stand in a URI.
pub open spec fn uri_text(s: Seq<u8>) -> Seq<char>
    decreases s.len(),
{
    if s.len() == 0 {
        Seq::empty()
    } else {
        uri_text(s.drop_last()) + if unreserved(s.last()) {
            seq![s.last() as char]
        } else {
            percent_text(s.last())
        }
    }
}

/// `data_encoding::HEXLOWER.encode`: two lower case hexadecimal digits for each byte. It is kept to
/// hashes, far below the lengths whose encoded form cannot be allocated.
#[verifier::external_body]
fn hex(data: &[u8]) -> (r: String)
    requires
        data@.len() <= 32,
    ensures
        r@ == hex_text(data@),
{
    data_encoding::HEXLOWER.encode(data)
}

/// `data_encoding::BASE32.encode` on bytes that need no padding: eight digits for each five bytes.
/// It is kept to hashes, far below the lengths whose encoded form cannot be allocated.
#[verifier::external_body]
fn base32(data: &[u8]) -> (r: String)
    requires
        data@.len() <= 20,
        data@.len() % 5 == 0,
    ensures
        r@ == base32_text(data@),
{
    data_encoding::BASE32.encode(data)
}

/// `percent_encoding::percent_encode_byte`: a percent sign and two upper case hexadecimal digits.
#[verifier::external_body]
fn percent_encode_byte(b: u8) -> (r: &'static str)
    ensures
        r@ == percent_text(b),
{
    percent_encoding::percent_encode_byte(b)
}

/// ASCII bytes as text.
fn ascii_string(s: &[u8]) -> (r: String)
    requires
        forall|i: int| 0 <= i < s@.len() ==> #[trigger] s@[i] <= 0x7f,
    ensures
        r@ == ascii_text(s@),
{
    proof {
        lemma_ascii_is_utf8(s@);
        let t = ascii_text(s@);
        assert(is_ascii_chars(t)) by {
            assert forall|i: int| 0 <= i < t.len() implies '\0' <= #[trigger] t[i] <= '\u{7f}' by {
                assert(s@[i] <= 0x7f);
            }
        }
        is_ascii_chars_encode_utf8(t);
        assert(encode_utf8(t) =~= s@) by {
            assert forall|i: int| 0 <= i < s@.len() implies encode_utf8(t)[i] == s@[i] by {
                assert(s@[i] <= 0x7f);
                assert(t[i] == s@[i] as char);
            }
        }
        encode_utf8_decode_utf8(t);
    }
    match from_utf8(s) {
        Ok(text) => {
            proof {
                encode_utf8_decode_utf8(text@);
            }
            text.to_owned()
        },
        Err(_) => String::new(),
    }
}

/// Appends the decimal numeral of `n`.
fn append_number(uri: &mut String, n: u64)
    ensures
        final(uri)@ == old(uri)@ + ascii_text(decimal(n as nat)),
{
    let mut digits: Vec<u8> = Vec::new();
    push_decimal(&mut digits, n);
    proof {
        lemma_decimal_shape(n as nat);
        assert(digits@ =~= decimal(n as nat));
        assert forall|i: int| 0 <= i < digits@.len() implies #[trigger] digits@[i] <= 0x7f by {
            assert(is_digit(decimal(n as nat)[i]));
        }
    }
    let text: String = ascii_string(&digits);
    uri.append(text.as_str());
}

/// Appends bytes as they stand in a URI.
fn append_escaped(uri: &mut String, bytes: &[u8])
    ensures
        final(uri)@ == old(uri)@ + uri_text(bytes@),
{
    let ghost before = uri@;
    let mut i: usize = 0;
    assert(bytes@.take(0) =~= Seq::<u8>::empty());
    assert(uri@ =~= before + uri_text(bytes@.take(0)));
    while i < bytes.len()
        invariant
            i <= bytes@.len(),
            uri@ == before + uri_text(bytes@.take(i as int)),
        decreases bytes@.len() - i,
    {
        let b: u8 = bytes[i];
        let ghost so_far = uri@;
        let plain: bool = (48 <= b && b <= 57) || (65 <= b && b <= 90) || (97 <= b && b <= 122)
            || b == 45 || b == 46 || b == 95 || b == 126;
        if plain {
            let mut single: Vec<u8> = Vec::new();
            single.push(b);
            let text: String = ascii_string(&single);
            uri.append(text.as_str());
            assert(text@ =~= seq![b as char]);
        } else {
            uri.append(percent_encode_byte(b));
        }
        proof {
            let t = bytes@.take(i + 1);
            assert(t.drop_last() =~= bytes@.take(i as int));
            assert(t.last() == b);
            assert(uri@ =~= before + uri_text(t));
        }
        i = i + 1;
    }
    assert(bytes@.take(i as int) =~= bytes@);
}

/// The info hashes of a torrent.
#[derive(Debug, PartialEq, Eq, Clone, Copy)]
pub enum InfoHashes {
    /// That of a v1-only torrent.
    V1([u8; 20]),
    /// That of a v2-only torrent.
    V2([u8; 32]),
    /// Those of a hybrid torrent.
    Hybrid {
        v1: [u8; 20],
        v2: [u8; 32],
    },
}

/// The model of info hashes: the v1 hash and the v2 hash.
pub ghost struct HashesModel {
    pub v1: Option<Seq<u8>>,
    pub v2: Option<Seq<u8>>,
}

impl View for InfoHashes {
    type V = HashesModel;

    open spec fn view(&self) -> HashesModel {
        match self {
            InfoHashes::V1(v1) => HashesModel { v1: Some(v1@), v2: None },
            InfoHashes::V2(v2) => HashesModel { v1: None, v2: Some(v2@) },
            InfoHashes::Hybrid { v1, v2 } => HashesModel { v1: Some(v1@), v2: Some(v2@) },
        }
    }
}

impl InfoHashes {
    /// The v1 info hash, if there is one.
    pub fn v1(&self) -> (r: Option<&[u8; 20]>)
        ensures
            match r {
                Some(h) => self@.v1 == Some(h@),
                None => self@.v1 is None,
            },
    {
        match self {
            InfoHashes::V1(v1) => Some(v1),
            InfoHashes::Hybrid { v1, .. } => Some(v1),
            InfoHashes::V2(_) => None,
        }
    }

    /// The v2 info hash, if there is one.
    pub fn v2(&self) -> (r: Option<&[u8; 32]>)
        ensures
            match r {
                Some(h) => self@.v2 == Some(h@),
                None => self@.v2 is None,
            },
    {
        match self {
            InfoHashes::V2(v2) => Some(v2),
            InfoHashes::Hybrid { v2, .. } => Some(v2),
            InfoHashes::V1(_) => None,
        }
    }
}

/// A magnet link.
#[derive(Debug, PartialEq, Eq)]
pub struct MagnetLink {
    /// The info hashes.
    pub info_hashes: InfoHashes,
    /// The name of the torrent.
    pub name: Option<String>,
    /// The trackers of all tiers.
    pub trackers: Vec<Url>,
    /// The total size of the torrent.
    pub size: Option<u64>,
    /// Whether the v1 info hash is written in base 32 instead of hexadecimal. The v2 info hash
    /// never is.
    pub v1_base32: bool,
}

/// The model of a magnet link.
#[verifier::ext_equal]
pub ghost struct MagnetModel {
    pub info_hashes: HashesModel,
    pub name: Option<Seq<char>>,
    pub trackers: Seq<Seq<char>>,
    pub size: Option<u64>,
    pub v1_base32: bool,
}

impl View for MagnetLink {
    type V = MagnetModel;

    open spec fn view(&self) -> MagnetModel {
        MagnetModel {
            info_hashes: self.info_hashes@,
            name: match self.name {
                Some(s) => Some(s@),
                None => None,
            },
            trackers: views(self.trackers@),
            size: self.size,
            v1_base32: self.v1_base32,
        }
    }
}

impl Clone for MagnetLink {
    fn clone(&self) -> (r: Self)
        ensures
            r@ == self@,
    {
        MagnetLink {
            info_hashes: self.info_hashes,
            name: match &self.name {
                Some(s) => Some(s.clone()),
                None => None,
            },
            trackers: copy_urls(&self.trackers),
            size: self.size,
            v1_base32: self.v1_base32,
        }
    }
}

/// The part of a magnet URI for the v1 info hash.
pub open spec fn v1_part(m: MagnetModel) -> Seq<char> {
    match m.info_hashes.v1 {
        Some(h) => "?xt=urn:btih:"@ + if m.v1_base32 {
            base32_text(h)
        } else {
            hex_text(h)
        },
        None => Seq::empty(),
    }
}

/// The part of a magnet URI for the v2 info hash.
pub open spec fn v2_part(m: MagnetModel) -> Seq<char> {
    match m.info_hashes.v2 {
        Some(h) => if m.info_hashes.v1 is Some {
            "&xt=urn:btmh:1220"@ + hex_text(h)
        } else {
            "?xt=urn:btmh:1220"@ + hex_text(h)
        },
        None => Seq::empty(),
    }
}

/// The part of a magnet URI for the name.
pub open spec fn name_part(m: MagnetModel) -> Seq<char> {
    match m.name {
        Some(s) => "&dn="@ + uri_text(encode_utf8(s)),
        None => Seq::empty(),
    }
}

/// The part of a magnet URI for the size.
pub open spec fn size_part(m: MagnetModel) -> Seq<char> {
    match m.size {
        Some(n) => "&xl="@ + ascii_text(decimal(n as nat)),
        None => Seq::empty(),
    }
}

/// The part of a magnet URI for some trackers.
pub open spec fn trackers_part(trackers: Seq<Seq<char>>) -> Seq<char>
    decreases trackers.len(),
{
    if trackers.len() == 0 {
        Seq::empty()
    } else {
        trackers_part(trackers.drop_last()) + "&tr="@ + uri_text(encode_utf8(trackers.last()))
    }
}

/// A magnet URI: the v1 info hash, the v2 info hash, the name, the size and the trackers, in this
/// order.
pub open spec fn magnet_uri(m: MagnetModel) -> Seq<char> {
    "magnet:"@ + v1_part(m) + v2_part(m) + name_part(m) + size_part(m) + trackers_part(m.trackers)
}

/// The trackers of all tiers, one behind the other.
pub open spec fn flat_tiers(tiers: Seq<Seq<Seq<char>>>) -> Seq<Seq<char>>
    decreases tiers.len(),
{
    if tiers.len() == 0 {
        Seq::empty()
    } else {
        flat_tiers(tiers.drop_last()) + tiers.last()
    }
}

/// The trackers of a torrent.
pub open spec fn torrent_trackers(t: TorrentModel) -> Seq<Seq<char>> {
    match t.tracker_tiers {
        Some(tiers) => flat_tiers(tiers),
        None => Seq::empty(),
    }
}

/// The info hashes of a torrent.
pub open spec fn torrent_hashes(t: TorrentModel) -> HashesModel {
    let info = encode(info_value(t.meta));
    HashesModel {
        v1: if t.meta is V2 {
            None
        } else {
            Some(sha1_of(info))
        },
        v2: if t.meta is V1 {
            None
        } else {
            Some(sha256_of(info))
        },
    }
}

/// The magnet link of a torrent.
pub open spec fn torrent_magnet(t: TorrentModel) -> MagnetModel {
    MagnetModel {
        info_hashes: torrent_hashes(t),
        name: Some(meta_name(t.meta)),
        trackers: torrent_trackers(t),
        size: Some(meta_size(t.meta) as u64),
        v1_base32: false,
    }
}

/// Asking for base 32 changes nothing in a link without a v1 info hash.
pub proof fn law_base32_needs_v1(m: MagnetModel)
    requires
        m.info_hashes.v1 is None,
    ensures
        magnet_uri(MagnetModel { v1_base32: true, ..m }) == magnet_uri(
            MagnetModel { v1_base32: false, ..m },
        ),
{
}

/// The trackers of all tiers.
fn collect_trackers(tiers: &[TrackerTier]) -> (r: Vec<Url>)
    ensures
        views(r@) == flat_tiers(views(tiers@)),
{
    let ghost all = views(tiers@);
    let mut r: Vec<Url> = Vec::new();
    let mut i: usize = 0;
    assert(all.take(0) =~= Seq::<Seq<Seq<char>>>::empty());
    assert(views(r@) =~= Seq::<Seq<char>>::empty());
    while i < tiers.len()
        invariant
            i <= tiers@.len(),
            all == views(tiers@),
            views(r@) == flat_tiers(all.take(i as int)),
        decreases tiers@.len() - i,
    {
        let ghost before = views(r@);
        let tier: &TrackerTier = &tiers[i];
        let mut j: usize = 0;
        assert(views(r@) =~= before + tier@.take(0));
        while j < tier.0.len()
            invariant
                j <= tier.0@.len(),
                views(r@) == before + tier@.take(j as int),
            decreases tier.0@.len() - j,
        {
            let ghost so_far = views(r@);
            let url: Url = tier.0[j].clone();
            r.push(url);
            proof {
                assert(views(r@) =~= so_far.push(url@));
                assert(tier@.take(j + 1) =~= tier@.take(j as int).push(url@));
                assert(views(r@) =~= before + tier@.take(j + 1));
            }
            j = j + 1;
        }
        proof {
            let t = all.take(i + 1);
            assert(t.drop_last() =~= all.take(i as int));
            assert(t.last() == tier@);
            assert(tier@.take(j as int) =~= tier@);
        }
        i = i + 1;
    }
    assert(all.take(i as int) =~= all);
    r
}

impl MagnetLink {
    /// A link with nothing but info hashes.
    pub fn new(info_hashes: InfoHashes) -> (r: MagnetLink)
        ensures
            r@ == (MagnetModel {
                info_hashes: info_hashes@,
                name: None,
                trackers: Seq::empty(),
                size: None,
                v1_base32: false,
            }),
    {
        let r = MagnetLink {
            info_hashes,
            name: None,
            trackers: Vec::new(),
            size: None,
            v1_base32: false,
        };
        assert(r@.trackers =~= Seq::<Seq<char>>::empty());
        r
    }

    /// Writes the v1 info hash in base 32. This changes nothing if there is none.
    pub fn v1_base32(self) -> (r: MagnetLink)
        ensures
            r@ == (MagnetModel { v1_base32: true, ..self@ }),
    {
        let mut link = self;
        link.v1_base32 = true;
        link
    }

    /// The link of a torrent.
    pub fn from(torrent: &Torrent<'_>) -> (r: MagnetLink)
        requires
            meta_size(torrent@.meta) <= u64::MAX,
        ensures
            r@ == torrent_magnet(torrent@),
    {
        let trackers: Vec<Url> = match &torrent.tracker_tiers {
            Some(tiers) => collect_trackers(tiers),
            None => Vec::new(),
        };
        assert(views(trackers@) =~= torrent_trackers(torrent@));
        let info_hashes: InfoHashes = match (torrent.info_hash_v1(), torrent.info_hash_v2()) {
            (Some(v1), Some(v2)) => InfoHashes::Hybrid { v1, v2 },
            (Some(v1), None) => InfoHashes::V1(v1),
            (None, Some(v2)) => InfoHashes::V2(v2),
            (None, None) => {
                proof {
                    assert(false);
                }
                InfoHashes::V1([0; 20])
            },
        };
        let name: String = match torrent.name() {
            Cow::Borrowed(s) => (*s).to_owned(),
            Cow::Owned(s) => s.clone(),
        };
        MagnetLink {
            info_hashes,
            name: Some(name),
            trackers,
            size: Some(torrent.total_size()),
            v1_base32: false,
        }
    }

    /// The magnet URI.
    ///
    /// It starts with `magnet:`, followed by `xt` for the v1 info hash, `xt` for the v2 info hash,
    /// `dn` for the name, `xl` for the size, and `tr` for each tracker.
    pub fn to_uri(&self) -> (r: String)
        ensures
            r@ == magnet_uri(self@),
    {
        let mut uri: String = "magnet:".to_owned();
        if let Some(h) = self.info_hashes.v1() {
            uri.append("?xt=urn:btih:");
            let text: String = if self.v1_base32 {
                base32(h.as_slice())
            } else {
                hex(h.as_slice())
            };
            uri.append(text.as_str());
        }
        assert(uri@ =~= "magnet:"@ + v1_part(self@));
        if let Some(h) = self.info_hashes.v2() {
            let text: String = hex(h.as_slice());
            match self.info_hashes.v1() {
                Some(_) => uri.append("&xt=urn:btmh:1220"),
                None => uri.append("?xt=urn:btmh:1220"),
            }
            uri.append(text.as_str());
        }
        assert(uri@ =~= "magnet:"@ + v1_part(self@) + v2_part(self@));
        if let Some(name) = &self.name {
            uri.append("&dn=");
            append_escaped(&mut uri, name.as_str().as_bytes());
        }
        assert(uri@ =~= "magnet:"@ + v1_part(self@) + v2_part(self@) + name_part(self@));
        if let Some(size) = self.size {
            uri.append("&xl=");
            append_number(&mut uri, size);
        }
        let ghost before = "magnet:"@ + v1_part(self@) + v2_part(self@) + name_part(self@)
            + size_part(self@);
        assert(uri@ =~= before);
        let mut i: usize = 0;
        assert(self@.trackers.take(0) =~= Seq::<Seq<char>>::empty());
        assert(uri@ =~= before + trackers_part(self@.trackers.take(0)));
        while i < self.trackers.len()
            invariant
                i <= self.trackers@.len(),
                uri@ == before + trackers_part(self@.trackers.take(i as int)),
            decreases self.trackers@.len() - i,
        {
            uri.append("&tr=");
            append_escaped(&mut uri, self.trackers[i].as_str().as_bytes());
            proof {
                let t = self@.trackers.take(i + 1);
                assert(t.drop_last() =~= self@.trackers.take(i as int));
                assert(t.last() == self.trackers@[i as int]@);
                assert(uri@ =~= before + trackers_part(t));
            }
            i = i + 1;
        }
        assert(self@.trackers.take(i as int) =~= self@.trackers);
        uri
    }
}

impl<'a> Torrent<'a> {
    /// The magnet link of this torrent.
    pub fn magnet_link(&self) -> (r: MagnetLink)
        requires
            meta_size(self@.meta) <= u64::MAX,
        ensures
            r@ == torrent_magnet(self@),
    {
        MagnetLink::from(self)
    }
}

} // verus!
