//! What the magnet link of a torrent holds, and how it is written.
use vstd::prelude::*;
use vstd::utf8::encode_utf8;

use crate::bencode::model::encode;
use crate::decimal::decimal;
use crate::digest::{sha1_of, sha256_of};
use crate::magnet::{
    ascii_text, base32_text, flat_tiers, hex_text, magnet_uri, torrent_magnet, uri_text,
    HashesModel, MagnetModel,
};
use crate::torrent::model::TorrentModel;
use crate::torrent::query::{meta_name, meta_size};
use crate::torrent::write::info_value;

verus! {

/// How many trackers the first `k` tiers have.
pub open spec fn trackers_in(tiers: Seq<Seq<Seq<char>>>, k: int) -> nat
    decreases k,
{
    if k <= 0 {
        0
    } else {
        trackers_in(tiers, k - 1) + tiers[k - 1].len()
    }
}

/// Tracker `j` of tier `i` stands behind the trackers of the tiers before, at the place that it has
/// in its tier.
pub open spec fn is_placed(
    tiers: Seq<Seq<Seq<char>>>,
    trackers: Seq<Seq<char>>,
    i: int,
    j: int,
) -> bool {
    &&& trackers_in(tiers, i) + j < trackers.len()
    &&& trackers[trackers_in(tiers, i) + j] == tiers[i][j]
}

/// The link of a torrent has every tracker of every tier: behind the trackers of the tiers before,
/// at the place that it has in its tier. It has no others.
pub proof fn law_link_has_every_tracker(t: TorrentModel)
    ensures
        t.tracker_tiers is None ==> torrent_magnet(t).trackers.len() == 0,
        t.tracker_tiers matches Some(tiers) ==> {
            let trackers = torrent_magnet(t).trackers;
            &&& trackers.len() == trackers_in(tiers, tiers.len() as int)
            &&& forall|i: int, j: int|
                0 <= i < tiers.len() && 0 <= j < tiers[i].len() ==> #[trigger] is_placed(
                    tiers,
                    trackers,
                    i,
                    j,
                )
        },
{
    if let Some(tiers) = t.tracker_tiers {
        lemma_tiers(tiers, tiers.len() as int);
        assert(tiers.take(tiers.len() as int) =~= tiers);
    }
}

proof fn lemma_tiers(tiers: Seq<Seq<Seq<char>>>, k: int)
    requires
        0 <= k <= tiers.len(),
    ensures
        ({
            let trackers = flat_tiers(tiers.take(k));
            &&& trackers.len() == trackers_in(tiers, k)
            &&& forall|i: int, j: int|
                0 <= i < k && 0 <= j < tiers[i].len() ==> #[trigger] is_placed(
                    tiers,
                    trackers,
                    i,
                    j,
                )
        }),
    decreases k,
{
    if k > 0 {
        lemma_tiers(tiers, k - 1);
        assert(tiers.take(k).drop_last() =~= tiers.take(k - 1));
        assert(tiers.take(k).last() == tiers[k - 1]);
        let before = flat_tiers(tiers.take(k - 1));
        let trackers = flat_tiers(tiers.take(k));
        assert(trackers == before + tiers[k - 1]);
        assert forall|i: int, j: int|
            0 <= i < k && 0 <= j < tiers[i].len() implies #[trigger] is_placed(
            tiers,
            trackers,
            i,
            j,
        ) by {
            if i < k - 1 {
                assert(is_placed(tiers, before, i, j));
            }
        }
    }
}

/// The link of a torrent has its name and its size, the SHA-1 hash of the encoded `info`
/// dictionary if there are v1 fields, and its SHA-256 hash if there are v2 fields.
pub proof fn law_link_shows_the_torrent(t: TorrentModel)
    requires
        meta_size(t.meta) <= u64::MAX,
    ensures
        torrent_magnet(t).name == Some(meta_name(t.meta)),
        torrent_magnet(t).size matches Some(n) && n == meta_size(t.meta),
        torrent_magnet(t).info_hashes.v1 == if t.meta is V1 || t.meta is Hybrid {
            Some(sha1_of(encode(info_value(t.meta))))
        } else {
            None
        },
        torrent_magnet(t).info_hashes.v2 == if t.meta is V2 || t.meta is Hybrid {
            Some(sha256_of(encode(info_value(t.meta))))
        } else {
            None
        },
        !torrent_magnet(t).v1_base32,
{
}

/// The number that a hexadecimal digit stands for.
pub open spec fn digit_value(c: char) -> int {
    if '0' <= c <= '9' {
        c as int - 48
    } else if 'A' <= c <= 'F' {
        c as int - 55
    } else if 'a' <= c <= 'f' {
        c as int - 87
    } else {
        -1
    }
}

/// A character that stands for itself in a URI.
pub open spec fn stands_for_itself(c: char) -> bool {
    ||| 'a' <= c <= 'z'
    ||| 'A' <= c <= 'Z'
    ||| '0' <= c <= '9'
    ||| c == '-'
    ||| c == '.'
    ||| c == '_'
    ||| c == '~'
}

/// Bytes are escaped one by one. A byte that is an unreserved character stands for itself, and any
/// other one is a percent sign with the two hexadecimal digits of its number.
pub proof fn law_escaping_goes_byte_by_byte(a: Seq<u8>, b: Seq<u8>, x: u8)
    ensures
        uri_text(a + b) == uri_text(a) + uri_text(b),
        uri_text(Seq::empty()) == Seq::<char>::empty(),
        if stands_for_itself(x as char) {
            uri_text(seq![x]) == seq![x as char]
        } else {
            &&& uri_text(seq![x]).len() == 3
            &&& uri_text(seq![x])[0] == '%'
            &&& 16 * digit_value(uri_text(seq![x])[1]) + digit_value(uri_text(seq![x])[2]) == x
            &&& 0 <= digit_value(uri_text(seq![x])[1]) < 16
            &&& 0 <= digit_value(uri_text(seq![x])[2]) < 16
        },
    decreases b.len(),
{
    reveal_with_fuel(uri_text, 2);
    assert(seq![x].drop_last() =~= Seq::<u8>::empty());
    let one = uri_text(seq![x]);
    if stands_for_itself(x as char) {
        assert(one =~= seq![x as char]);
    } else {
        assert(one =~= crate::magnet::percent_text(x));
    }
    if b.len() == 0 {
        assert(a + b =~= a);
        assert(uri_text(a) + uri_text(b) =~= uri_text(a));
    } else {
        law_escaping_goes_byte_by_byte(a, b.drop_last(), x);
        assert((a + b).drop_last() =~= a + b.drop_last());
        assert((a + b).last() == b.last());
        assert(uri_text(a + b) =~= uri_text(a) + uri_text(b));
    }
}

/// An escaped text holds nothing but unreserved characters and percent signs, so that it does not
/// end the parameter that it stands in.
pub proof fn law_escaped_text_is_safe(s: Seq<u8>)
    ensures
        forall|i: int|
            0 <= i < uri_text(s).len() ==> stands_for_itself(#[trigger] uri_text(s)[i]) || uri_text(
                s,
            )[i] == '%',
    decreases s.len(),
{
    if s.len() > 0 {
        let t = s.drop_last();
        law_escaped_text_is_safe(t);
        let before = uri_text(t);
        let all = uri_text(s);
        assert forall|i: int| 0 <= i < all.len() implies stands_for_itself(#[trigger] all[i])
            || all[i] == '%' by {
            if i < before.len() {
                assert(all[i] == before[i]);
            }
        }
    }
}

/// A link with nothing but hashes: the v1 hash comes first, and the v2 hash has the prefix of its
/// kind.
pub proof fn law_uri_of_hashes(v1: Seq<u8>, v2: Seq<u8>)
    ensures
        magnet_uri(bare(Some(v1), None)) == "magnet:?xt=urn:btih:"@ + hex_text(v1),
        magnet_uri(bare(None, Some(v2))) == "magnet:?xt=urn:btmh:1220"@ + hex_text(v2),
        magnet_uri(bare(Some(v1), Some(v2))) == "magnet:?xt=urn:btih:"@ + hex_text(v1)
            + "&xt=urn:btmh:1220"@ + hex_text(v2),
        magnet_uri(MagnetModel { v1_base32: true, ..bare(Some(v1), None) })
            == "magnet:?xt=urn:btih:"@ + base32_text(v1),
        magnet_uri(MagnetModel { v1_base32: true, ..bare(Some(v1), Some(v2)) })
            == "magnet:?xt=urn:btih:"@ + base32_text(v1) + "&xt=urn:btmh:1220"@ + hex_text(v2),
{
    reveal_strlit("magnet:?xt=urn:btih:");
    reveal_strlit("magnet:?xt=urn:btmh:1220");
    reveal_strlit("magnet:");
    reveal_strlit("?xt=urn:btih:");
    reveal_strlit("?xt=urn:btmh:1220");
    assert("magnet:"@ + "?xt=urn:btih:"@ =~= "magnet:?xt=urn:btih:"@);
    assert("magnet:"@ + "?xt=urn:btmh:1220"@ =~= "magnet:?xt=urn:btmh:1220"@);
    assert(magnet_uri(bare(Some(v1), None)) =~= "magnet:?xt=urn:btih:"@ + hex_text(v1));
    assert(magnet_uri(bare(None, Some(v2))) =~= "magnet:?xt=urn:btmh:1220"@ + hex_text(v2));
    assert(magnet_uri(bare(Some(v1), Some(v2))) =~= "magnet:?xt=urn:btih:"@ + hex_text(v1)
        + "&xt=urn:btmh:1220"@ + hex_text(v2));
    assert(magnet_uri(MagnetModel { v1_base32: true, ..bare(Some(v1), None) })
        =~= "magnet:?xt=urn:btih:"@ + base32_text(v1));
    assert(magnet_uri(MagnetModel { v1_base32: true, ..bare(Some(v1), Some(v2)) })
        =~= "magnet:?xt=urn:btih:"@ + base32_text(v1) + "&xt=urn:btmh:1220"@ + hex_text(v2));
}

/// A link with nothing but hashes.
pub open spec fn bare(v1: Option<Seq<u8>>, v2: Option<Seq<u8>>) -> MagnetModel {
    MagnetModel {
        info_hashes: HashesModel { v1, v2 },
        name: None,
        trackers: Seq::empty(),
        size: None,
        v1_base32: false,
    }
}

/// What is known besides the hashes is written behind them: the name, the size, and the trackers
/// one by one.
pub proof fn law_uri_grows(m: MagnetModel, name: Seq<char>, size: u64, tracker: Seq<char>)
    ensures
        ({
            let no_trackers = MagnetModel { trackers: Seq::empty(), ..m };
            let no_size = MagnetModel { size: None, ..no_trackers };
            let no_name = MagnetModel { name: None, ..no_size };
            &&& magnet_uri(MagnetModel { name: Some(name), ..no_size }) == magnet_uri(no_name)
                + "&dn="@ + uri_text(encode_utf8(name))
            &&& magnet_uri(MagnetModel { size: Some(size), ..no_trackers }) == magnet_uri(no_size)
                + "&xl="@ + ascii_text(decimal(size as nat))
            &&& magnet_uri(MagnetModel { trackers: m.trackers.push(tracker), ..m }) == magnet_uri(m)
                + "&tr="@ + uri_text(encode_utf8(tracker))
        }),
{
    let no_trackers = MagnetModel { trackers: Seq::empty(), ..m };
    let no_size = MagnetModel { size: None, ..no_trackers };
    let no_name = MagnetModel { name: None, ..no_size };
    assert(magnet_uri(MagnetModel { name: Some(name), ..no_size }) =~= magnet_uri(no_name) + "&dn="@
        + uri_text(encode_utf8(name)));
    assert(magnet_uri(MagnetModel { size: Some(size), ..no_trackers }) =~= magnet_uri(no_size)
        + "&xl="@ + ascii_text(decimal(size as nat)));
    assert(m.trackers.push(tracker).drop_last() =~= m.trackers);
    assert(magnet_uri(MagnetModel { trackers: m.trackers.push(tracker), ..m }) =~= magnet_uri(m)
        + "&tr="@ + uri_text(encode_utf8(tracker)));
}

} // verus!
