# bitors

A verified library for reading and writing BitTorrent metainfo (`.torrent`) files, v1, v2 and
hybrid. Every function of the library has a contract that [Verus] proves.

[Verus]: https://github.com/verus-lang/verus

## Layout

| Module | Contents |
|---|---|
| `bencode` | `Bencode` elements, their encoding, the strict `Parser` |
| `parse` | a lenient parser that keeps track of raw spans |
| `torrent` | `Torrent` and its parts, reading, writing, queries |
| `torrent::builder` | `TorrentBuilder`: v1-only, v2-only and hybrid torrents from files |
| `torrent::factory` | `TorrentFactory`: v1-only torrents from files |
| `torrent::owned` | owned v1 metainfo |
| `magnet` | `MagnetLink` |
| `path`, `sorted_map`, `sorting`, `num`, `web`, `digest` | what the others are made of |

The model of each type is given by its view, in `bencode::model` and `torrent::model` for the data
that is read and written. Contracts relate results to these models. What holds of several
functions together is stated by the proof functions whose names start with `law_`: that parsing
undoes encoding, that a torrent which is built or parsed is found again in the bytes written for
it, with its URLs in the form that parsing gives them (those that parse as themselves stay as they
are), that the order in which files are added does not matter, that the padding of a hybrid torrent
aligns its files, that piece layers lead to the root of a file.

What is parsed borrows from the data, as the contracts of the reading functions say. Only URLs,
which are held in normal form, file attributes and the keys of piece layers are values of their own.

Hashing, URL parsing, hexadecimal and base-32 text, byte search and shuffling come from other
crates. Each call stands in a small function whose doc comment says what is taken for granted.

The library does no input or output. `app/` lists and maps files, reads the clock and hands the
library plain values.
