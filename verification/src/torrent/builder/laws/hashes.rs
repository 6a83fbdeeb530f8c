//! How the files of a torrent that is built are hashed.
use vstd::arithmetic::div_mod::{lemma_fundamental_div_mod, lemma_mod_bound};
use vstd::arithmetic::power2::{
    lemma_pow2_pos, lemma_pow2_strictly_increases, lemma_pow2_unfold, pow2,
};
use vstd::prelude::*;

use crate::digest::{sha1_of, sha256_of};
use crate::torrent::builder::fields::{pad_len, padded_parts};
use crate::torrent::builder::merkle::{
    file_hashes, file_root, is_tree_height, piece_height, piece_layer, subtree, tree_height,
    FileHashes, V2_BLOCK_SIZE,
};
use crate::torrent::builder::pieces::{
    law_pieces_make_up_stream, lemma_piece_count, lemma_piece_start, piece_end, piece_hashes,
    pieces, stream, zeros,
};

verus! {

/// The root of a tree of some height over a text, which is halved down to blocks of 16 KiB. A block
/// behind the end of the text counts as zeros.
pub open spec fn root_of(text: Seq<u8>, height: nat) -> Seq<u8>
    decreases height,
{
    if height == 0 {
        if text.len() == 0 {
            zeros(32)
        } else {
            sha256_of(text)
        }
    } else {
        let h = (height - 1) as nat;
        let half = 16384 * pow2(h);
        if text.len() <= half {
            sha256_of(root_of(text, h) + root_of(Seq::empty(), h))
        } else {
            sha256_of(root_of(text.take(half as int), h) + root_of(text.skip(half as int), h))
        }
    }
}

spec fn no_more(n: int, len: int) -> int {
    if n < len {
        n
    } else {
        len
    }
}

/// As much of a text between two places as there is.
spec fn window(text: Seq<u8>, from: int, to: int) -> Seq<u8> {
    text.subrange(no_more(from, text.len() as int), no_more(to, text.len() as int))
}

proof fn lemma_subtree(content: Seq<u8>, first: int, height: nat)
    requires
        first >= 0,
    ensures
        subtree(content, first, height) == root_of(
            window(content, 16384 * first, 16384 * (first + pow2(height))),
            height,
        ),
    decreases height,
{
    let len = content.len() as int;
    if height == 0 {
        assert(pow2(0) == 1) by {
            vstd::arithmetic::power2::lemma2_to64();
        }
        let w = window(content, 16384 * first, 16384 * (first + 1));
        if first * V2_BLOCK_SIZE < len {
            assert(w =~= content.subrange(
                first * V2_BLOCK_SIZE,
                piece_end(len, V2_BLOCK_SIZE as int, first),
            ));
        } else {
            assert(w.len() == 0);
        }
    } else {
        let h = (height - 1) as nat;
        let p = pow2(h) as int;
        lemma_pow2_pos(h);
        lemma_pow2_unfold(height);
        assert(pow2(height) == 2 * p);
        lemma_subtree(content, first, h);
        lemma_subtree(content, first + p, h);
        let w = window(content, 16384 * first, 16384 * (first + 2 * p));
        let left = window(content, 16384 * first, 16384 * (first + p));
        let right = window(content, 16384 * (first + p), 16384 * (first + p + p));
        if w.len() <= 16384 * p {
            assert(left =~= w);
            assert(right =~= Seq::empty());
        } else {
            assert(left =~= w.take(16384 * p));
            assert(right =~= w.skip(16384 * p));
        }
    }
}

proof fn lemma_no_higher(a: nat, b: nat)
    requires
        a < b,
    ensures
        pow2(a) <= pow2((b - 1) as nat),
{
    if a < b - 1 {
        lemma_pow2_strictly_increases(a, (b - 1) as nat);
    }
}

/// The root of a file is that of the lowest tree over its blocks that has room for all of them.
pub proof fn law_file_root(content: Seq<u8>, height: nat)
    requires
        content.len() <= 16384 * pow2(height),
        height > 0 ==> content.len() > 16384 * pow2((height - 1) as nat),
    ensures
        file_root(content) == root_of(content, height),
        content.len() <= 16384 && content.len() > 0 ==> file_root(content) == sha256_of(content),
{
    let len = content.len() as int;
    assert(is_tree_height(len, height));
    let h = tree_height(len);
    if h < height {
        lemma_no_higher(h, height);
    } else if height < h {
        lemma_no_higher(height, h);
    }
    lemma_subtree(content, 0, height);
    assert(window(content, 0, 16384 * (0int + pow2(height))) =~= content);
    if len <= 16384 && len > 0 {
        assert(pow2(0) == 1) by {
            vstd::arithmetic::power2::lemma2_to64();
        }
        if height > 0 {
            lemma_no_higher(0, height);
        }
    }
}

/// The piece layer of a file holds one hash for each piece: the root of the tree over its blocks.
pub proof fn law_piece_layer(content: Seq<u8>, piece_length: int, height: nat)
    requires
        piece_length == 16384 * pow2(height),
    ensures
        piece_layer(content, piece_length).len() == pieces(content, piece_length).len(),
        forall|i: int|
            0 <= i < pieces(content, piece_length).len() ==> #[trigger] piece_layer(
                content,
                piece_length,
            )[i] == root_of(pieces(content, piece_length)[i], height),
{
    let len = content.len() as int;
    let d = piece_height(piece_length);
    assert(piece_length == V2_BLOCK_SIZE * pow2(d));
    if d < height {
        lemma_pow2_strictly_increases(d, height);
    } else if height < d {
        lemma_pow2_strictly_increases(height, d);
    }
    assert forall|i: int| 0 <= i < pieces(content, piece_length).len() implies #[trigger] piece_layer(
        content,
        piece_length,
    )[i] == root_of(pieces(content, piece_length)[i], height) by {
        let p = pow2(height) as int;
        lemma_pow2_pos(height);
        assert(i * p >= 0) by (nonlinear_arith)
            requires
                i >= 0,
                p > 0,
        ;
        lemma_subtree(content, i * p, height);
        assert(16384 * (i * p) == i * piece_length) by (nonlinear_arith)
            requires
                piece_length == 16384 * p,
        ;
        assert(16384 * (i * p + p) == (i + 1) * piece_length) by (nonlinear_arith)
            requires
                piece_length == 16384 * p,
        ;
        lemma_piece_start(len, piece_length, i);
        assert(window(content, i * piece_length, (i + 1) * piece_length) =~= pieces(
            content,
            piece_length,
        )[i]);
    }
}

/// A text is cut into pieces of one length, of which only the last may be shorter, and some hashes
/// are theirs.
pub open spec fn hashed_in_pieces(
    hashes: Seq<Seq<u8>>,
    text: Seq<u8>,
    piece_length: int,
    parts: Seq<Seq<u8>>,
) -> bool {
    &&& stream(parts) == text
    &&& hashes.len() == parts.len()
    &&& forall|i: int| 0 <= i < parts.len() ==> 0 < (#[trigger] parts[i]).len() <= piece_length
    &&& forall|i: int| 0 <= i < parts.len() - 1 ==> (#[trigger] parts[i]).len() == piece_length
    &&& forall|i: int| 0 <= i < parts.len() ==> #[trigger] hashes[i] == sha1_of(parts[i])
}

/// The hashes of a stream are those of the pieces that it is made of.
pub proof fn law_piece_hashes(text: Seq<u8>, piece_length: int)
    requires
        piece_length > 0,
    ensures
        hashed_in_pieces(
            piece_hashes(text, piece_length),
            text,
            piece_length,
            pieces(text, piece_length),
        ),
{
    law_pieces_make_up_stream(text, piece_length);
}

/// A text behind a whole number of pieces is hashed by itself.
pub proof fn law_pieces_add_up(a: Seq<u8>, b: Seq<u8>, n: int)
    requires
        n > 0,
        a.len() as int % n == 0,
    ensures
        pieces(a + b, n) == pieces(a, n) + pieces(b, n),
        piece_hashes(a + b, n) == piece_hashes(a, n) + piece_hashes(b, n),
{
    let la = a.len() as int;
    let lb = b.len() as int;
    let q = la / n;
    lemma_fundamental_div_mod(la, n);
    assert(q >= 0 && la == q * n) by (nonlinear_arith)
        requires
            la == n * q + 0,
            la >= 0,
            n > 0,
    ;
    lemma_fundamental_div_mod(lb, n);
    lemma_mod_bound(lb, n);
    let qb = lb / n;
    let r = lb % n;
    assert(qb >= 0 && lb == qb * n + r) by (nonlinear_arith)
        requires
            lb == n * qb + r,
            lb >= 0,
            0 <= r < n,
            n > 0,
    ;
    assert((q + qb) * n + r == la + lb) by (nonlinear_arith)
        requires
            la == q * n,
            lb == qb * n + r,
    ;
    lemma_piece_count(la, n, q, 0);
    lemma_piece_count(lb, n, qb, r);
    lemma_piece_count(la + lb, n, q + qb, r);
    let whole = pieces(a + b, n);
    let parts = pieces(a, n) + pieces(b, n);
    assert(whole.len() == parts.len());
    assert forall|i: int| 0 <= i < whole.len() implies whole[i] =~= parts[i] by {
        lemma_piece_start(la + lb, n, i);
        if i < q {
            lemma_piece_start(la, n, i);
            assert((i + 1) * n <= q * n) by (nonlinear_arith)
                requires
                    i + 1 <= q,
                    n > 0,
            ;
        } else {
            let k = i - q;
            lemma_piece_start(lb, n, k);
            assert(i * n == la + k * n) by (nonlinear_arith)
                requires
                    la == q * n,
                    k == i - q,
            ;
            assert((i + 1) * n == la + (k + 1) * n) by (nonlinear_arith)
                requires
                    la == q * n,
                    k == i - q,
            ;
        }
    }
    assert(whole =~= parts);
    assert(piece_hashes(a + b, n) =~= piece_hashes(a, n) + piece_hashes(b, n));
}

proof fn lemma_whole_pieces(parts: Seq<Seq<u8>>, n: int)
    requires
        n > 0,
    ensures
        stream(padded_parts(parts, n)).len() as int % n == 0,
{
    let more = parts.push(Seq::empty());
    crate::torrent::builder::fields::law_padding_aligns_files(more, n, parts.len() as int);
    assert(more.take(parts.len() as int) =~= parts);
}

/// In a padded stream each file is hashed by itself, with zeros behind it up to the end of its last
/// piece.
pub proof fn law_padded_files_are_hashed_apart(files: Seq<Seq<u8>>, file: Seq<u8>, n: int)
    requires
        n > 0,
    ensures
        ({
            let pad = pad_len(file.len() as int, n);
            let hashes = piece_hashes(stream(padded_parts(files, n)), n);
            &&& 0 <= pad < n
            &&& (file.len() + pad) % n == 0
            &&& piece_hashes(stream(padded_parts(files.push(file), n)), n) == hashes + piece_hashes(
                file + zeros(pad as nat),
                n,
            )
        }),
{
    let len = file.len() as int;
    let pad = pad_len(len, n);
    let before = stream(padded_parts(files, n));
    lemma_whole_pieces(files, n);
    lemma_mod_bound(len, n);
    lemma_mod_bound(n - len % n, n);
    lemma_whole_pieces(seq![file], n);
    let all = files.push(file);
    assert(all.drop_last() =~= files);
    assert(seq![file].drop_last() =~= Seq::<Seq<u8>>::empty());
    reveal_with_fuel(padded_parts, 2);
    reveal_with_fuel(stream, 3);
    let s = padded_parts(files, n).push(file);
    let one = Seq::<Seq<u8>>::empty().push(file);
    assert(s.drop_last() =~= padded_parts(files, n));
    assert(one.drop_last() =~= Seq::<Seq<u8>>::empty());
    assert(s.push(zeros(pad as nat)).drop_last() =~= s);
    assert(one.push(zeros(pad as nat)).drop_last() =~= one);
    assert(stream(s) == before + file);
    assert(stream(one) =~= file);
    if pad > 0 {
        assert(stream(padded_parts(all, n)) =~= before + (file + zeros(pad as nat)));
        assert(stream(padded_parts(seq![file], n)) =~= file + zeros(pad as nat));
    } else {
        assert(file + zeros(0) =~= file);
        assert(stream(padded_parts(all, n)) =~= before + (file + zeros(pad as nat)));
        assert(stream(padded_parts(seq![file], n)) =~= file);
    }
    law_pieces_add_up(before, file + zeros(pad as nat), n);
}

/// An empty file has no hashes, and a file of one piece has no piece layer.
pub proof fn law_long_files_have_layers(content: Seq<u8>, piece_length: int)
    requires
        piece_length > 0,
    ensures
        match file_hashes(content, piece_length) {
            FileHashes::Empty => content.len() == 0,
            FileHashes::SinglePiece(root) => 0 < content.len() <= piece_length && root == file_root(
                content,
            ),
            FileHashes::MultiPiece(root, layer) => {
                &&& content.len() > piece_length
                &&& root == file_root(content)
                &&& layer == piece_layer(content, piece_length)
            },
        },
{
}

} // verus!
