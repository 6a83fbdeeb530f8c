//! V2 hashes: every file has a Merkle tree over its blocks.
use vstd::arithmetic::div_mod::{
    lemma_fundamental_div_mod, lemma_fundamental_div_mod_converse, lemma_mod_bound,
};
use vstd::arithmetic::power2::{
    lemma_pow2_adds, lemma_pow2_pos, lemma_pow2_strictly_increases, lemma_pow2_unfold, pow2,
};
use vstd::prelude::*;

use crate::chunks::arrays;
use crate::digest::{sha256, sha256_of};
use crate::num::is_power_of_two;
use crate::torrent::builder::error::{Error, Obstacle};
use crate::torrent::builder::pieces::{piece_count, piece_end, zeros};

verus! {

/// The size of a block: 16 KiB.
pub const V2_BLOCK_SIZE: usize = 16384;

/// The hash of block `i` of a file: that of its bytes, or zeros behind the end of the file.
pub open spec fn block_hash(content: Seq<u8>, i: int) -> Seq<u8> {
    if i * V2_BLOCK_SIZE < content.len() {
        sha256_of(
            content.subrange(
                i * V2_BLOCK_SIZE,
                piece_end(content.len() as int, V2_BLOCK_SIZE as int, i),
            ),
        )
    } else {
        zeros(32)
    }
}

/// The root of the tree of the given height over the blocks from `first` on.
pub open spec fn subtree(content: Seq<u8>, first: int, height: nat) -> Seq<u8>
    decreases height,
{
    if height == 0 {
        block_hash(content, first)
    } else {
        let h = (height - 1) as nat;
        sha256_of(subtree(content, first, h) + subtree(content, first + pow2(h), h))
    }
}

/// The root of a tree of the given height over blocks behind the end of a file.
pub open spec fn zero_tree(height: nat) -> Seq<u8>
    decreases height,
{
    if height == 0 {
        zeros(32)
    } else {
        let h = (height - 1) as nat;
        sha256_of(zero_tree(h) + zero_tree(h))
    }
}

/// `h` is the least height of a tree that has room for a file of `len` bytes.
pub open spec fn is_tree_height(len: int, h: nat) -> bool {
    &&& V2_BLOCK_SIZE * pow2(h) >= len
    &&& h > 0 ==> V2_BLOCK_SIZE * pow2((h - 1) as nat) < len
}

/// The height of the tree of a file of `len` bytes.
pub open spec fn tree_height(len: int) -> nat {
    choose|h: nat| is_tree_height(len, h)
}

/// The height of the tree over one piece.
pub open spec fn piece_height(piece_length: int) -> nat {
    choose|d: nat| piece_length == V2_BLOCK_SIZE * pow2(d)
}

/// The root of the tree of a file.
pub open spec fn file_root(content: Seq<u8>) -> Seq<u8> {
    subtree(content, 0, tree_height(content.len() as int))
}

/// The roots of the trees over the pieces of a file.
pub open spec fn piece_layer(content: Seq<u8>, piece_length: int) -> Seq<Seq<u8>> {
    let d = piece_height(piece_length);
    Seq::new(
        piece_count(content.len() as int, piece_length) as nat,
        |i: int| subtree(content, i * pow2(d), d),
    )
}

/// The model of [`V2FileHashes`].
#[verifier::ext_equal]
pub ghost enum FileHashes {
    Empty,
    SinglePiece(Seq<u8>),
    MultiPiece(Seq<u8>, Seq<Seq<u8>>),
}

/// The hashes of a file: none if it is empty, the root, and the piece layer if there is more than
/// one piece.
pub open spec fn file_hashes(content: Seq<u8>, piece_length: int) -> FileHashes {
    if content.len() == 0 {
        FileHashes::Empty
    } else if content.len() > piece_length {
        FileHashes::MultiPiece(file_root(content), piece_layer(content, piece_length))
    } else {
        FileHashes::SinglePiece(file_root(content))
    }
}

/// The hashes of a file.
#[derive(Debug)]
pub enum V2FileHashes {
    Empty,
    SinglePiece {
        root: [u8; 32],
    },
    MultiPiece {
        root: [u8; 32],
        layer: Vec<[u8; 32]>,
    },
}

impl View for V2FileHashes {
    type V = FileHashes;

    open spec fn view(&self) -> FileHashes {
        match self {
            V2FileHashes::Empty => FileHashes::Empty,
            V2FileHashes::SinglePiece { root } => FileHashes::SinglePiece(root@),
            V2FileHashes::MultiPiece { root, layer } => FileHashes::MultiPiece(
                root@,
                arrays(layer@),
            ),
        }
    }
}

proof fn lemma_pow2_le(a: nat, b: nat)
    requires
        a <= b,
    ensures
        pow2(a) <= pow2(b),
{
    if a < b {
        lemma_pow2_strictly_increases(a, b);
    }
}

proof fn lemma_pow2_zero()
    ensures
        pow2(0) == 1,
{
    vstd::arithmetic::power2::lemma2_to64();
}

/// There is no more than one least height.
proof fn lemma_tree_height(len: int, h: nat)
    requires
        is_tree_height(len, h),
    ensures
        tree_height(len) == h,
{
    let g = tree_height(len);
    assert(is_tree_height(len, g));
    if g < h {
        lemma_pow2_le(g, (h - 1) as nat);
    } else if h < g {
        lemma_pow2_le(h, (g - 1) as nat);
    }
}

proof fn lemma_piece_height(piece_length: int, d: nat)
    requires
        piece_length == V2_BLOCK_SIZE * pow2(d),
    ensures
        piece_height(piece_length) == d,
{
    let e = piece_height(piece_length);
    assert(piece_length == V2_BLOCK_SIZE * pow2(e));
    if d < e {
        lemma_pow2_strictly_increases(d, e);
    } else if e < d {
        lemma_pow2_strictly_increases(e, d);
    }
}

/// Behind the end of a file there are only zeros.
proof fn lemma_zero_tree(content: Seq<u8>, first: int, height: nat)
    requires
        first * V2_BLOCK_SIZE >= content.len(),
    ensures
        subtree(content, first, height) == zero_tree(height),
    decreases height,
{
    if height > 0 {
        let h = (height - 1) as nat;
        lemma_pow2_pos(h);
        lemma_zero_tree(content, first, h);
        lemma_zero_tree(content, first + pow2(h), h);
    }
}

/// Trees over the same blocks have the same root.
proof fn lemma_same_blocks(a: Seq<u8>, i: int, b: Seq<u8>, j: int, height: nat)
    requires
        forall|k: int|
            0 <= k < pow2(height) ==> #[trigger] block_hash(a, i + k) == block_hash(b, j + k),
    ensures
        subtree(a, i, height) == subtree(b, j, height),
    decreases height,
{
    lemma_pow2_zero();
    if height == 0 {
        assert(block_hash(a, i + 0) == block_hash(b, j + 0));
    } else {
        let h = (height - 1) as nat;
        lemma_pow2_unfold(height);
        lemma_same_blocks(a, i, b, j, h);
        assert forall|k: int| 0 <= k < pow2(h) implies #[trigger] block_hash(a, i + pow2(h) + k)
            == block_hash(b, j + pow2(h) + k) by {
            assert(block_hash(a, i + (pow2(h) + k)) == block_hash(b, j + (pow2(h) + k)));
        }
        lemma_same_blocks(a, i + pow2(h), b, j + pow2(h), h);
    }
}

/// The tree over a chunk of a file is a part of the tree of the file.
proof fn lemma_chunk_tree(content: Seq<u8>, j: int, d: nat)
    requires
        j >= 0,
        j * (V2_BLOCK_SIZE * pow2(d)) < content.len(),
    ensures
        ({
            let size = V2_BLOCK_SIZE * pow2(d);
            let chunk = content.subrange(j * size, piece_end(content.len() as int, size, j));
            subtree(chunk, 0, d) == subtree(content, j * pow2(d), d)
        }),
{
    let size = V2_BLOCK_SIZE * pow2(d);
    let len = content.len() as int;
    lemma_pow2_pos(d);
    let from = j * size;
    let to = piece_end(len, size, j);
    let chunk = content.subrange(from, to);
    assert(from >= 0) by (nonlinear_arith)
        requires
            j >= 0,
            size > 0,
            from == j * size,
    ;
    assert((j + 1) * size == from + size) by (nonlinear_arith)
        requires
            from == j * size,
    ;
    assert(from == (j * pow2(d)) * V2_BLOCK_SIZE) by (nonlinear_arith)
        requires
            from == j * size,
            size == V2_BLOCK_SIZE * pow2(d),
    ;
    assert forall|k: int| 0 <= k < pow2(d) implies #[trigger] block_hash(chunk, 0 + k)
        == block_hash(content, j * pow2(d) + k) by {
        let b = V2_BLOCK_SIZE as int;
        assert((j * pow2(d) + k) * b == from + k * b) by (nonlinear_arith)
            requires
                from == (j * pow2(d)) * b,
        ;
        assert((j * pow2(d) + k + 1) * b == from + (k + 1) * b) by (nonlinear_arith)
            requires
                from == (j * pow2(d)) * b,
        ;
        assert(k * b + b <= size) by (nonlinear_arith)
            requires
                k + 1 <= pow2(d),
                size == b * pow2(d),
                b > 0,
        ;
        assert((k + 1) * b == k * b + b) by (nonlinear_arith);
        assert(0 <= k * b) by (nonlinear_arith)
            requires
                0 <= k,
                b > 0,
        ;
        if k * b < chunk.len() {
            assert(chunk.subrange(k * b, piece_end(chunk.len() as int, b, k))
                =~= content.subrange(
                from + k * b,
                piece_end(len, b, j * pow2(d) + k),
            ));
        }
    }
    lemma_same_blocks(chunk, 0, content, j * pow2(d), d);
}

/// The roots and heights on a stack.
pub open spec fn stack_view(stack: Seq<([u8; 32], u32)>) -> Seq<(Seq<u8>, nat)> {
    Seq::new(stack.len(), |i: int| (stack[i].0@, stack[i].1 as nat))
}

/// The trees on a stack stand side by side over the blocks before `end`, and each one is higher
/// than the next.
spec fn stacked(content: Seq<u8>, stack: Seq<(Seq<u8>, nat)>, end: int) -> bool
    decreases stack.len(),
{
    if stack.len() == 0 {
        end == 0
    } else {
        let (root, height) = stack.last();
        let first = end - pow2(height);
        &&& stacked(content, stack.drop_last(), first)
        &&& root == subtree(content, first, height)
        &&& stack.len() >= 2 ==> stack[stack.len() - 2].1 > height
    }
}

proof fn lemma_stacked_end(content: Seq<u8>, stack: Seq<(Seq<u8>, nat)>, end: int)
    requires
        stacked(content, stack, end),
        stack.len() > 0,
    ensures
        end + pow2(stack.last().1) <= pow2(stack[0].1 + 1),
        end >= pow2(stack[0].1),
        stack.len() >= 2 ==> end > pow2(stack[0].1),
    decreases stack.len(),
{
    let height = stack.last().1;
    lemma_pow2_pos(height);
    lemma_pow2_unfold(stack[0].1 + 1);
    let t = stack.drop_last();
    if t.len() > 0 {
        lemma_stacked_end(content, t, end - pow2(height));
        let above = stack[stack.len() - 2].1;
        assert(t.last().1 == above);
        lemma_pow2_le(height + 1, above);
        lemma_pow2_unfold(height + 1);
    } else {
        reveal_with_fuel(stacked, 2);
    }
}

/// A stack over `2^depth` blocks holds one tree.
proof fn lemma_stacked_full(content: Seq<u8>, stack: Seq<(Seq<u8>, nat)>, depth: nat)
    requires
        stacked(content, stack, pow2(depth) as int),
    ensures
        stack.len() == 1,
        stack[0].0 == subtree(content, 0, depth),
{
    lemma_pow2_pos(depth);
    assert(stack.len() > 0);
    lemma_stacked_end(content, stack, pow2(depth) as int);
    lemma_pow2_pos(stack.last().1);
    let top = stack[0].1;
    if top < depth {
        lemma_pow2_le(top + 1, depth);
    } else if depth < top {
        lemma_pow2_strictly_increases(depth, top);
    }
    assert(stack.len() == 1);
    reveal_with_fuel(stacked, 2);
    assert(stack.drop_last() =~= Seq::<(Seq<u8>, nat)>::empty());
}

/// The hash of two hashes.
fn hash_pair(a: &[u8; 32], b: &[u8; 32]) -> (r: [u8; 32])
    ensures
        r@ == sha256_of(a@ + b@),
{
    let mut both: Vec<u8> = Vec::with_capacity(64);
    both.extend_from_slice(a.as_slice());
    both.extend_from_slice(b.as_slice());
    assert(both@ =~= a@ + b@);
    sha256(&both)
}

/// A hash of zeros.
fn zero_hash() -> (r: [u8; 32])
    ensures
        r@ == zeros(32),
{
    let r: [u8; 32] = [0u8; 32];
    assert(r@ =~= zeros(32));
    r
}

/// The root of the tree of height `depth` over a chunk, with zeros behind its end.
fn compute_piece_root(chunk: &[u8], depth: u32) -> (r: [u8; 32])
    requires
        V2_BLOCK_SIZE * pow2(depth as nat) <= usize::MAX,
    ensures
        r@ == subtree(chunk@, 0, depth as nat),
{
    let blocks: usize = power(depth);
    let mut stack: Vec<([u8; 32], u32)> = Vec::new();
    let mut i: usize = 0;
    assert(stack_view(stack@) =~= Seq::<(Seq<u8>, nat)>::empty());
    while i < blocks
        invariant
            i <= blocks,
            blocks == pow2(depth as nat),
            V2_BLOCK_SIZE * pow2(depth as nat) <= usize::MAX,
            stacked(chunk@, stack_view(stack@), i as int),
        decreases blocks - i,
    {
        assert(i * V2_BLOCK_SIZE + V2_BLOCK_SIZE <= V2_BLOCK_SIZE * blocks) by (nonlinear_arith)
            requires
                i + 1 <= blocks,
        ;
        let start: usize = i * V2_BLOCK_SIZE;
        assert((i + 1) * V2_BLOCK_SIZE == start + V2_BLOCK_SIZE) by (nonlinear_arith)
            requires
                start == i * V2_BLOCK_SIZE,
        ;
        let leaf: [u8; 32] = if start < chunk.len() {
            let end: usize = if start + V2_BLOCK_SIZE <= chunk.len() {
                start + V2_BLOCK_SIZE
            } else {
                chunk.len()
            };
            sha256(vstd::slice::slice_subrange(chunk, start, end))
        } else {
            zero_hash()
        };
        let mut current: [u8; 32] = leaf;
        let mut height: u32 = 0;
        let ghost mut first: int = i as int;
        proof {
            lemma_pow2_zero();
        }
        while stack.len() > 0 && stack[stack.len() - 1].1 == height
            invariant
                stacked(chunk@, stack_view(stack@), first),
                current@ == subtree(chunk@, first, height as nat),
                first + pow2(height as nat) == i + 1,
                stack@.len() > 0 ==> stack@[stack@.len() - 1].1 >= height,
                i < blocks,
                blocks == pow2(depth as nat),
                0 <= first,
            decreases stack@.len(),
        {
            let ghost before = stack_view(stack@);
            let (prev, _) = stack.pop().unwrap();
            proof {
                assert(stack_view(stack@) =~= before.drop_last());
                assert(before.last() == (prev@, height as nat));
                if stack@.len() > 0 {
                    assert(before[before.len() - 2] == stack_view(stack@).last());
                }
                lemma_pow2_unfold((height + 1) as nat);
                first = first - pow2(height as nat);
                lemma_stacked_nonnegative(chunk@, stack_view(stack@), first);
                lemma_height_bound(height as nat, first + pow2(height as nat), i as int + 1);
            }
            current = hash_pair(&prev, &current);
            height = height + 1;
        }
        let ghost below = stack_view(stack@);
        stack.push((current, height));
        proof {
            let s = stack_view(stack@);
            assert(s.drop_last() =~= below);
            assert(s.last() == (current@, height as nat));
        }
        i = i + 1;
    }
    proof {
        lemma_stacked_full(chunk@, stack_view(stack@), depth as nat);
        assert(stack_view(stack@)[0].0 == stack@[0].0@);
    }
    stack[0].0
}

proof fn lemma_stacked_nonnegative(content: Seq<u8>, stack: Seq<(Seq<u8>, nat)>, end: int)
    requires
        stacked(content, stack, end),
    ensures
        end >= 0,
    decreases stack.len(),
{
    if stack.len() > 0 {
        lemma_stacked_nonnegative(content, stack.drop_last(), end - pow2(stack.last().1));
    }
}

/// A tree over blocks that can be counted is not too high.
proof fn lemma_height_bound(h: nat, start: int, end: int)
    requires
        0 <= start,
        start + pow2(h) == end,
        end <= usize::MAX,
    ensures
        h < 64,
{
    if h >= 64 {
        lemma_pow2_le(64, h);
        vstd::arithmetic::power2::lemma2_to64_rest();
        vstd::arithmetic::power2::lemma2_to64();
    }
}

/// Two to the power of `k`.
fn power(k: u32) -> (r: usize)
    requires
        pow2(k as nat) <= usize::MAX,
    ensures
        r == pow2(k as nat),
{
    let mut r: usize = 1;
    let mut i: u32 = 0;
    proof {
        lemma_pow2_zero();
    }
    while i < k
        invariant
            i <= k,
            r == pow2(i as nat),
            pow2(k as nat) <= usize::MAX,
        decreases k - i,
    {
        proof {
            lemma_pow2_unfold((i + 1) as nat);
            lemma_pow2_le((i + 1) as nat, k as nat);
        }
        r = 2 * r;
        i = i + 1;
    }
    r
}

/// The root of a tree of the given height over zeros.
fn empty_tree_hash(depth: u32) -> (r: [u8; 32])
    ensures
        r@ == zero_tree(depth as nat),
{
    let mut r: [u8; 32] = zero_hash();
    let mut i: u32 = 0;
    while i < depth
        invariant
            i <= depth,
            r@ == zero_tree(i as nat),
        decreases depth - i,
    {
        r = hash_pair(&r, &r);
        i = i + 1;
    }
    r
}

/// One layer up: the hashes of the pairs.
fn pair_up(layer: &Vec<[u8; 32]>) -> (r: Vec<[u8; 32]>)
    requires
        layer@.len() % 2 == 0,
    ensures
        2 * r@.len() == layer@.len(),
        forall|k: int|
            0 <= k < r@.len() ==> (#[trigger] r@[k])@ == sha256_of(
                layer@[2 * k]@ + layer@[2 * k + 1]@,
            ),
{
    let mut r: Vec<[u8; 32]> = Vec::with_capacity(layer.len() / 2);
    let mut i: usize = 0;
    while i < layer.len()
        invariant
            i <= layer@.len(),
            layer@.len() % 2 == 0,
            i == 2 * r@.len(),
            forall|k: int|
                0 <= k < r@.len() ==> (#[trigger] r@[k])@ == sha256_of(
                    layer@[2 * k]@ + layer@[2 * k + 1]@,
                ),
        decreases layer@.len() - i,
    {
        r.push(hash_pair(&layer[i], &layer[i + 1]));
        i = i + 2;
    }
    r
}

/// The root of the tree of height `height` over nodes that are the roots of trees of height
/// `level`.
fn reduce(layer: Vec<[u8; 32]>, level: u32, height: u32, Ghost(content): Ghost<Seq<u8>>) -> (r: [u8; 32])
    requires
        level <= height,
        layer@.len() == pow2((height - level) as nat),
        forall|k: int|
            0 <= k < layer@.len() ==> (#[trigger] layer@[k])@ == subtree(
                content,
                k * pow2(level as nat),
                level as nat,
            ),
    ensures
        r@ == subtree(content, 0, height as nat),
{
    let mut layer: Vec<[u8; 32]> = layer;
    let ghost mut level: int = level as int;
    proof {
        lemma_pow2_pos((height - level) as nat);
        lemma_pow2_zero();
    }
    while layer.len() > 1
        invariant
            0 <= level <= height,
            layer@.len() == pow2((height - level) as nat),
            layer@.len() >= 1,
            forall|k: int|
                0 <= k < layer@.len() ==> (#[trigger] layer@[k])@ == subtree(
                    content,
                    k * pow2(level as nat),
                    level as nat,
                ),
        decreases layer@.len(),
    {
        let ghost before = layer@;
        proof {
            lemma_pow2_zero();
            assert(level < height);
            lemma_pow2_unfold((height - level) as nat);
        }
        layer = pair_up(&layer);
        proof {
            let l = level as nat;
            lemma_pow2_unfold(l + 1);
            assert forall|k: int| 0 <= k < layer@.len() implies (#[trigger] layer@[k])@ == subtree(
                content,
                k * pow2(l + 1),
                l + 1,
            ) by {
                let p = pow2(l) as int;
                assert(k * (2 * p) == (2 * k) * p) by (nonlinear_arith);
                assert((2 * k + 1) * p == (2 * k) * p + p) by (nonlinear_arith);
                assert(before[2 * k]@ == subtree(content, (2 * k) * p, l));
                assert(before[2 * k + 1]@ == subtree(content, (2 * k + 1) * p, l));
            }
            level = level + 1;
        }
    }
    proof {
        if level < height {
            lemma_pow2_strictly_increases(0, (height - level) as nat);
            lemma_pow2_zero();
        }
        assert(0 * pow2(level as nat) == 0) by (nonlinear_arith);
    }
    layer[0]
}

/// What stands in the way of hashing a file of `len` bytes.
pub open spec fn hash_obstacle(len: u64) -> Option<Obstacle> {
    if len > 0 && V2_BLOCK_SIZE * pow2(tree_height(len as int)) > usize::MAX {
        Some(Obstacle::FileTooLarge(len))
    } else {
        None
    }
}

/// The largest file that has a tree: twice as many bytes cannot be counted any more.
pub const V2_MAX_LENGTH: u64 = 0x8000_0000_0000_0000;

/// The height of the tree of a file, and the number of bytes that it has room for.
fn measure_tree(len: u64) -> (r: (u32, u64))
    requires
        len <= V2_MAX_LENGTH,
    ensures
        r.0 == tree_height(len as int),
        r.1 == V2_BLOCK_SIZE * pow2(r.0 as nat),
        r.1 >= len,
        r.0 < 64,
        r.1 < 2 * len || r.1 == V2_BLOCK_SIZE,
{
    let mut padded: u64 = V2_BLOCK_SIZE as u64;
    let mut height: u32 = 0;
    proof {
        lemma_pow2_zero();
    }
    while padded < len
        invariant
            padded == V2_BLOCK_SIZE * pow2(height as nat),
            len <= V2_MAX_LENGTH,
            height > 0 ==> V2_BLOCK_SIZE * pow2((height - 1) as nat) < len,
            height == 0 ==> padded == V2_BLOCK_SIZE,
            height > 0 ==> padded == 2 * (V2_BLOCK_SIZE * pow2((height - 1) as nat)),
            height < 64,
        decreases 64 - height,
    {
        proof {
            lemma_pow2_unfold((height + 1) as nat);
            if height == 63 {
                lemma_height_large();
            }
        }
        padded = 2 * padded;
        height = height + 1;
    }
    proof {
        lemma_tree_height(len as int, height as nat);
    }
    (height, padded)
}

proof fn lemma_height_large()
    ensures
        V2_BLOCK_SIZE * pow2(63) > V2_MAX_LENGTH,
{
    vstd::arithmetic::power2::lemma2_to64_rest();
    vstd::arithmetic::power2::lemma2_to64();
}

/// The height of the tree over one piece.
fn measure_piece(piece_length: usize) -> (d: u32)
    requires
        is_power_of_two(piece_length as nat),
        piece_length >= V2_BLOCK_SIZE,
    ensures
        d == piece_height(piece_length as int),
        piece_length == V2_BLOCK_SIZE * pow2(d as nat),
{
    let ghost m: nat = choose|k: nat| piece_length as nat == #[trigger] pow2(k);
    let mut size: usize = V2_BLOCK_SIZE;
    let mut d: u32 = 0;
    proof {
        lemma_pow2_zero();
        vstd::arithmetic::power2::lemma2_to64();
        assert(pow2(14) == V2_BLOCK_SIZE);
        if m < 14 {
            lemma_pow2_strictly_increases(m, 14);
        }
    }
    while size < piece_length
        invariant
            piece_length == pow2(m),
            14 + d <= m,
            size == pow2((14 + d) as nat),
            size == V2_BLOCK_SIZE * pow2(d as nat),
            size <= piece_length,
            d < 64,
        decreases 64 - d,
    {
        proof {
            assert(14 + d != m);
            lemma_pow2_le((14 + d + 1) as nat, m);
            lemma_pow2_unfold((14 + d + 1) as nat);
            lemma_pow2_unfold((d + 1) as nat);
            if d == 63 {
                lemma_height_large();
            }
        }
        size = 2 * size;
        d = d + 1;
    }
    proof {
        lemma_piece_height(piece_length as int, d as nat);
    }
    d
}

/// The roots of the trees of height `depth` over the chunks that have bytes of the file.
fn chunk_roots(content: &[u8], chunk_size: usize, depth: u32) -> (r: Vec<[u8; 32]>)
    requires
        chunk_size == V2_BLOCK_SIZE * pow2(depth as nat),
    ensures
        r@.len() == piece_count(content@.len() as int, chunk_size as int),
        (r@.len() - 1) * chunk_size < content@.len(),
        content@.len() <= r@.len() * chunk_size,
        forall|k: int|
            0 <= k < r@.len() ==> (#[trigger] r@[k])@ == subtree(
                content@,
                k * pow2(depth as nat),
                depth as nat,
            ),
{
    let mut roots: Vec<[u8; 32]> = Vec::new();
    let mut start: usize = 0;
    let ghost len = content@.len() as int;
    let ghost size = chunk_size as int;
    proof {
        lemma_pow2_pos(depth as nat);
        assert(0 * size == 0) by (nonlinear_arith);
        assert(-1 * size < 0) by (nonlinear_arith)
            requires
                size > 0,
        ;
        assert(len == content.len());
    }
    while start < content.len()
        invariant
            start <= len,
            len == content@.len(),
            len == content.len(),
            size == chunk_size,
            size == V2_BLOCK_SIZE * pow2(depth as nat),
            size > 0,
            start < len ==> start == roots@.len() * size,
            start == len ==> roots@.len() * size >= len,
            (roots@.len() - 1) * size < len,
            forall|k: int|
                0 <= k < roots@.len() ==> (#[trigger] roots@[k])@ == subtree(
                    content@,
                    k * pow2(depth as nat),
                    depth as nat,
                ),
        decreases len - start,
    {
        let end: usize = if content.len() - start > chunk_size {
            start + chunk_size
        } else {
            content.len()
        };
        proof {
            let j = roots@.len() as int;
            assert((j + 1) * size == j * size + size) by (nonlinear_arith);
            lemma_chunk_tree(content@, j, depth as nat);
            assert(end == piece_end(len, size, j));
        }
        roots.push(compute_piece_root(vstd::slice::slice_subrange(content, start, end), depth));
        start = end;
    }
    proof {
        let j = roots@.len() as int;
        assert((j - 1) * size == j * size - size) by (nonlinear_arith);
        lemma_fundamental_div_mod_converse(len + size - 1, size, j, len + size - 1 - j * size);
    }
    roots
}

/// The hashes of a file.
pub fn v2_file_hashes(content: &[u8], piece_length: usize) -> (r: Result<V2FileHashes, Error>)
    requires
        is_power_of_two(piece_length as nat),
        piece_length >= V2_BLOCK_SIZE,
        content@.len() <= V2_MAX_LENGTH,
    ensures
        match r {
            Ok(hashes) => hash_obstacle(content@.len() as u64) is None && hashes@ == file_hashes(
                content@,
                piece_length as int,
            ),
            Err(e) => hash_obstacle(content@.len() as u64) == Some(e@),
        },
{
    assert(content@.len() == content.len());
    if content.len() == 0 {
        return Ok(V2FileHashes::Empty);
    }
    let (height, padded) = measure_tree(content.len() as u64);
    if padded > usize::MAX as u64 {
        return Err(Error::FileTooLarge(content.len() as u64));
    }
    let d: u32 = measure_piece(piece_length);
    let depth: u32 = if d <= height {
        d
    } else {
        height
    };
    let chunk_size: usize = if d <= height {
        piece_length
    } else {
        padded as usize
    };
    let roots: Vec<[u8; 32]> = chunk_roots(content, chunk_size, depth);
    let ghost len = content@.len() as int;
    let ghost size = chunk_size as int;
    let count: usize;
    proof {
        let k = (height - depth) as nat;
        lemma_pow2_adds(k, depth as nat);
        lemma_pow2_pos(depth as nat);
        lemma_pow2_pos(k);
        let p = pow2(k) as int;
        let q = pow2(depth as nat) as int;
        assert(p * (V2_BLOCK_SIZE * q) == V2_BLOCK_SIZE * (p * q)) by (nonlinear_arith);
        assert(p * size == padded);
        assert(p <= p * size) by (nonlinear_arith)
            requires
                p >= 0,
                size >= 1,
        ;
        let j = roots@.len() as int;
        assert(j - 1 < p) by (nonlinear_arith)
            requires
                (j - 1) * size < p * size,
                size > 0,
        ;
    }
    count = power(height - depth);
    let pad: [u8; 32] = empty_tree_hash(depth);
    let mut layer: Vec<[u8; 32]> = Vec::with_capacity(count);
    let mut i: usize = 0;
    while i < count
        invariant
            i <= count,
            layer@.len() == i,
            pad@ == zero_tree(depth as nat),
            size == V2_BLOCK_SIZE * pow2(depth as nat),
            size > 0,
            content@.len() <= roots@.len() * size,
            forall|k: int|
                0 <= k < roots@.len() ==> (#[trigger] roots@[k])@ == subtree(
                    content@,
                    k * pow2(depth as nat),
                    depth as nat,
                ),
            forall|k: int|
                0 <= k < i ==> (#[trigger] layer@[k])@ == subtree(
                    content@,
                    k * pow2(depth as nat),
                    depth as nat,
                ),
        decreases count - i,
    {
        if i < roots.len() {
            layer.push(roots[i]);
        } else {
            proof {
                let q = pow2(depth as nat) as int;
                let j = roots@.len() as int;
                assert((i * q) * V2_BLOCK_SIZE >= j * size) by (nonlinear_arith)
                    requires
                        i >= j,
                        size == V2_BLOCK_SIZE * q,
                        size > 0,
                ;
                lemma_zero_tree(content@, i * q, depth as nat);
            }
            layer.push(pad);
        }
        i = i + 1;
    }
    let root: [u8; 32] = reduce(layer, depth, height, Ghost(content@));
    if content.len() > piece_length {
        proof {
            if d > height {
                lemma_pow2_le(height as nat, d as nat);
            }
            assert(arrays(roots@) =~= piece_layer(content@, piece_length as int));
        }
        Ok(V2FileHashes::MultiPiece { root, layer: roots })
    } else {
        Ok(V2FileHashes::SinglePiece { root })
    }
}

/// The root of the tree of the given height over some nodes, with `pad` behind the last one.
pub open spec fn tree_over(nodes: Seq<Seq<u8>>, pad: Seq<u8>, first: int, height: nat) -> Seq<u8>
    decreases height,
{
    if height == 0 {
        if first < nodes.len() {
            nodes[first]
        } else {
            pad
        }
    } else {
        let h = (height - 1) as nat;
        sha256_of(tree_over(nodes, pad, first, h) + tree_over(nodes, pad, first + pow2(h), h))
    }
}

proof fn lemma_tree_over(content: Seq<u8>, piece_length: int, d: nat, first: int, k: nat)
    requires
        piece_length == V2_BLOCK_SIZE * pow2(d),
        first >= 0,
    ensures
        tree_over(piece_layer(content, piece_length), zero_tree(d), first, k) == subtree(
            content,
            first * pow2(d),
            d + k,
        ),
    decreases k,
{
    lemma_piece_height(piece_length, d);
    lemma_pow2_pos(d);
    let len = content.len() as int;
    let q = pow2(d) as int;
    if k == 0 {
        let count = piece_count(len, piece_length);
        lemma_fundamental_div_mod(len + piece_length - 1, piece_length);
        lemma_mod_bound(len + piece_length - 1, piece_length);
        assert(piece_length * count == count * piece_length) by (nonlinear_arith);
        assert(count >= 0) by (nonlinear_arith)
            requires
                piece_length > 0,
                piece_length * count > -1 * piece_length,
        ;
        if first >= count {
            assert((first * q) * V2_BLOCK_SIZE >= count * piece_length) by (nonlinear_arith)
                requires
                    first >= count,
                    piece_length == V2_BLOCK_SIZE * q,
                    piece_length > 0,
            ;
            lemma_zero_tree(content, first * q, d);
        }
    } else {
        let h = (k - 1) as nat;
        lemma_pow2_pos(h);
        lemma_tree_over(content, piece_length, d, first, h);
        lemma_tree_over(content, piece_length, d, first + pow2(h), h);
        lemma_pow2_adds(h, d);
        let p = pow2(h) as int;
        assert((first + p) * q == first * q + p * q) by (nonlinear_arith);
    }
}

/// The piece layer of a file leads to its root: the hashes of the layer, padded with the roots of
/// empty pieces, are the nodes of a tree with the same root as the tree over the blocks.
pub proof fn law_piece_layer_leads_to_root(content: Seq<u8>, piece_length: int)
    requires
        is_power_of_two(piece_length as nat),
        piece_length >= V2_BLOCK_SIZE,
        content.len() > piece_length,
    ensures
        piece_height(piece_length) < tree_height(content.len() as int),
        tree_over(
            piece_layer(content, piece_length),
            zero_tree(piece_height(piece_length)),
            0,
            (tree_height(content.len() as int) - piece_height(piece_length)) as nat,
        ) == file_root(content),
{
    let len = content.len() as int;
    let m = choose|k: nat| piece_length as nat == #[trigger] pow2(k);
    vstd::arithmetic::power2::lemma2_to64();
    assert(pow2(14) == V2_BLOCK_SIZE);
    if m < 14 {
        lemma_pow2_strictly_increases(m, 14);
    }
    let d = (m - 14) as nat;
    lemma_pow2_adds(14, d);
    lemma_piece_height(piece_length, d);
    lemma_pow2_exceeds(len as nat);
    lemma_has_tree_height(len, len as nat);
    let h = tree_height(len);
    if h <= d {
        lemma_pow2_le(h, d);
    }
    lemma_tree_over(content, piece_length, d, 0, (h - d) as nat);
    assert(0 * pow2(d) == 0) by (nonlinear_arith);
}

proof fn lemma_pow2_exceeds(n: nat)
    ensures
        pow2(n) > n,
    decreases n,
{
    lemma_pow2_zero();
    if n > 0 {
        lemma_pow2_unfold(n);
        lemma_pow2_exceeds((n - 1) as nat);
    }
}

/// Every file has a tree.
pub proof fn lemma_has_tree_height(len: int, up_to: nat)
    requires
        V2_BLOCK_SIZE * pow2(up_to) >= len,
    ensures
        is_tree_height(len, tree_height(len)),
    decreases up_to,
{
    if is_tree_height(len, up_to) {
        lemma_tree_height(len, up_to);
    } else {
        lemma_has_tree_height(len, (up_to - 1) as nat);
    }
}

} // verus!
