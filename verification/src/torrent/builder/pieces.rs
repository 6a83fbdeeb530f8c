//! V1 pieces: all files are one stream of bytes, cut into pieces of equal length.
use vstd::arithmetic::div_mod::{
    lemma_fundamental_div_mod, lemma_fundamental_div_mod_converse, lemma_mod_bound,
};
use vstd::prelude::*;

use crate::chunks::arrays;
use crate::digest::{sha1, sha1_of};
use crate::sorting::views;
use crate::torrent::builder::error::{Error, Obstacle};

verus! {

/// A part of the stream: the content of a file, or padding.
#[derive(Debug, Clone, Copy)]
pub enum Source<'c> {
    /// The content of a file.
    Bytes(&'c [u8]),
    /// As many zeros.
    Zeros(u64),
}

impl<'c> View for Source<'c> {
    type V = Seq<u8>;

    open spec fn view(&self) -> Seq<u8> {
        match self {
            Source::Bytes(s) => s@,
            Source::Zeros(n) => zeros(*n as nat),
        }
    }
}

/// As many zeros.
pub open spec fn zeros(n: nat) -> Seq<u8> {
    Seq::new(n, |i: int| 0u8)
}

/// The stream that some parts make up.
pub open spec fn stream(parts: Seq<Seq<u8>>) -> Seq<u8>
    decreases parts.len(),
{
    if parts.len() == 0 {
        Seq::empty()
    } else {
        stream(parts.drop_last()) + parts.last()
    }
}

/// The number of pieces of length `n` that `len` bytes make up, the last of which may be shorter.
pub open spec fn piece_count(len: int, n: int) -> int {
    (len + n - 1) / n
}

/// Where piece `i` ends.
pub open spec fn piece_end(len: int, n: int, i: int) -> int {
    if (i + 1) * n <= len {
        (i + 1) * n
    } else {
        len
    }
}

/// The pieces of length `n` that `s` is cut into, the last of which may be shorter.
pub open spec fn pieces(s: Seq<u8>, n: int) -> Seq<Seq<u8>> {
    Seq::new(
        piece_count(s.len() as int, n) as nat,
        |i: int| s.subrange(i * n, piece_end(s.len() as int, n, i)),
    )
}

/// The hashes of the pieces of a stream.
pub open spec fn piece_hashes(s: Seq<u8>, n: int) -> Seq<Seq<u8>> {
    Seq::new(pieces(s, n).len(), |i: int| sha1_of(pieces(s, n)[i]))
}

/// A part of a piece: `length` bytes of a source from `offset` on.
#[derive(Debug, Clone, Copy)]
pub struct ChunkPlan {
    /// The index of the source.
    pub source: usize,
    /// Where the bytes start in the source.
    pub offset: usize,
    /// The number of bytes.
    pub length: usize,
}

/// Where a source starts in the stream.
pub open spec fn start_of(lengths: Seq<nat>, i: int) -> int
    decreases i,
{
    if i <= 0 {
        0
    } else {
        start_of(lengths, i - 1) + lengths[i - 1]
    }
}

/// A chunk stands for the bytes of the stream between `from` and `to`, all of one source.
pub open spec fn covers(lengths: Seq<nat>, chunk: ChunkPlan, from: int, to: int) -> bool {
    &&& chunk.source < lengths.len()
    &&& chunk.offset + chunk.length <= lengths[chunk.source as int]
    &&& from == start_of(lengths, chunk.source as int) + chunk.offset
    &&& to == from + chunk.length
}

/// Some chunks stand for the bytes of the stream between `from` and `to`, one behind the other.
pub open spec fn tiles(lengths: Seq<nat>, plan: Seq<ChunkPlan>, from: int, to: int) -> bool
    decreases plan.len(),
{
    if plan.len() == 0 {
        from == to
    } else {
        let middle = to - plan.last().length;
        &&& tiles(lengths, plan.drop_last(), from, middle)
        &&& covers(lengths, plan.last(), middle, to)
    }
}

/// The lengths of some parts.
pub open spec fn lengths_of(parts: Seq<Seq<u8>>) -> Seq<nat> {
    Seq::new(parts.len(), |i: int| parts[i].len())
}

/// The bytes that a chunk stands for.
pub open spec fn chunk_bytes(parts: Seq<Seq<u8>>, chunk: ChunkPlan) -> Seq<u8> {
    parts[chunk.source as int].subrange(chunk.offset as int, chunk.offset + chunk.length)
}

/// The bytes that some chunks stand for.
pub open spec fn plan_bytes(parts: Seq<Seq<u8>>, plan: Seq<ChunkPlan>) -> Seq<u8>
    decreases plan.len(),
{
    if plan.len() == 0 {
        Seq::empty()
    } else {
        plan_bytes(parts, plan.drop_last()) + chunk_bytes(parts, plan.last())
    }
}

/// A part of the stream stands where the parts before it end.
pub proof fn lemma_part_in_stream(parts: Seq<Seq<u8>>, i: int)
    requires
        0 <= i < parts.len(),
    ensures
        0 <= start_of(lengths_of(parts), i),
        start_of(lengths_of(parts), i) + parts[i].len() <= stream(parts).len(),
        stream(parts).subrange(
            start_of(lengths_of(parts), i),
            start_of(lengths_of(parts), i) + parts[i].len(),
        ) == parts[i],
    decreases parts.len(),
{
    let t = parts.drop_last();
    lemma_stream_len(t);
    lemma_starts_agree(lengths_of(t), lengths_of(parts), i);
    if i == parts.len() - 1 {
        assert(stream(parts).subrange(stream(t).len() as int, stream(parts).len() as int)
            =~= parts[i]);
    } else {
        lemma_part_in_stream(t, i);
        let a = start_of(lengths_of(parts), i);
        assert(stream(parts).subrange(a, a + parts[i].len()) =~= stream(t).subrange(
            a,
            a + parts[i].len(),
        ));
    }
}

proof fn lemma_starts_agree(a: Seq<nat>, b: Seq<nat>, i: int)
    requires
        i <= a.len(),
        i <= b.len(),
        forall|k: int| 0 <= k < i ==> a[k] == b[k],
    ensures
        start_of(a, i) == start_of(b, i),
    decreases i,
{
    if i > 0 {
        lemma_starts_agree(a, b, i - 1);
    }
}

/// A stream is as long as its parts together.
pub proof fn lemma_stream_len(parts: Seq<Seq<u8>>)
    ensures
        stream(parts).len() == start_of(lengths_of(parts), parts.len() as int),
    decreases parts.len(),
{
    if parts.len() > 0 {
        lemma_stream_len(parts.drop_last());
        lemma_starts_agree(
            lengths_of(parts.drop_last()),
            lengths_of(parts),
            parts.len() - 1,
        );
    }
}

/// Chunks that tile a range of the stream stand for its bytes.
pub proof fn lemma_tiles_bytes(parts: Seq<Seq<u8>>, plan: Seq<ChunkPlan>, from: int, to: int)
    requires
        tiles(lengths_of(parts), plan, from, to),
        0 <= from <= stream(parts).len(),
    ensures
        from <= to <= stream(parts).len(),
        plan_bytes(parts, plan) == stream(parts).subrange(from, to),
    decreases plan.len(),
{
    let s = stream(parts);
    if plan.len() == 0 {
        assert(s.subrange(from, to) =~= Seq::<u8>::empty());
    } else {
        let chunk = plan.last();
        let middle = to - chunk.length;
        lemma_tiles_bytes(parts, plan.drop_last(), from, middle);
        let i = chunk.source as int;
        lemma_part_in_stream(parts, i);
        let a = start_of(lengths_of(parts), i);
        assert(chunk_bytes(parts, chunk) =~= s.subrange(a, a + parts[i].len()).subrange(
            chunk.offset as int,
            chunk.offset + chunk.length,
        ));
        assert(chunk_bytes(parts, chunk) =~= s.subrange(middle, to));
        assert(s.subrange(from, middle) + s.subrange(middle, to) =~= s.subrange(from, to));
    }
}

/// The plans of the pieces: plan `i` tiles piece `i`.
pub open spec fn plans_pieces(lengths: Seq<nat>, plans: Seq<Vec<ChunkPlan>>, n: int) -> bool {
    let total = start_of(lengths, lengths.len() as int);
    &&& plans.len() == piece_count(total, n)
    &&& forall|i: int|
        0 <= i < plans.len() ==> tiles(
            lengths,
            (#[trigger] plans[i])@,
            i * n,
            piece_end(total, n, i),
        )
}

/// How many pieces `q` full pieces and a rest of `r` bytes are.
pub proof fn lemma_piece_count(total: int, n: int, q: int, r: int)
    requires
        n > 0,
        q >= 0,
        0 <= r < n,
        total == q * n + r,
    ensures
        piece_count(total, n) == q + if r > 0 {
            1int
        } else {
            0int
        },
        forall|i: int| 0 <= i < q ==> #[trigger] piece_end(total, n, i) == (i + 1) * n,
        r > 0 ==> piece_end(total, n, q) == total,
{
    if r > 0 {
        assert(total + n - 1 == (q + 1) * n + (r - 1)) by (nonlinear_arith)
            requires
                total == q * n + r,
        ;
        lemma_fundamental_div_mod_converse(total + n - 1, n, q + 1, r - 1);
        assert((q + 1) * n > total) by (nonlinear_arith)
            requires
                total == q * n + r,
                r < n,
        ;
    } else {
        assert(total + n - 1 == q * n + (n - 1));
        lemma_fundamental_div_mod_converse(total + n - 1, n, q, n - 1);
    }
    assert forall|i: int| 0 <= i < q implies #[trigger] piece_end(total, n, i) == (i + 1) * n by {
        assert((i + 1) * n <= q * n) by (nonlinear_arith)
            requires
                i + 1 <= q,
                n > 0,
        ;
    }
}

/// The first length that does not fit in the address space.
pub open spec fn first_too_large(lengths: Seq<u64>) -> Option<u64>
    decreases lengths.len(),
{
    if lengths.len() == 0 {
        None
    } else {
        match first_too_large(lengths.drop_last()) {
            Some(n) => Some(n),
            None => if lengths.last() > usize::MAX {
                Some(lengths.last())
            } else {
                None
            },
        }
    }
}

/// The lengths as numbers.
pub open spec fn numbers(lengths: Seq<u64>) -> Seq<nat> {
    Seq::new(lengths.len(), |i: int| lengths[i] as nat)
}

/// The sum of some lengths.
pub open spec fn total(lengths: Seq<u64>) -> int {
    start_of(numbers(lengths), lengths.len() as int)
}

/// What stands in the way of cutting files of the given lengths into pieces.
pub open spec fn plan_obstacle(lengths: Seq<u64>, n: usize) -> Option<Obstacle> {
    if total(lengths) == 0 {
        None
    } else if piece_count(total(lengths), n as int) > usize::MAX {
        Some(Obstacle::PieceLengthTooSmall(n as int))
    } else {
        match first_too_large(lengths) {
            Some(l) => Some(Obstacle::FileTooLarge(l)),
            None => None,
        }
    }
}

proof fn lemma_start_monotonic(lengths: Seq<nat>, i: int, j: int)
    requires
        0 <= i <= j,
    ensures
        0 <= start_of(lengths, i) <= start_of(lengths, j),
    decreases j,
{
    if i < j {
        lemma_start_monotonic(lengths, i, j - 1);
    } else if i > 0 {
        lemma_start_monotonic(lengths, i - 1, i - 1);
    }
}

proof fn lemma_too_large_stays(lengths: Seq<u64>, k: int)
    requires
        0 <= k <= lengths.len(),
        first_too_large(lengths.take(k)) is Some,
    ensures
        first_too_large(lengths) == first_too_large(lengths.take(k)),
    decreases lengths.len() - k,
{
    if k < lengths.len() {
        assert(lengths.take(k + 1).drop_last() =~= lengths.take(k));
        lemma_too_large_stays(lengths, k + 1);
    } else {
        assert(lengths.take(k) =~= lengths);
    }
}

/// The sum of some lengths, if it fits.
pub fn checked_total(lengths: &[u64]) -> (r: Option<u64>)
    ensures
        match r {
            Some(n) => n == total(lengths@),
            None => total(lengths@) > u64::MAX,
        },
{
    let ghost nums = numbers(lengths@);
    let mut sum: u64 = 0;
    let mut i: usize = 0;
    while i < lengths.len()
        invariant
            i <= lengths@.len(),
            nums == numbers(lengths@),
            sum == start_of(nums, i as int),
        decreases lengths@.len() - i,
    {
        proof {
            lemma_start_monotonic(nums, i + 1, lengths@.len() as int);
        }
        match sum.checked_add(lengths[i]) {
            Some(n) => {
                sum = n;
            },
            None => return None,
        }
        i = i + 1;
    }
    Some(sum)
}

/// Plans the pieces of length `piece_length` of files of the given lengths.
pub fn plan_pieces(lengths: &[u64], piece_length: usize) -> (r: Result<Vec<Vec<ChunkPlan>>, Error>)
    requires
        piece_length > 0,
        total(lengths@) <= u64::MAX,
    ensures
        match r {
            Ok(plans) => plan_obstacle(lengths@, piece_length) is None && plans_pieces(
                numbers(lengths@),
                plans@,
                piece_length as int,
            ),
            Err(e) => plan_obstacle(lengths@, piece_length) == Some(e@),
        },
{
    let ghost nums = numbers(lengths@);
    let ghost n = piece_length as int;
    let sum: u64 = match checked_total(lengths) {
        Some(sum) => sum,
        None => 0,
    };
    let mut plans: Vec<Vec<ChunkPlan>> = Vec::new();
    if sum == 0 {
        proof {
            lemma_piece_count(0, n, 0, 0);
        }
        return Ok(plans);
    }
    let full: u64 = (sum - 1) / (piece_length as u64);
    proof {
        let q = full as int;
        let r = (sum - 1) % (piece_length as int);
        lemma_fundamental_div_mod(sum - 1, n);
        lemma_mod_bound(sum - 1, n);
        assert(n * q == q * n) by (nonlinear_arith);
        if r + 1 < n {
            lemma_piece_count(sum as int, n, q, r + 1);
        } else {
            assert((q + 1) * n == q * n + n) by (nonlinear_arith);
            lemma_piece_count(sum as int, n, q + 1, 0);
        }
        assert(piece_count(sum as int, n) == full + 1);
    }
    if full >= usize::MAX as u64 {
        return Err(Error::PieceLengthTooSmall(piece_length));
    }
    let mut current: Vec<ChunkPlan> = Vec::new();
    let mut filled: usize = 0;
    let mut i: usize = 0;
    assert(lengths@.take(0) =~= Seq::<u64>::empty());
    assert(0 * n == 0) by (nonlinear_arith);
    assert(plans@.len() * n == 0 * n);
    while i < lengths.len()
        invariant
            i <= lengths@.len(),
            nums == numbers(lengths@),
            n == piece_length,
            piece_length > 0,
            total(lengths@) != 0,
            piece_count(total(lengths@), n) <= usize::MAX,
            first_too_large(lengths@.take(i as int)) is None,
            filled < piece_length,
            plans@.len() * n + filled == start_of(nums, i as int),
            forall|k: int|
                0 <= k < plans@.len() ==> tiles(
                    nums,
                    (#[trigger] plans@[k])@,
                    k * n,
                    (k + 1) * n,
                ),
            tiles(nums, current@, plans@.len() * n, plans@.len() * n + filled),
        decreases lengths@.len() - i,
    {
        let length: u64 = lengths[i];
        proof {
            let t = lengths@.take(i + 1);
            assert(t.drop_last() =~= lengths@.take(i as int));
            assert(t.last() == length);
            if length > usize::MAX {
                lemma_too_large_stays(lengths@, i + 1);
            }
        }
        if length > usize::MAX as u64 {
            return Err(Error::FileTooLarge(length));
        }
        let mut remaining: usize = length as usize;
        let mut offset: usize = 0;
        while remaining > 0
            invariant
                i < lengths@.len(),
                nums == numbers(lengths@),
                n == piece_length,
                piece_length > 0,
                filled < piece_length,
                offset + remaining == nums[i as int],
                nums[i as int] <= usize::MAX,
                plans@.len() * n + filled == start_of(nums, i as int) + offset,
                forall|k: int|
                    0 <= k < plans@.len() ==> tiles(
                        nums,
                        (#[trigger] plans@[k])@,
                        k * n,
                        (k + 1) * n,
                    ),
                tiles(nums, current@, plans@.len() * n, plans@.len() * n + filled),
            decreases remaining,
        {
            let space: usize = piece_length - filled;
            let take: usize = if remaining < space {
                remaining
            } else {
                space
            };
            let ghost before = current@;
            current.push(ChunkPlan { source: i, offset, length: take });
            proof {
                assert(current@.drop_last() =~= before);
            }
            remaining = remaining - take;
            offset = offset + take;
            filled = filled + take;
            if filled == piece_length {
                let ghost done = current@;
                let ghost k = plans@.len() as int;
                assert(k * n + n == (k + 1) * n) by (nonlinear_arith);
                plans.push(current);
                current = Vec::new();
                filled = 0;
                assert(plans@.len() == k + 1);
            }
        }
        i = i + 1;
    }
    assert(lengths@.take(i as int) =~= lengths@);
    let ghost q = plans@.len() as int;
    proof {
        lemma_piece_count(total(lengths@), n, q, filled as int);
    }
    if filled > 0 {
        plans.push(current);
    }
    proof {
        assert forall|k: int| 0 <= k < plans@.len() implies tiles(
            nums,
            (#[trigger] plans@[k])@,
            k * n,
            piece_end(total(lengths@), n, k),
        ) by {
            if k < q {
                assert(piece_end(total(lengths@), n, k) == (k + 1) * n);
            }
        }
    }
    Ok(plans)
}

/// The bytes that some chunks stand for.
fn gather<'c>(sources: &[Source<'c>], plan: &[ChunkPlan]) -> (r: Vec<u8>)
    requires
        forall|k: int|
            0 <= k < plan@.len() ==> (#[trigger] plan@[k]).source < sources@.len()
                && plan@[k].offset + plan@[k].length <= sources@[plan@[k].source as int]@.len(),
    ensures
        r@ == plan_bytes(views(sources@), plan@),
{
    let mut r: Vec<u8> = Vec::new();
    let mut i: usize = 0;
    assert(plan@.take(0) =~= Seq::<ChunkPlan>::empty());
    while i < plan.len()
        invariant
            i <= plan@.len(),
            forall|k: int|
                0 <= k < plan@.len() ==> (#[trigger] plan@[k]).source < sources@.len()
                    && plan@[k].offset + plan@[k].length
                    <= sources@[plan@[k].source as int]@.len(),
            r@ == plan_bytes(views(sources@), plan@.take(i as int)),
        decreases plan@.len() - i,
    {
        let chunk: ChunkPlan = plan[i];
        let ghost before = r@;
        proof {
            let t = plan@.take(i + 1);
            assert(t.drop_last() =~= plan@.take(i as int));
            assert(t.last() == chunk);
        }
        match sources[chunk.source] {
            Source::Bytes(s) => {
                assert(s@.len() == s.len());
                r.extend_from_slice(
                    vstd::slice::slice_subrange(s, chunk.offset, chunk.offset + chunk.length),
                );
                assert(r@ =~= before + chunk_bytes(views(sources@), chunk));
            },
            Source::Zeros(_) => {
                let mut k: usize = 0;
                assert(r@ =~= before + zeros(0));
                while k < chunk.length
                    invariant
                        k <= chunk.length,
                        r@ == before + zeros(k as nat),
                    decreases chunk.length - k,
                {
                    r.push(0);
                    k = k + 1;
                    assert(r@ =~= before + zeros(k as nat));
                }
                assert(zeros(chunk.length as nat) =~= chunk_bytes(views(sources@), chunk));
            },
        }
        i = i + 1;
    }
    assert(plan@.take(i as int) =~= plan@);
    r
}

/// The chunks of a plan lie within their sources.
proof fn lemma_tiles_in_sources(lengths: Seq<nat>, plan: Seq<ChunkPlan>, from: int, to: int)
    requires
        tiles(lengths, plan, from, to),
    ensures
        forall|k: int|
            0 <= k < plan.len() ==> (#[trigger] plan[k]).source < lengths.len()
                && plan[k].offset + plan[k].length <= lengths[plan[k].source as int],
    decreases plan.len(),
{
    if plan.len() > 0 {
        lemma_tiles_in_sources(
            lengths,
            plan.drop_last(),
            from,
            to - plan.last().length,
        );
        assert forall|k: int| 0 <= k < plan.len() implies (#[trigger] plan[k]).source
            < lengths.len() && plan[k].offset + plan[k].length
            <= lengths[plan[k].source as int] by {
            if k < plan.len() - 1 {
                assert(plan.drop_last()[k] == plan[k]);
            }
        }
    }
}

/// The lengths of some sources.
fn source_lengths(sources: &[Source<'_>]) -> (r: Vec<u64>)
    ensures
        numbers(r@) == lengths_of(views(sources@)),
        r@.len() == sources@.len(),
        r@ == lengths_u64(views(sources@)),
{
    let mut r: Vec<u64> = Vec::with_capacity(sources.len());
    let mut i: usize = 0;
    while i < sources.len()
        invariant
            i <= sources@.len(),
            r@.len() == i,
            forall|k: int| 0 <= k < i ==> #[trigger] r@[k] == sources@[k]@.len(),
        decreases sources@.len() - i,
    {
        match sources[i] {
            Source::Bytes(s) => {
                assert(s@.len() == s.len());
                r.push(s.len() as u64);
            },
            Source::Zeros(n) => r.push(n),
        }
        i = i + 1;
    }
    assert(numbers(r@) =~= lengths_of(views(sources@)));
    assert(r@ =~= lengths_u64(views(sources@)));
    r
}

/// The lengths of some parts.
pub open spec fn lengths_u64(parts: Seq<Seq<u8>>) -> Seq<u64> {
    Seq::new(parts.len(), |i: int| parts[i].len() as u64)
}

/// The SHA-1 hashes of the pieces of the stream that some sources make up.
pub fn v1_piece_hashes(sources: &[Source<'_>], piece_length: usize) -> (r: Result<
    Vec<[u8; 20]>,
    Error,
>)
    requires
        piece_length > 0,
        stream(views(sources@)).len() <= u64::MAX,
    ensures
        match r {
            Ok(hashes) => plan_obstacle(lengths_u64(views(sources@)), piece_length) is None
                && arrays(hashes@) == piece_hashes(stream(views(sources@)), piece_length as int),
            Err(e) => plan_obstacle(lengths_u64(views(sources@)), piece_length) == Some(e@),
        },
{
    let ghost parts = views(sources@);
    let ghost s = stream(parts);
    let ghost n = piece_length as int;
    let lengths: Vec<u64> = source_lengths(sources);
    proof {
        lemma_stream_len(parts);
    }
    let plans: Vec<Vec<ChunkPlan>> = match plan_pieces(&lengths, piece_length) {
        Ok(plans) => plans,
        Err(e) => return Err(e),
    };
    let mut hashes: Vec<[u8; 20]> = Vec::with_capacity(plans.len());
    let mut i: usize = 0;
    while i < plans.len()
        invariant
            i <= plans@.len(),
            n == piece_length,
            n > 0,
            parts == views(sources@),
            s == stream(parts),
            s.len() == start_of(lengths_of(parts), parts.len() as int),
            plans_pieces(lengths_of(parts), plans@, n),
            hashes@.len() == i,
            forall|k: int| 0 <= k < i ==> (#[trigger] hashes@[k])@ == sha1_of(pieces(s, n)[k]),
        decreases plans@.len() - i,
    {
        let ghost from = i * n;
        let ghost to = piece_end(s.len() as int, n, i as int);
        proof {
            assert(tiles(lengths_of(parts), plans@[i as int]@, from, to));
            lemma_piece_start(s.len() as int, n, i as int);
            lemma_tiles_in_sources(lengths_of(parts), plans@[i as int]@, from, to);
            lemma_tiles_bytes(parts, plans@[i as int]@, from, to);
            assert forall|k: int|
                0 <= k < plans@[i as int]@.len() implies (#[trigger] plans@[i as int]@[k]).source
                < sources@.len() && plans@[i as int]@[k].offset + plans@[i as int]@[k].length
                <= sources@[plans@[i as int]@[k].source as int]@.len() by {
                assert(lengths_of(parts)[plans@[i as int]@[k].source as int]
                    == sources@[plans@[i as int]@[k].source as int]@.len());
            }
        }
        let bytes: Vec<u8> = gather(sources, &plans[i]);
        assert(bytes@ == pieces(s, n)[i as int]);
        hashes.push(sha1(&bytes));
        i = i + 1;
    }
    assert(arrays(hashes@) =~= piece_hashes(s, n));
    Ok(hashes)
}

/// A piece starts within the stream.
pub proof fn lemma_piece_start(len: int, n: int, i: int)
    requires
        n > 0,
        len >= 0,
        0 <= i < piece_count(len, n),
    ensures
        0 <= i * n < len,
        i * n < piece_end(len, n, i) <= len,
        piece_end(len, n, i) - i * n <= n,
{
    lemma_fundamental_div_mod(len + n - 1, n);
    lemma_mod_bound(len + n - 1, n);
    let q = piece_count(len, n);
    assert(i * n + n <= q * n) by (nonlinear_arith)
        requires
            i + 1 <= q,
            n > 0,
    ;
    assert(n * q == q * n) by (nonlinear_arith);
    assert(0 <= i * n) by (nonlinear_arith)
        requires
            0 <= i,
            n > 0,
    ;
    assert((i + 1) * n == i * n + n) by (nonlinear_arith);
}

/// The pieces of a stream, one behind the other, are the stream.
pub proof fn law_pieces_make_up_stream(s: Seq<u8>, n: int)
    requires
        n > 0,
    ensures
        stream(pieces(s, n)) == s,
        forall|i: int|
            0 <= i < pieces(s, n).len() - 1 ==> (#[trigger] pieces(s, n)[i]).len() == n,
        forall|i: int| 0 <= i < pieces(s, n).len() ==> 0 < (#[trigger] pieces(s, n)[i]).len() <= n,
{
    let count = piece_count(s.len() as int, n);
    lemma_fundamental_div_mod(s.len() + n - 1, n);
    lemma_mod_bound(s.len() + n - 1, n);
    assert(n * count == count * n) by (nonlinear_arith);
    assert(count >= 0) by (nonlinear_arith)
        requires
            n > 0,
            n * count > -1 * n,
    ;
    assert forall|i: int| 0 <= i < count implies 0 < (#[trigger] pieces(s, n)[i]).len() <= n by {
        lemma_piece_start(s.len() as int, n, i);
    }
    assert forall|i: int| 0 <= i < count - 1 implies (#[trigger] pieces(s, n)[i]).len() == n by {
        lemma_piece_start(s.len() as int, n, i);
        lemma_piece_start(s.len() as int, n, i + 1);
        assert((i + 1) * n == i * n + n) by (nonlinear_arith);
    }
    lemma_pieces_up_to(s, n, count);
    assert(pieces(s, n).take(count) =~= pieces(s, n));
    assert(s.take(s.len() as int) =~= s);
}

/// The first `k` pieces are the beginning of the stream.
proof fn lemma_pieces_up_to(s: Seq<u8>, n: int, k: int)
    requires
        n > 0,
        0 <= k <= piece_count(s.len() as int, n),
    ensures
        stream(pieces(s, n).take(k)) == s.take(
            if k == piece_count(s.len() as int, n) {
                s.len() as int
            } else {
                k * n
            },
        ),
        k < piece_count(s.len() as int, n) ==> 0 <= k * n <= s.len(),
    decreases k,
{
    let count = piece_count(s.len() as int, n);
    let p = pieces(s, n);
    if k == 0 {
        assert(p.take(0) =~= Seq::<Seq<u8>>::empty());
        assert(0 * n == 0) by (nonlinear_arith);
        if count == 0 {
            lemma_fundamental_div_mod(s.len() + n - 1, n);
            lemma_mod_bound(s.len() + n - 1, n);
            assert(n * 0 == 0);
            assert(s.len() == 0);
        }
        assert(s.take(0) =~= Seq::<u8>::empty());
    } else {
        lemma_pieces_up_to(s, n, k - 1);
        lemma_piece_start(s.len() as int, n, k - 1);
        if k < count {
            lemma_piece_start(s.len() as int, n, k);
        } else {
            lemma_last_piece(s.len() as int, n);
        }
        assert(p.take(k).drop_last() =~= p.take(k - 1));
        let from = (k - 1) * n;
        let to = piece_end(s.len() as int, n, k - 1);
        assert(s.take(from) + s.subrange(from, to) =~= s.take(to));
        assert((k - 1 + 1) * n == k * n);
    }
}

/// The last piece ends where the stream ends.
proof fn lemma_last_piece(len: int, n: int)
    requires
        n > 0,
        len >= 0,
        piece_count(len, n) >= 1,
    ensures
        piece_end(len, n, piece_count(len, n) - 1) == len,
{
    let count = piece_count(len, n);
    lemma_fundamental_div_mod(len + n - 1, n);
    lemma_mod_bound(len + n - 1, n);
    assert(n * count == count * n) by (nonlinear_arith);
    assert((count - 1 + 1) * n == count * n);
    assert(count * n >= len);
    if (count - 1 + 1) * n <= len {
        assert(count * n == len);
    }
}

} // verus!
