use crate::table::{rank_entries, rank_of};
use rustc_hash::FxHashMap;
use vstd::prelude::*;
use vstd::slice::slice_subrange;

verus! {

/// The bytes of `piece` that a part `(start, end)` spans.
pub open spec fn part_bytes(piece: Seq<u8>, part: (usize, usize)) -> Seq<u8> {
    piece.subrange(part.0 as int, part.1 as int)
}

/// The parts that merging starts from: one per byte.
pub open spec fn singletons(n: nat) -> Seq<(usize, usize)> {
    Seq::new(n, |i: int| (i as usize, (i + 1) as usize))
}

/// `parts` splits `0..n` into non-empty ranges that follow one another without a gap.
pub open spec fn tiles(parts: Seq<(usize, usize)>, n: int) -> bool {
    &&& parts.len() >= 1
    &&& parts[0].0 == 0
    &&& parts[parts.len() - 1].1 == n
    &&& forall|i: int| 0 <= i < parts.len() ==> (#[trigger] parts[i]).0 < parts[i].1
    &&& forall|i: int|
        #![trigger parts[i]]
        0 <= i < parts.len() - 1 ==> parts[i].1 == parts[i + 1].0
}

/// The rank of the bytes that parts `i` and `i + 1` span together, if they have one.
pub open spec fn pair_rank(
    piece: Seq<u8>,
    parts: Seq<(usize, usize)>,
    ranks: Map<Seq<u8>, usize>,
    i: int,
) -> Option<usize> {
    let key = piece.subrange(parts[i].0 as int, parts[i + 1].1 as int);
    if ranks.contains_key(key) {
        Some(ranks[key])
    } else {
        None
    }
}

/// Among the first `upto` adjacent pairs, the least rank and the leftmost pair that has it.
pub open spec fn best_pair(
    piece: Seq<u8>,
    parts: Seq<(usize, usize)>,
    ranks: Map<Seq<u8>, usize>,
    upto: int,
) -> Option<(usize, usize)>
    decreases upto,
{
    if upto <= 0 {
        None
    } else {
        let before = best_pair(piece, parts, ranks, upto - 1);
        match pair_rank(piece, parts, ranks, upto - 1) {
            Some(r) => if before is None || r < before.unwrap().0 {
                Some((r, (upto - 1) as usize))
            } else {
                before
            },
            None => before,
        }
    }
}

/// `parts` with parts `i` and `i + 1` replaced by the one range that spans both.
pub open spec fn merge_at(parts: Seq<(usize, usize)>, i: int) -> Seq<(usize, usize)> {
    parts.subrange(0, i).push((parts[i].0, parts[i + 1].1)) + parts.subrange(
        i + 2,
        parts.len() as int,
    )
}

/// Merges the best pair again and again, until no adjacent pair has a rank.
pub open spec fn merge_all(
    piece: Seq<u8>,
    parts: Seq<(usize, usize)>,
    ranks: Map<Seq<u8>, usize>,
) -> Seq<(usize, usize)>
    decreases parts.len(),
{
    if parts.len() < 2 {
        parts
    } else {
        match best_pair(piece, parts, ranks, parts.len() - 1) {
            Some(best) => if best.1 + 1 < parts.len() {
                merge_all(piece, merge_at(parts, best.1 as int), ranks)
            } else {
                parts
            },
            None => parts,
        }
    }
}

/// The parts that byte-pair merging leaves of `piece`.
pub open spec fn bpe_parts(piece: Seq<u8>, ranks: Map<Seq<u8>, usize>) -> Seq<(usize, usize)> {
    merge_all(piece, singletons(piece.len()), ranks)
}

/// Every part's bytes have a rank.
pub open spec fn parts_known(
    piece: Seq<u8>,
    parts: Seq<(usize, usize)>,
    ranks: Map<Seq<u8>, usize>,
) -> bool {
    forall|i: int|
        0 <= i < parts.len() ==> ranks.contains_key(part_bytes(piece, #[trigger] parts[i]))
}

/// Every part that merging leaves of `piece` has a rank.
pub open spec fn bpe_known(piece: Seq<u8>, ranks: Map<Seq<u8>, usize>) -> bool {
    parts_known(piece, bpe_parts(piece, ranks), ranks)
}

/// The ranks of the parts, in order.
pub open spec fn parts_tokens(
    piece: Seq<u8>,
    parts: Seq<(usize, usize)>,
    ranks: Map<Seq<u8>, usize>,
) -> Seq<usize> {
    Seq::new(parts.len(), |i: int| ranks[part_bytes(piece, parts[i])])
}

/// The tokens of `piece`: the ranks of the parts that merging leaves.
pub open spec fn bpe_tokens(piece: Seq<u8>, ranks: Map<Seq<u8>, usize>) -> Seq<usize> {
    parts_tokens(piece, bpe_parts(piece, ranks), ranks)
}

/// The bytes of the parts, one after another.
pub open spec fn parts_concat(piece: Seq<u8>, parts: Seq<(usize, usize)>) -> Seq<u8>
    decreases parts.len(),
{
    if parts.len() == 0 {
        Seq::empty()
    } else {
        parts_concat(piece, parts.drop_last()) + part_bytes(piece, parts.last())
    }
}

/// The pair that `best_pair` picks has a rank, no pair among the first `upto` has a lower one,
/// and no pair to its left has the same; it picks none only where no pair has a rank.
pub proof fn lemma_best_pair_least(
    piece: Seq<u8>,
    parts: Seq<(usize, usize)>,
    ranks: Map<Seq<u8>, usize>,
    upto: int,
)
    requires
        0 <= upto <= usize::MAX,
    ensures
        match best_pair(piece, parts, ranks, upto) {
            Some(best) => {
                &&& 0 <= best.1 < upto
                &&& pair_rank(piece, parts, ranks, best.1 as int) == Some(best.0)
                &&& forall|j: int|
                    0 <= j < upto ==> match #[trigger] pair_rank(piece, parts, ranks, j) {
                        Some(r) => best.0 < r || (best.0 == r && best.1 <= j),
                        None => true,
                    }
            },
            None => forall|j: int|
                0 <= j < upto ==> #[trigger] pair_rank(piece, parts, ranks, j) is None,
        },
    decreases upto,
{
    if upto > 0 {
        lemma_best_pair_least(piece, parts, ranks, upto - 1);
    }
}

/// Merging stops only where nothing is left to merge: no two neighbours among the parts
/// that it leaves have a rank together.
#[verifier::rlimit(50)]
pub proof fn lemma_merge_all_done(
    piece: Seq<u8>,
    parts: Seq<(usize, usize)>,
    ranks: Map<Seq<u8>, usize>,
)
    requires
        parts.len() <= usize::MAX,
    ensures
        forall|i: int|
            0 <= i < merge_all(piece, parts, ranks).len() - 1 ==> #[trigger] pair_rank(
                piece,
                merge_all(piece, parts, ranks),
                ranks,
                i,
            ) is None,
    decreases parts.len(),
{
    if parts.len() >= 2 {
        lemma_best_pair_least(piece, parts, ranks, parts.len() - 1);
        match best_pair(piece, parts, ranks, parts.len() - 1) {
            Some(best) => {
                lemma_merge_all_done(piece, merge_at(parts, best.1 as int), ranks);
            },
            None => {},
        }
    }
}

/// Among the parts that merging leaves of a piece, no two neighbours have a rank together.
pub proof fn lemma_bpe_parts_done(piece: Seq<u8>, ranks: Map<Seq<u8>, usize>)
    requires
        piece.len() <= usize::MAX,
    ensures
        forall|i: int|
            0 <= i < bpe_parts(piece, ranks).len() - 1 ==> #[trigger] pair_rank(
                piece,
                bpe_parts(piece, ranks),
                ranks,
                i,
            ) is None,
{
    lemma_merge_all_done(piece, singletons(piece.len()), ranks);
}

/// Merging two neighbours keeps a tiling a tiling.
#[verifier::rlimit(50)]
pub proof fn lemma_merge_at_tiles(parts: Seq<(usize, usize)>, n: int, i: int)
    requires
        tiles(parts, n),
        0 <= i,
        i + 1 < parts.len(),
    ensures
        tiles(merge_at(parts, i), n),
        merge_at(parts, i).len() == parts.len() - 1,
{
    let merged = merge_at(parts, i);
    assert forall|j: int| 0 <= j < merged.len() implies (#[trigger] merged[j]).0 < merged[j].1 by {
        if j < i {
            assert(merged[j] == parts[j]);
        } else if j == i {
            assert(parts[i].0 < parts[i].1);
            assert(parts[i].1 == parts[i + 1].0);
            assert(parts[i + 1].0 < parts[i + 1].1);
        } else {
            assert(merged[j] == parts[j + 1]);
        }
    }
    assert forall|j: int|
        #![trigger merged[j]]
        0 <= j < merged.len() - 1 implies merged[j].1 == merged[j + 1].0 by {
        if j + 1 < i {
            assert(merged[j] == parts[j]);
            assert(merged[j + 1] == parts[j + 1]);
        } else if j + 1 == i {
            assert(merged[j] == parts[j]);
        } else if j == i {
            assert(merged[j + 1] == parts[j + 2]);
            assert(parts[i + 1].1 == parts[i + 2].0);
        } else {
            assert(merged[j] == parts[j + 1]);
            assert(merged[j + 1] == parts[j + 2]);
            assert(parts[j + 1].1 == parts[j + 2].0);
        }
    }
}

/// Merging to the end keeps a tiling a tiling.
pub proof fn lemma_merge_all_tiles(
    piece: Seq<u8>,
    parts: Seq<(usize, usize)>,
    ranks: Map<Seq<u8>, usize>,
    n: int,
)
    requires
        tiles(parts, n),
    ensures
        tiles(merge_all(piece, parts, ranks), n),
    decreases parts.len(),
{
    if parts.len() >= 2 {
        match best_pair(piece, parts, ranks, parts.len() - 1) {
            Some(best) => {
                if best.1 + 1 < parts.len() {
                    lemma_merge_at_tiles(parts, n, best.1 as int);
                    lemma_merge_all_tiles(piece, merge_at(parts, best.1 as int), ranks, n);
                }
            },
            None => {},
        }
    }
}

/// The parts that merging leaves of a non-empty piece tile it.
pub proof fn lemma_bpe_parts_tile(piece: Seq<u8>, ranks: Map<Seq<u8>, usize>)
    requires
        1 <= piece.len() <= usize::MAX,
    ensures
        tiles(bpe_parts(piece, ranks), piece.len() as int),
{
    lemma_merge_all_tiles(piece, singletons(piece.len()), ranks, piece.len() as int);
}

/// A tiling without its last part tiles what lies before that part.
pub proof fn lemma_tiles_drop_last(parts: Seq<(usize, usize)>, n: int)
    requires
        tiles(parts, n),
        parts.len() >= 2,
    ensures
        tiles(parts.drop_last(), parts.last().0 as int),
        parts.last().0 < parts.last().1,
        parts.last().1 == n,
{
    let front = parts.drop_last();
    assert(parts[parts.len() - 2].1 == parts[parts.len() - 2 + 1].0);
    assert(front[front.len() - 1] == parts[parts.len() - 2]);
    assert(front[0] == parts[0]);
    assert(parts[parts.len() - 1].0 < parts[parts.len() - 1].1);
    assert forall|i: int| 0 <= i < front.len() implies (#[trigger] front[i]).0 < front[i].1 by {
        assert(front[i] == parts[i]);
    }
    assert forall|i: int|
        #![trigger front[i]]
        0 <= i < front.len() - 1 implies front[i].1 == front[i + 1].0 by {
        assert(front[i] == parts[i]);
        assert(front[i + 1] == parts[i + 1]);
    }
}

/// The parts of a tiling of `0..n`, put end to end, are the first `n` bytes.
pub proof fn lemma_tiles_concat(piece: Seq<u8>, parts: Seq<(usize, usize)>, n: int)
    requires
        tiles(parts, n),
        n <= piece.len(),
    ensures
        parts_concat(piece, parts) == piece.subrange(0, n),
    decreases parts.len(),
{
    let last = parts.last();
    if parts.len() == 1 {
        assert(parts.drop_last().len() == 0);
        assert(parts_concat(piece, parts.drop_last()) == Seq::<u8>::empty());
        assert(parts_concat(piece, parts) =~= piece.subrange(0, n));
    } else {
        lemma_tiles_drop_last(parts, n);
        lemma_tiles_concat(piece, parts.drop_last(), last.0 as int);
        assert(parts_concat(piece, parts) =~= piece.subrange(0, n));
    }
}

/// Where every byte of `piece` has a rank, every part that merging leaves has one.
pub proof fn lemma_bytes_known(piece: Seq<u8>, ranks: Map<Seq<u8>, usize>)
    requires
        piece.len() <= usize::MAX,
        forall|i: int| 0 <= i < piece.len() ==> ranks.contains_key(#[trigger] piece.subrange(i, i + 1)),
    ensures
        bpe_known(piece, ranks),
{
    let start = singletons(piece.len());
    assert forall|i: int| 0 <= i < start.len() implies ranks.contains_key(
        part_bytes(piece, #[trigger] start[i]),
    ) by {
        assert(part_bytes(piece, start[i]) == piece.subrange(i, i + 1));
    }
    lemma_merge_all_known(piece, start, ranks);
}

/// Every single byte has a rank.
pub open spec fn covers_bytes(ranks: Map<Seq<u8>, usize>) -> bool {
    forall|b: u8| #[trigger] ranks.contains_key(seq![b])
}

/// Where every single byte has a rank, byte-pair merging gives tokens for every piece.
pub proof fn lemma_covered_bytes_known(piece: Seq<u8>, ranks: Map<Seq<u8>, usize>)
    requires
        piece.len() <= usize::MAX,
        covers_bytes(ranks),
    ensures
        bpe_known(piece, ranks),
{
    assert forall|i: int| 0 <= i < piece.len() implies ranks.contains_key(
        #[trigger] piece.subrange(i, i + 1),
    ) by {
        assert(piece.subrange(i, i + 1) =~= seq![piece[i]]);
        assert(ranks.contains_key(seq![piece[i]]));
    }
    lemma_bytes_known(piece, ranks);
}

/// Whether every single byte has a rank.
pub fn has_all_bytes(ranks: &FxHashMap<Vec<u8>, usize>) -> (all: bool)
    ensures
        all == covers_bytes(rank_entries(*ranks)),
{
    let mut b: u8 = 0;
    loop
        invariant
            forall|c: u8| c < b ==> #[trigger] rank_entries(*ranks).contains_key(seq![c]),
        decreases 255 - b,
    {
        let key = vec![b];
        assert(key@ =~= seq![b]);
        if rank_of(ranks, key.as_slice()).is_none() {
            return false;
        }
        if b == 255 {
            return true;
        }
        b = b + 1;
    }
}

/// Merging gives parts with a rank where it started from parts with a rank.
#[verifier::rlimit(50)]
pub proof fn lemma_merge_all_known(
    piece: Seq<u8>,
    parts: Seq<(usize, usize)>,
    ranks: Map<Seq<u8>, usize>,
)
    requires
        parts.len() <= usize::MAX,
        parts_known(piece, parts, ranks),
    ensures
        parts_known(piece, merge_all(piece, parts, ranks), ranks),
    decreases parts.len(),
{
    if parts.len() >= 2 {
        match best_pair(piece, parts, ranks, parts.len() - 1) {
            Some(best) => {
                if best.1 + 1 < parts.len() {
                    lemma_best_pair_least(piece, parts, ranks, parts.len() - 1);
                    let i = best.1 as int;
                    let merged = merge_at(parts, i);
                    assert forall|j: int| 0 <= j < merged.len() implies ranks.contains_key(
                        part_bytes(piece, #[trigger] merged[j]),
                    ) by {
                        if j < i {
                            assert(merged[j] == parts[j]);
                        } else if j == i {
                            assert(pair_rank(piece, parts, ranks, i) is Some);
                        } else {
                            assert(merged[j] == parts[j + 1]);
                        }
                    }
                    lemma_merge_all_known(piece, merged, ranks);
                }
            },
            None => {},
        }
    }
}

/// Splits `piece` by byte-pair merging: starting from one part per byte, the adjacent pair
/// of least rank (the leftmost of them) is merged until no adjacent pair has a rank.
#[verifier::rlimit(50)]
pub fn _byte_pair_merge(piece: &[u8], ranks: &FxHashMap<Vec<u8>, usize>) -> (parts: Vec<
    (usize, usize),
>)
    requires
        piece@.len() >= 1,
    ensures
        parts@ == bpe_parts(piece@, rank_entries(*ranks)),
        tiles(parts@, piece@.len() as int),
{
    let ghost entries = rank_entries(*ranks);
    let mut parts: Vec<(usize, usize)> = Vec::new();
    let mut k: usize = 0;
    while k < piece.len()
        invariant
            k <= piece.len(),
            parts@ =~= singletons(k as nat),
        decreases piece.len() - k,
    {
        parts.push((k, k + 1));
        k = k + 1;
    }
    proof {
        lemma_bpe_parts_tile(piece@, entries);
    }
    loop
        invariant
            entries == rank_entries(*ranks),
            tiles(parts@, piece@.len() as int),
            merge_all(piece@, parts@, entries) == bpe_parts(piece@, entries),
        ensures
            parts@ == bpe_parts(piece@, entries),
        decreases parts.len(),
    {
        if parts.len() < 2 {
            break ;
        }
        let mut best: Option<(usize, usize)> = None;
        let mut i: usize = 0;
        while i < parts.len() - 1
            invariant
                entries == rank_entries(*ranks),
                tiles(parts@, piece@.len() as int),
                parts.len() >= 2,
                i <= parts.len() - 1,
                best == best_pair(piece@, parts@, entries, i as int),
                best is Some ==> best.unwrap().1 < i,
            decreases parts.len() - i,
        {
            let lo: usize = parts[i].0;
            let hi: usize = parts[i + 1].1;
            proof {
                lemma_part_bounds(parts@, piece@.len() as int, i as int);
                lemma_part_bounds(parts@, piece@.len() as int, i + 1);
                assert(parts@[i as int].1 == parts@[i + 1].0);
            }
            let key = slice_subrange(piece, lo, hi);
            match rank_of(ranks, key) {
                Some(r) => {
                    let better = match best {
                        Some(b) => r < b.0,
                        None => true,
                    };
                    if better {
                        best = Some((r, i));
                    }
                },
                None => {},
            }
            i = i + 1;
        }
        match best {
            Some(b) => {
                let ghost before = parts@;
                let merged: (usize, usize) = (parts[b.1].0, parts[b.1 + 1].1);
                parts.set(b.1, merged);
                parts.remove(b.1 + 1);
                proof {
                    assert(parts@ =~= merge_at(before, b.1 as int));
                    lemma_merge_at_tiles(before, piece@.len() as int, b.1 as int);
                }
            },
            None => {
                break ;
            },
        }
    }
    parts
}

/// Each part of a tiling of `0..n` lies within `0..n`.
pub proof fn lemma_part_bounds(parts: Seq<(usize, usize)>, n: int, i: int)
    requires
        tiles(parts, n),
        0 <= i < parts.len(),
    ensures
        0 <= parts[i].0 < parts[i].1 <= n,
    decreases parts.len() - i,
{
    if i < parts.len() - 1 {
        lemma_part_bounds(parts, n, i + 1);
        assert(parts[i].1 == parts[i + 1].0);
    }
}

/// The tokens of `piece` by byte-pair merging, or `None` where a part that merging
/// leaves has no rank.
#[verifier::rlimit(50)]
pub fn byte_pair_try_encode(piece: &[u8], ranks: &FxHashMap<Vec<u8>, usize>) -> (tokens: Option<
    Vec<usize>,
>)
    requires
        piece@.len() >= 1,
    ensures
        tokens is Some <==> bpe_known(piece@, rank_entries(*ranks)),
        tokens is Some ==> tokens->0@ == bpe_tokens(piece@, rank_entries(*ranks)),
{
    let ghost entries = rank_entries(*ranks);
    let parts = _byte_pair_merge(piece, ranks);
    let mut tokens: Vec<usize> = Vec::new();
    let mut i: usize = 0;
    while i < parts.len()
        invariant
            entries == rank_entries(*ranks),
            i <= parts.len(),
            tiles(parts@, piece@.len() as int),
            parts@ == bpe_parts(piece@, entries),
            tokens@ =~= parts_tokens(piece@, parts@.subrange(0, i as int), entries),
            parts_known(piece@, parts@.subrange(0, i as int), entries),
        decreases parts.len() - i,
    {
        proof {
            lemma_part_bounds(parts@, piece@.len() as int, i as int);
        }
        let key = slice_subrange(piece, parts[i].0, parts[i].1);
        match rank_of(ranks, key) {
            Some(r) => {
                tokens.push(r);
            },
            None => {
                return None;
            },
        }
        i = i + 1;
        proof {
            let done = parts@.subrange(0, i as int);
            assert forall|j: int| 0 <= j < done.len() implies entries.contains_key(
                part_bytes(piece@, #[trigger] done[j]),
            ) by {
                if j < i - 1 {
                    assert(done[j] == parts@.subrange(0, i - 1)[j]);
                }
            }
        }
    }
    assert(parts@.subrange(0, i as int) =~= parts@);
    Some(tokens)
}

/// The tokens of `piece` by byte-pair merging.
pub fn byte_pair_encode(piece: &[u8], ranks: &FxHashMap<Vec<u8>, usize>) -> (tokens: Vec<usize>)
    requires
        piece@.len() >= 1,
        bpe_known(piece@, rank_entries(*ranks)),
    ensures
        tokens@ == bpe_tokens(piece@, rank_entries(*ranks)),
{
    match byte_pair_try_encode(piece, ranks) {
        Some(tokens) => tokens,
        None => Vec::new(),
    }
}

/// The parts of `piece` that byte-pair merging leaves, as byte slices.
pub fn byte_pair_split<'a>(piece: &'a [u8], ranks: &FxHashMap<Vec<u8>, usize>) -> (split: Vec<
    &'a [u8],
>)
    requires
        piece@.len() >= 1,
    ensures
        split@.len() == bpe_parts(piece@, rank_entries(*ranks)).len(),
        forall|i: int|
            0 <= i < split@.len() ==> (#[trigger] split@[i])@ == part_bytes(
                piece@,
                bpe_parts(piece@, rank_entries(*ranks))[i],
            ),
{
    let parts = _byte_pair_merge(piece, ranks);
    let mut split: Vec<&'a [u8]> = Vec::new();
    let mut i: usize = 0;
    while i < parts.len()
        invariant
            i <= parts.len(),
            tiles(parts@, piece@.len() as int),
            split@.len() == i,
            forall|j: int|
                0 <= j < i ==> (#[trigger] split@[j])@ == part_bytes(piece@, parts@[j]),
        decreases parts.len() - i,
    {
        proof {
            lemma_part_bounds(parts@, piece@.len() as int, i as int);
        }
        split.push(slice_subrange(piece, parts[i].0, parts[i].1));
        i = i + 1;
    }
    split
}

} // verus!
