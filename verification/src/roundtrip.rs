use crate::bpe::{next_special, piece_tokens, spans_tokens, CoreBPE};
use crate::merge::{
    bpe_known, bpe_parts, bpe_tokens, lemma_bpe_parts_tile, lemma_tiles_concat, lemma_tiles_drop_last, part_bytes, parts_concat, parts_known,
    parts_tokens, tiles,
};
use crate::order::starts_with;
use crate::pattern::regex_find_all;
use crate::unstable::holds;
use vstd::prelude::*;
use vstd::utf8::{decode_utf8, valid_utf8};

verus! {

/// The spans follow one another from the start of a text of `n` bytes to its end, each
/// non-empty, without a gap: the pattern leaves nothing of the text out.
pub open spec fn spans_cover(spans: Seq<(usize, usize)>, n: int) -> bool {
    if spans.len() == 0 {
        n == 0
    } else {
        tiles(spans, n)
    }
}

/// Decoding tokens put end to end gives the bytes of the one, then those of the other.
pub proof fn lemma_decoded_concat(core: CoreBPE, a: Seq<usize>, b: Seq<usize>)
    ensures
        core.decoded(a + b) == core.decoded(a) + core.decoded(b),
    decreases b.len(),
{
    if b.len() == 0 {
        assert(a + b =~= a);
        assert(core.decoded(a) + core.decoded(b) =~= core.decoded(a));
    } else {
        assert((a + b).drop_last() =~= a + b.drop_last());
        assert((a + b).last() == b.last());
        lemma_decoded_concat(core, a, b.drop_last());
        assert(core.decoded(a + b) =~= core.decoded(a) + core.decoded(b));
    }
}

/// Decoding the ranks of parts that all have a rank gives the bytes of the parts.
#[verifier::rlimit(50)]
pub proof fn lemma_decoded_parts(core: CoreBPE, piece: Seq<u8>, parts: Seq<(usize, usize)>)
    requires
        core.wf(),
        parts_known(piece, parts, core.ranks()),
    ensures
        core.decoded(parts_tokens(piece, parts, core.ranks())) == parts_concat(piece, parts),
    decreases parts.len(),
{
    let tokens = parts_tokens(piece, parts, core.ranks());
    if parts.len() > 0 {
        let front = parts.drop_last();
        assert forall|i: int| 0 <= i < front.len() implies core.ranks().contains_key(
            part_bytes(piece, #[trigger] front[i]),
        ) by {
            assert(front[i] == parts[i]);
        }
        lemma_decoded_parts(core, piece, front);
        assert(tokens.drop_last() =~= parts_tokens(piece, front, core.ranks()));
        assert(core.ranks().contains_key(part_bytes(piece, parts[parts.len() - 1])));
        assert(tokens.last() == core.ranks()[part_bytes(piece, parts.last())]);
    }
}

/// Decoding the rank of a byte string of the table gives the byte string.
pub proof fn lemma_rank_round_trip(core: CoreBPE, key: Seq<u8>)
    requires
        core.wf(),
        core.ranks().contains_key(key),
    ensures
        core.decoded(seq![core.ranks()[key]]) == key,
{
    let rank = core.ranks()[key];
    let tokens = seq![rank];
    assert(tokens.last() == rank);
    assert(tokens.drop_last() =~= Seq::<usize>::empty());
    assert(core.decoded(Seq::<usize>::empty()) =~= Seq::<u8>::empty());
    assert(core.decoder@.contains_key(rank));
    assert(core.token_bytes(rank) == key);
    assert(core.decoded(tokens) =~= key);
}

/// Decoding the tokens that byte-pair merging gives of a piece gives the piece.
pub proof fn lemma_bpe_round_trip(core: CoreBPE, piece: Seq<u8>)
    requires
        core.wf(),
        1 <= piece.len() <= usize::MAX,
        bpe_known(piece, core.ranks()),
    ensures
        core.decoded(bpe_tokens(piece, core.ranks())) == piece,
{
    let parts = bpe_parts(piece, core.ranks());
    lemma_bpe_parts_tile(piece, core.ranks());
    lemma_decoded_parts(core, piece, parts);
    lemma_tiles_concat(piece, parts, piece.len() as int);
    assert(piece.subrange(0, piece.len() as int) =~= piece);
}

/// Decoding the tokens of a piece gives the piece.
pub proof fn lemma_piece_round_trip(core: CoreBPE, piece: Seq<u8>)
    requires
        core.wf(),
        piece.len() <= usize::MAX,
        piece_tokens(core.ranks(), piece) is Some,
    ensures
        core.decoded(piece_tokens(core.ranks(), piece)->0) == piece,
{
    if core.ranks().contains_key(piece) {
        lemma_rank_round_trip(core, piece);
    } else {
        lemma_bpe_round_trip(core, piece);
    }
}

/// Spans that cover `n` bytes, without the last of them, cover what lies before it.
pub proof fn lemma_cover_drop_last(spans: Seq<(usize, usize)>, n: int)
    requires
        spans.len() > 0,
        spans_cover(spans, n),
    ensures
        spans_cover(spans.drop_last(), spans.last().0 as int),
        spans.last().0 < spans.last().1,
        spans.last().1 == n,
{
    if spans.len() == 1 {
        assert(spans[0] == spans.last());
    } else {
        lemma_tiles_drop_last(spans, n);
    }
}

/// The tokens of a list of spans are those of all but the last, then those of the piece
/// that the last one cuts.
pub proof fn lemma_spans_tokens_last(
    ranks: Map<Seq<u8>, usize>,
    text: Seq<u8>,
    spans: Seq<(usize, usize)>,
)
    requires
        spans.len() > 0,
        spans_tokens(ranks, text, spans) is Some,
    ensures
        spans_tokens(ranks, text, spans.drop_last()) is Some,
        spans.last().0 < spans.last().1 <= text.len(),
        piece_tokens(ranks, text.subrange(spans.last().0 as int, spans.last().1 as int)) is Some,
        spans_tokens(ranks, text, spans).unwrap().0 == spans_tokens(ranks, text, spans.drop_last()).unwrap().0
            + piece_tokens(
            ranks,
            text.subrange(spans.last().0 as int, spans.last().1 as int),
        )->0,
{
}

/// Decoding the tokens of the pieces that covering spans cut from a text gives the text.
#[verifier::rlimit(50)]
pub proof fn lemma_spans_round_trip(core: CoreBPE, text: Seq<u8>, spans: Seq<(usize, usize)>, n: int)
    requires
        core.wf(),
        n <= text.len(),
        spans_cover(spans, n),
        spans_tokens(core.ranks(), text, spans) is Some,
    ensures
        core.decoded(spans_tokens(core.ranks(), text, spans).unwrap().0) == text.subrange(0, n),
    decreases spans.len(),
{
    if spans.len() == 0 {
        assert(core.decoded(spans_tokens(core.ranks(), text, spans).unwrap().0) =~= text.subrange(0, n));
    } else {
        let front = spans.drop_last();
        let last = spans.last();
        let piece = text.subrange(last.0 as int, last.1 as int);
        lemma_cover_drop_last(spans, n);
        lemma_spans_tokens_last(core.ranks(), text, spans);
        lemma_spans_round_trip(core, text, front, last.0 as int);
        lemma_piece_round_trip(core, piece);
        lemma_decoded_concat(
            core,
            spans_tokens(core.ranks(), text, front).unwrap().0,
            piece_tokens(core.ranks(), piece)->0,
        );
        assert(text.subrange(0, last.0 as int) + piece =~= text.subrange(0, n));
    }
}

/// Round trip: where the pattern's matches cover the text and the text has an ordinary
/// encoding, decoding that encoding gives the text back.
pub proof fn lemma_encode_ordinary_round_trip(core: CoreBPE, text: Seq<u8>)
    requires
        core.wf(),
        core.region_tokens(text) is Some,
        spans_cover(regex_find_all(core.source(), decode_utf8(text))->0, text.len() as int),
    ensures
        core.decoded(core.region_tokens(text).unwrap().0) == text,
{
    let spans = regex_find_all(core.source(), decode_utf8(text))->0;
    lemma_spans_round_trip(core, text, spans, text.len() as int);
    assert(text.subrange(0, text.len() as int) =~= text);
}

/// The pattern leaves nothing of the candidate out: its matches cover it.
pub open spec fn covers(core: CoreBPE, candidate: Seq<u8>) -> bool {
    regex_find_all(core.source(), decode_utf8(candidate)) is Some && spans_cover(
        regex_find_all(core.source(), decode_utf8(candidate))->0,
        candidate.len() as int,
    )
}

/// The count that `cut` gives lies within the tokens, and the tokens up to it reach the
/// target unless they are all of them.
pub proof fn lemma_cut_bounds(core: CoreBPE, tokens: Seq<usize>, target: int, k: int)
    requires
        0 <= k <= tokens.len(),
    ensures
        k <= core.cut(tokens, target, k) <= tokens.len(),
        core.cut(tokens, target, k) == tokens.len() || core.decoded(
            tokens.subrange(0, core.cut(tokens, target, k)),
        ).len() >= target,
    decreases tokens.len() - k,
{
    if k < tokens.len() && core.decoded(tokens.subrange(0, k + 1)).len() < target {
        lemma_cut_bounds(core, tokens, target, k + 1);
    }
}

/// Where the tokens decode to bytes that begin with the unstable bytes, so do the tokens
/// taken until the unstable bytes are covered.
#[verifier::rlimit(50)]
pub proof fn lemma_taken_prefix(core: CoreBPE, tokens: Seq<usize>, unstable: Seq<u8>)
    requires
        starts_with(core.decoded(tokens), unstable),
    ensures
        starts_with(core.decoded(core.taken(tokens, unstable.len() as int)), unstable),
{
    let n = unstable.len() as int;
    let k = core.cut(tokens, n, 0);
    lemma_cut_bounds(core, tokens, n, 0);
    let front = tokens.subrange(0, k);
    let back = tokens.subrange(k, tokens.len() as int);
    assert(front + back =~= tokens);
    lemma_decoded_concat(core, front, back);
    if k == tokens.len() {
        assert(front =~= tokens);
    } else {
        let whole = core.decoded(tokens);
        assert(core.decoded(front).subrange(0, n) =~= whole.subrange(0, n));
    }
}

/// The one token of a byte string that begins with the unstable bytes decodes to bytes
/// that begin with them.
pub proof fn lemma_extension_extends(core: CoreBPE, unstable: Seq<u8>, key: Seq<u8>)
    requires
        core.wf(),
        core.extends(unstable, key),
    ensures
        starts_with(core.decoded(seq![core.ranks()[key]]), unstable),
{
    lemma_rank_round_trip(core, key);
}

/// A candidate that a straddling byte string gives begins with the unstable bytes.
pub proof fn lemma_candidate_extends(core: CoreBPE, unstable: Seq<u8>, i: int, key: Seq<u8>)
    requires
        core.straddles(unstable, i, key),
    ensures
        starts_with(unstable.subrange(0, i) + key, unstable),
{
    let n = unstable.len() as int;
    let candidate = unstable.subrange(0, i) + key;
    let suffix = unstable.subrange(i, n);
    assert(key.subrange(0, suffix.len() as int) == suffix);
    assert forall|k: int| 0 <= k < n implies candidate[k] == unstable[k] by {
        if k >= i {
            assert(key.subrange(0, suffix.len() as int)[k - i] == suffix[k - i]);
        }
    }
    assert(candidate.subrange(0, n) =~= unstable);
}

/// Decoding what a candidate is encoded to anew gives the candidate, where the pattern
/// leaves nothing of it out.
pub proof fn lemma_reencoded_round_trip(core: CoreBPE, candidate: Seq<u8>)
    requires
        core.wf(),
        candidate.len() <= usize::MAX,
        core.reencoded(candidate) is Some,
        valid_utf8(candidate) ==> covers(core, candidate),
    ensures
        core.decoded(core.reencoded(candidate)->0) == candidate,
{
    if valid_utf8(candidate) {
        lemma_encode_ordinary_round_trip(core, candidate);
    } else {
        lemma_bpe_round_trip(core, candidate);
    }
}

/// The completion that a straddling byte string gives decodes to bytes that begin with
/// the unstable bytes, where the pattern leaves nothing of the candidate out.
#[verifier::rlimit(50)]
pub proof fn lemma_straddle_extends(core: CoreBPE, unstable: Seq<u8>, i: int, key: Seq<u8>)
    requires
        core.wf(),
        core.straddles(unstable, i, key),
        (unstable.subrange(0, i) + key).len() <= usize::MAX,
        core.reencoded(unstable.subrange(0, i) + key) is Some,
        valid_utf8(unstable.subrange(0, i) + key) ==> covers(core, unstable.subrange(0, i) + key),
    ensures
        starts_with(core.decoded(core.straddle_completion(unstable, i, key)), unstable),
{
    let candidate = unstable.subrange(0, i) + key;
    lemma_reencoded_round_trip(core, candidate);
    lemma_candidate_extends(core, unstable, i, key);
    lemma_taken_prefix(core, core.reencoded(candidate)->0, unstable);
}

/// The completion that cutting before trailing white space gives decodes to the unstable
/// bytes.
pub proof fn lemma_tail_extends(core: CoreBPE, unstable: Seq<u8>)
    requires
        core.wf(),
        1 <= unstable.len() <= usize::MAX,
        core.tail_split(unstable) is Some,
        bpe_known(core.split_head(unstable), core.ranks()),
        bpe_known(core.split_tail(unstable), core.ranks()),
    ensures
        core.decoded(
            bpe_tokens(core.split_head(unstable), core.ranks()) + bpe_tokens(
                core.split_tail(unstable),
                core.ranks(),
            ),
        ) == unstable,
{
    let head = core.split_head(unstable);
    let tail = core.split_tail(unstable);
    lemma_bpe_round_trip(core, head);
    lemma_bpe_round_trip(core, tail);
    lemma_decoded_concat(core, bpe_tokens(head, core.ranks()), bpe_tokens(tail, core.ranks()));
    assert(head + tail =~= unstable);
}

/// Every completion extends the unstable bytes: decoded, it begins with them. This holds
/// where the pattern leaves nothing out of the candidates that are valid UTF-8.
#[verifier::rlimit(50)]
pub proof fn lemma_completion_extends(core: CoreBPE, unstable: Seq<u8>, c: Seq<usize>)
    requires
        core.wf(),
        1 <= unstable.len() <= usize::MAX,
        !core.completions_fail(unstable),
        core.is_completion(unstable, c),
        forall|i: int, key: Seq<u8>| #[trigger]
            core.straddles(unstable, i, key) ==> (unstable.subrange(0, i) + key).len() <= usize::MAX
                && (valid_utf8(unstable.subrange(0, i) + key) ==> covers(
                core,
                unstable.subrange(0, i) + key,
            )),
    ensures
        starts_with(core.decoded(c), unstable),
{
    if exists|key: Seq<u8>| #[trigger] core.extends(unstable, key) && c == seq![core.ranks()[key]] {
        let key = choose|key: Seq<u8>| #[trigger]
            core.extends(unstable, key) && c == seq![core.ranks()[key]];
        lemma_extension_extends(core, unstable, key);
    } else if exists|i: int, key: Seq<u8>| #[trigger]
        core.straddles(unstable, i, key) && c == core.straddle_completion(unstable, i, key) {
        let (i, key) = choose|i: int, key: Seq<u8>| #[trigger]
            core.straddles(unstable, i, key) && c == core.straddle_completion(unstable, i, key);
        assert(core.reencoded(unstable.subrange(0, i) + key) is Some);
        lemma_straddle_extends(core, unstable, i, key);
    } else {
        lemma_tail_extends(core, unstable);
        assert(unstable.subrange(0, unstable.len() as int) =~= unstable);
    }
}

/// Whatever text the pattern is given, its matches, where the engine reports them, leave
/// nothing of the text out.
pub open spec fn covers_every_text(core: CoreBPE) -> bool {
    forall|candidate: Seq<u8>|
        #![trigger regex_find_all(core.source(), decode_utf8(candidate))]
        valid_utf8(candidate) && regex_find_all(core.source(), decode_utf8(candidate)) is Some
            ==> covers(core, candidate)
}

/// What encoding with completions returns holds the completions of the unstable bytes;
/// none of their candidates failed, and a `usize` holds the length of each.
pub proof fn lemma_outcome_completions(
    core: CoreBPE,
    text: Seq<u8>,
    allowed: Set<Seq<char>>,
    found: (Vec<usize>, Vec<Vec<usize>>),
    c: Seq<usize>,
)
    requires
        core.encoding(text, allowed) is Some,
        core.unstable_outcome(text, allowed, Some(found)),
    ensures
        holds(found.1@, c) <==> core.unstable_of(text, allowed).len() > 0 && core.is_completion(
            core.unstable_of(text, allowed),
            c,
        ),
        !(core.unstable_of(text, allowed).len() > 0 && core.completions_fail(
            core.unstable_of(text, allowed),
        )),
        core.unstable_of(text, allowed).len() <= usize::MAX,
        forall|i: int, key: Seq<u8>| #[trigger]
            core.straddles(core.unstable_of(text, allowed), i, key) ==> core.candidate_fits(
                core.unstable_of(text, allowed).subrange(0, i) + key,
            ),
{
}

/// Every completion that encoding with completions returns extends the unstable bytes
/// of the text: decoded, it begins with them. This holds where the pattern leaves
/// nothing out of the texts that it is given.
#[verifier::rlimit(50)]
pub proof fn lemma_returned_completions_extend(
    core: CoreBPE,
    text: Seq<u8>,
    allowed: Set<Seq<char>>,
    found: (Vec<usize>, Vec<Vec<usize>>),
    c: Seq<usize>,
)
    requires
        core.wf(),
        covers_every_text(core),
        core.encoding(text, allowed) is Some,
        core.unstable_outcome(text, allowed, Some(found)),
        holds(found.1@, c),
    ensures
        starts_with(core.decoded(c), core.unstable_of(text, allowed)),
{
    let unstable = core.unstable_of(text, allowed);
    lemma_outcome_completions(core, text, allowed, found, c);
    assert forall|i: int, key: Seq<u8>| #[trigger] core.straddles(unstable, i, key) implies (
    unstable.subrange(0, i) + key).len() <= usize::MAX && (valid_utf8(
        unstable.subrange(0, i) + key,
    ) ==> covers(core, unstable.subrange(0, i) + key)) by {
        let candidate = unstable.subrange(0, i) + key;
        assert(core.candidate_fits(candidate));
        if valid_utf8(candidate) {
            assert(regex_find_all(core.source(), decode_utf8(candidate)) is Some);
        }
    }
    lemma_completion_extends(core, unstable, c);
}

/// An allowed special token stands where its literal stood: where the search from
/// `start` reports the match `m`, the encoding from `start` is the tokens of the text
/// before the match, then the id of the literal, then the encoding of what follows it.
#[verifier::rlimit(50)]
pub proof fn lemma_special_token_position(
    core: CoreBPE,
    text: Seq<u8>,
    allowed: Set<Seq<char>>,
    start: int,
    m: (usize, usize),
)
    requires
        next_special(core.special_source(), text, allowed, start) == Some(Some(m)),
        core.encode_from(text, allowed, start) is Some,
    ensures
        core.region_tokens(text.subrange(start, m.0 as int)) is Some,
        core.encode_from(text, allowed, m.1 as int) is Some,
        core.specials().contains_key(decode_utf8(text.subrange(m.0 as int, m.1 as int))),
        core.encode_from(text, allowed, start).unwrap().0 == core.region_tokens(
            text.subrange(start, m.0 as int),
        ).unwrap().0.push(core.specials()[decode_utf8(text.subrange(m.0 as int, m.1 as int))])
            + core.encode_from(text, allowed, m.1 as int).unwrap().0,
        core.encode_from(text, allowed, start).unwrap().0[core.region_tokens(
            text.subrange(start, m.0 as int),
        ).unwrap().0.len() as int] == core.specials()[decode_utf8(
            text.subrange(m.0 as int, m.1 as int),
        )],
{
}

} // verus!
