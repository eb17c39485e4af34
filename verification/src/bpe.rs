use crate::error::TiktokenError;
use crate::merge::{
    bpe_known, bpe_tokens, byte_pair_try_encode, covers_bytes, lemma_covered_bytes_known,
};
use crate::order::{bytes_equal, strictly_sorted};
use crate::pattern::{find_all, find_from, regex_find, regex_find_all, Pattern};
use crate::table::{rank_entries, rank_of, special_entries, special_of, token_bytes_of};
use crate::text::{
    char_boundary_after, lemma_same_bytes, lemma_text_bytes, next_char_boundary, sub_str,
    utf8_text,
};
use rustc_hash::FxHashMap;
use vstd::prelude::*;
use vstd::slice::slice_subrange;
use vstd::string::StringSliceAdditionalSpecFns;
use vstd::utf8::{decode_utf8, is_char_boundary, valid_utf8};

verus! {

/// A number that stands for a thread.
pub struct FakeThreadId(pub u64);

impl FakeThreadId {
    /// The number is never zero.
    pub open spec fn wf(&self) -> bool {
        self.0 != 0
    }
}

/// The tokenizer proper: the rank table with its inverse, the special tokens with their
/// inverse, the two compiled patterns, and the table's byte strings in rising order.
pub struct CoreBPE {
    pub encoder: FxHashMap<Vec<u8>, usize>,
    pub special_tokens_encoder: FxHashMap<String, usize>,
    pub decoder: FxHashMap<usize, Vec<u8>>,
    pub special_tokens_decoder: FxHashMap<usize, Vec<u8>>,
    pub regex: Pattern,
    pub special_regex: Pattern,
    pub sorted_token_bytes: Vec<Vec<u8>>,
}

/// The tokens of one piece: its rank where it has one, else the ranks of the parts that
/// byte-pair merging leaves; `None` where the piece is empty or a part has no rank.
pub open spec fn piece_tokens(ranks: Map<Seq<u8>, usize>, piece: Seq<u8>) -> Option<Seq<usize>> {
    if ranks.contains_key(piece) {
        Some(seq![ranks[piece]])
    } else if piece.len() >= 1 && bpe_known(piece, ranks) {
        Some(bpe_tokens(piece, ranks))
    } else {
        None
    }
}

/// The tokens of the pieces that `spans` cut from `text`, one piece after another, and the
/// number of tokens that the last piece gave (0 without a piece); `None` where a span is
/// not a non-empty range of the text or a piece has no tokens.
pub open spec fn spans_tokens(
    ranks: Map<Seq<u8>, usize>,
    text: Seq<u8>,
    spans: Seq<(usize, usize)>,
) -> Option<(Seq<usize>, usize)>
    decreases spans.len(),
{
    if spans.len() == 0 {
        Some((Seq::empty(), 0usize))
    } else {
        let last = spans.last();
        match spans_tokens(ranks, text, spans.drop_last()) {
            Some(front) => if last.0 < last.1 && last.1 <= text.len() {
                match piece_tokens(ranks, text.subrange(last.0 as int, last.1 as int)) {
                    Some(tokens) => Some((front.0 + tokens, tokens.len() as usize)),
                    None => None,
                }
            } else {
                None
            },
            None => None,
        }
    }
}

/// The literals of a list, as a set.
pub open spec fn literal_set(list: Seq<String>) -> Set<Seq<char>> {
    Set::new(|literal: Seq<char>| exists|i: int| 0 <= i < list.len() && (#[trigger] list[i])@ == literal)
}

/// A match that the search from `from` may report: a range of the text, not before
/// `from`, between character boundaries.
pub open spec fn good_match(text: Seq<u8>, from: int, m: (usize, usize)) -> bool {
    &&& from <= m.0 <= m.1 <= text.len()
    &&& is_char_boundary(text, m.0 as int)
    &&& is_char_boundary(text, m.1 as int)
}

/// What a reported match means for the search for the next allowed special token.
#[derive(Debug, Clone, Copy, PartialEq, Eq)]
pub enum Step {
    /// The report is no good match: the search fails.
    Fail,
    /// The search ends, with the match of an allowed literal or with nothing left.
    Stop(Option<(usize, usize)>),
    /// The literal is not allowed: the search goes on from this position.
    Next(usize),
}

/// What the report `found` of the search from `from` means. Nothing found ends the
/// search. A match that is no good match fails it. A match of an allowed literal ends it.
/// A match of another literal is passed over: the search goes on from the next character
/// boundary after its start, and ends where the match starts at the end of the text.
pub open spec fn step_of(
    text: Seq<u8>,
    allowed: Set<Seq<char>>,
    from: int,
    found: Option<(usize, usize)>,
) -> Step {
    match found {
        None => Step::Stop(None),
        Some(m) => if !good_match(text, from, m) {
            Step::Fail
        } else if allowed.contains(decode_utf8(text.subrange(m.0 as int, m.1 as int))) {
            Step::Stop(Some(m))
        } else if m.0 < text.len() {
            Step::Next(next_char_boundary(text, m.0 as int) as usize)
        } else {
            Step::Stop(None)
        },
    }
}

/// The first match of the special pattern at or after `from` whose literal is allowed:
/// the search is repeated for as long as `step_of` says to go on. `None` where the engine
/// gives up or the search fails; `Some(None)` where no allowed match is left.
pub open spec fn next_special(
    source: Seq<char>,
    text: Seq<u8>,
    allowed: Set<Seq<char>>,
    from: int,
) -> Option<Option<(usize, usize)>>
    decreases text.len() - from,
{
    if from < 0 || from > text.len() || !is_char_boundary(text, from) {
        Some(None)
    } else {
        match regex_find(source, decode_utf8(text), from as usize) {
            None => None,
            Some(found) => match step_of(text, allowed, from, found) {
                Step::Fail => None,
                Step::Stop(end) => Some(end),
                Step::Next(at) => if from < at <= text.len() {
                    next_special(source, text, allowed, at as int)
                } else {
                    Some(None)
                },
            },
        }
    }
}

/// `front` put before the tokens of `rest`.
pub open spec fn prepend(front: Seq<usize>, rest: Option<(Seq<usize>, usize)>) -> Option<
    (Seq<usize>, usize),
> {
    match rest {
        Some(r) => Some((front + r.0, r.1)),
        None => None,
    }
}

/// Every span is a non-empty range of the text.
pub open spec fn good_spans(text: Seq<u8>, spans: Seq<(usize, usize)>) -> bool {
    forall|i: int|
        0 <= i < spans.len() ==> (#[trigger] spans[i]).0 < spans[i].1 && spans[i].1 <= text.len()
}

/// Where every single byte has a rank, the pieces that good spans cut have tokens.
pub proof fn lemma_covered_spans(
    ranks: Map<Seq<u8>, usize>,
    text: Seq<u8>,
    spans: Seq<(usize, usize)>,
)
    requires
        covers_bytes(ranks),
        text.len() <= usize::MAX,
        good_spans(text, spans),
    ensures
        spans_tokens(ranks, text, spans) is Some,
    decreases spans.len(),
{
    if spans.len() > 0 {
        let front = spans.drop_last();
        assert forall|i: int| 0 <= i < front.len() implies (#[trigger] front[i]).0 < front[i].1
            && front[i].1 <= text.len() by {
            assert(front[i] == spans[i]);
        }
        lemma_covered_spans(ranks, text, front);
        let last = spans[spans.len() - 1];
        lemma_covered_bytes_known(text.subrange(last.0 as int, last.1 as int), ranks);
    }
}

/// Where the spans up to some index have no tokens, the whole list has none.
pub proof fn lemma_spans_tokens_prefix(
    ranks: Map<Seq<u8>, usize>,
    text: Seq<u8>,
    spans: Seq<(usize, usize)>,
    k: int,
)
    requires
        0 <= k <= spans.len(),
        spans_tokens(ranks, text, spans.subrange(0, k)) is None,
    ensures
        spans_tokens(ranks, text, spans) is None,
    decreases spans.len() - k,
{
    if k < spans.len() {
        assert(spans.subrange(0, k + 1).drop_last() =~= spans.subrange(0, k));
        lemma_spans_tokens_prefix(ranks, text, spans, k + 1);
    } else {
        assert(spans.subrange(0, k) =~= spans);
    }
}

/// The tokens of one piece, or `None` where it has none.
pub fn try_encode_piece(ranks: &FxHashMap<Vec<u8>, usize>, piece: &[u8]) -> (r: Option<Vec<usize>>)
    ensures
        match r {
            Some(tokens) => piece_tokens(rank_entries(*ranks), piece@) == Some(tokens@),
            None => piece_tokens(rank_entries(*ranks), piece@) is None,
        },
{
    match rank_of(ranks, piece) {
        Some(rank) => {
            let tokens = vec![rank];
            assert(tokens@ =~= seq![rank]);
            Some(tokens)
        },
        None => {
            if piece.len() == 0 {
                None
            } else {
                byte_pair_try_encode(piece, ranks)
            }
        },
    }
}

/// Encodes the pieces that `spans` cut from `text`: the tokens, and how many of them the
/// last piece gave.
#[verifier::rlimit(50)]
pub fn encode_pieces(ranks: &FxHashMap<Vec<u8>, usize>, text: &[u8], spans: &Vec<(usize, usize)>) -> (r:
    Option<(Vec<usize>, usize)>)
    ensures
        match r {
            Some(done) => spans_tokens(rank_entries(*ranks), text@, spans@) == Some(
                (done.0@, done.1),
            ) && done.1 <= done.0@.len(),
            None => spans_tokens(rank_entries(*ranks), text@, spans@) is None,
        },
{
    let ghost entries = rank_entries(*ranks);
    let mut tokens: Vec<usize> = Vec::new();
    let mut last: usize = 0;
    let mut i: usize = 0;
    while i < spans.len()
        invariant
            entries == rank_entries(*ranks),
            i <= spans.len(),
            spans_tokens(entries, text@, spans@.subrange(0, i as int)) == Some((tokens@, last)),
            last <= tokens@.len(),
        decreases spans.len() - i,
    {
        let span = spans[i];
        proof {
            assert(spans@.subrange(0, i + 1).drop_last() =~= spans@.subrange(0, i as int));
            assert(spans@.subrange(0, i + 1).last() == span);
        }
        if !(span.0 < span.1 && span.1 <= text.len()) {
            proof {
                lemma_spans_tokens_prefix(entries, text@, spans@, i + 1);
            }
            return None;
        }
        let piece = slice_subrange(text, span.0, span.1);
        match try_encode_piece(ranks, piece) {
            Some(mut found) => {
                last = found.len();
                tokens.append(&mut found);
            },
            None => {
                proof {
                    lemma_spans_tokens_prefix(entries, text@, spans@, i + 1);
                }
                return None;
            },
        }
        i = i + 1;
    }
    assert(spans@.subrange(0, i as int) =~= spans@);
    Some((tokens, last))
}

/// Whether `literal` is one of the literals of `list`.
pub fn list_contains(list: &Vec<String>, literal: &str) -> (found: bool)
    ensures
        found == literal_set(list@).contains(literal@),
{
    let mut i: usize = 0;
    while i < list.len()
        invariant
            i <= list.len(),
            forall|j: int| 0 <= j < i ==> (#[trigger] list@[j])@ != literal@,
        decreases list.len() - i,
    {
        let candidate = list[i].as_str();
        if bytes_equal(candidate.as_bytes(), literal.as_bytes()) {
            proof {
                lemma_same_bytes(candidate@, literal@);
            }
            return true;
        }
        i = i + 1;
    }
    false
}

/// Judges what the search from `from` reported.
#[verifier::rlimit(50)]
pub fn special_step(text: &str, allowed: &Vec<String>, from: usize, found: Option<(usize, usize)>) -> (step:
    Step)
    ensures
        step == step_of(text.spec_bytes(), literal_set(allowed@), from as int, found),
        match step {
            Step::Stop(Some(m)) => good_match(text.spec_bytes(), from as int, m),
            Step::Next(at) => from < at <= text.spec_bytes().len() && is_char_boundary(
                text.spec_bytes(),
                at as int,
            ),
            _ => true,
        },
{
    let n: usize = text.as_bytes().len();
    proof {
        lemma_text_bytes(text);
    }
    match found {
        None => Step::Stop(None),
        Some(m) => {
            if !(from <= m.0 && m.0 <= m.1 && m.1 <= n && text.is_char_boundary(m.0)
                && text.is_char_boundary(m.1)) {
                return Step::Fail;
            }
            let literal = sub_str(text, m.0, m.1);
            if list_contains(allowed, literal) {
                return Step::Stop(Some(m));
            }
            if m.0 >= n {
                return Step::Stop(None);
            }
            Step::Next(char_boundary_after(text, m.0))
        },
    }
}

impl CoreBPE {
    /// The ranks of the byte strings of the table.
    pub open spec fn ranks(&self) -> Map<Seq<u8>, usize> {
        rank_entries(self.encoder)
    }

    /// The ids of the special tokens.
    pub open spec fn specials(&self) -> Map<Seq<char>, usize> {
        special_entries(self.special_tokens_encoder)
    }

    /// The pattern that cuts a text into pieces.
    pub open spec fn source(&self) -> Seq<char> {
        self.regex@
    }

    /// The pattern that finds the special tokens.
    pub open spec fn special_source(&self) -> Seq<char> {
        self.special_regex@
    }

    /// The bytes that a token stands for: those of the table first, then those of the
    /// special tokens; nothing for a token that is neither.
    pub open spec fn token_bytes(&self, token: usize) -> Seq<u8> {
        if self.decoder@.contains_key(token) {
            self.decoder@[token]@
        } else if self.special_tokens_decoder@.contains_key(token) {
            self.special_tokens_decoder@[token]@
        } else {
            Seq::empty()
        }
    }

    /// Whether a token is one of the table or a special token.
    pub open spec fn knows(&self, token: usize) -> bool {
        self.decoder@.contains_key(token) || self.special_tokens_decoder@.contains_key(token)
    }

    /// The bytes of the tokens, one after another.
    pub open spec fn decoded(&self, tokens: Seq<usize>) -> Seq<u8>
        decreases tokens.len(),
    {
        if tokens.len() == 0 {
            Seq::empty()
        } else {
            self.decoded(tokens.drop_last()) + self.token_bytes(tokens.last())
        }
    }

    /// The tokens of a stretch of text without special tokens: the pattern cuts it into
    /// pieces, and each piece gives its tokens. With them, the number of tokens of the
    /// last piece.
    pub open spec fn region_tokens(&self, region: Seq<u8>) -> Option<(Seq<usize>, usize)> {
        match regex_find_all(self.source(), decode_utf8(region)) {
            Some(spans) => spans_tokens(self.ranks(), region, spans),
            None => None,
        }
    }

    /// The tokens of `text` from byte `start` on, where the special tokens in `allowed`
    /// are encoded by their ids and everything between them as ordinary text. With them,
    /// the number of tokens that the last piece after the last special token gave.
    pub open spec fn encode_from(&self, text: Seq<u8>, allowed: Set<Seq<char>>, start: int) -> Option<
        (Seq<usize>, usize),
    >
        decreases text.len() - start,
    {
        match next_special(self.special_source(), text, allowed, start) {
            None => None,
            Some(None) => self.region_tokens(text.subrange(start, text.len() as int)),
            Some(Some(m)) => {
                let literal = decode_utf8(text.subrange(m.0 as int, m.1 as int));
                match self.region_tokens(text.subrange(start, m.0 as int)) {
                    Some(region) => if self.specials().contains_key(literal) && start < m.1
                        <= text.len() {
                        prepend(
                            region.0.push(self.specials()[literal]),
                            self.encode_from(text, allowed, m.1 as int),
                        )
                    } else {
                        None
                    },
                    None => None,
                }
            },
        }
    }

    /// The tokens of a text with the special tokens in `allowed`.
    pub open spec fn encoding(&self, text: Seq<u8>, allowed: Set<Seq<char>>) -> Option<
        (Seq<usize>, usize),
    > {
        self.encode_from(text, allowed, 0)
    }

    /// The compiled pattern that cuts a text into pieces.
    pub fn _get_tl_regex(&self) -> (regex: &Pattern)
        ensures
            *regex == self.regex,
    {
        &self.regex
    }

    /// The compiled pattern that finds the special tokens.
    pub fn _get_tl_special_regex(&self) -> (regex: &Pattern)
        ensures
            *regex == self.special_regex,
    {
        &self.special_regex
    }

    /// Encodes a stretch of text without special tokens.
    pub fn encode_region(&self, region: &str) -> (r: Option<(Vec<usize>, usize)>)
        ensures
            match r {
                Some(done) => self.region_tokens(region.spec_bytes()) == Some((done.0@, done.1))
                    && done.1 <= done.0@.len(),
                None => self.region_tokens(region.spec_bytes()) is None,
            },
    {
        proof {
            lemma_text_bytes(region);
        }
        let regex = self._get_tl_regex();
        match find_all(regex, region) {
            Ok(spans) => encode_pieces(&self.encoder, region.as_bytes(), &spans),
            Err(_) => None,
        }
    }

    /// Encodes a text in which no special token is looked for; `None` where it cannot be
    /// encoded.
    pub fn _encode_ordinary_native(&self, text: &str) -> (r: Option<Vec<usize>>)
        ensures
            match r {
                Some(tokens) => self.region_tokens(text.spec_bytes()) is Some
                    && self.region_tokens(text.spec_bytes()).unwrap().0 == tokens@,
                None => self.region_tokens(text.spec_bytes()) is None,
            },
    {
        match self.encode_region(text) {
            Some(done) => Some(done.0),
            None => None,
        }
    }

    /// Encodes a text in which no special token is looked for.
    pub fn encode_ordinary(&self, text: &str) -> (r: Result<Vec<usize>, TiktokenError>)
        ensures
            match r {
                Ok(tokens) => self.region_tokens(text.spec_bytes()) is Some
                    && self.region_tokens(text.spec_bytes()).unwrap().0 == tokens@,
                Err(e) => e == TiktokenError::EncodeFailure && self.region_tokens(
                    text.spec_bytes(),
                ) is None,
            },
    {
        match self._encode_ordinary_native(text) {
            Some(tokens) => Ok(tokens),
            None => Err(TiktokenError::EncodeFailure),
        }
    }

    /// Finds the next special token of `text`, at or after `from`, that is allowed.
    #[verifier::rlimit(50)]
    pub fn find_next_special(&self, text: &str, allowed: &Vec<String>, from: usize) -> (r: Option<
        Option<(usize, usize)>,
    >)
        requires
            from <= text.spec_bytes().len(),
            is_char_boundary(text.spec_bytes(), from as int),
        ensures
            r == next_special(
                self.special_source(),
                text.spec_bytes(),
                literal_set(allowed@),
                from as int,
            ),
            match r {
                Some(Some(m)) => good_match(text.spec_bytes(), from as int, m),
                _ => true,
            },
    {
        let n: usize = text.as_bytes().len();
        let ghost bytes = text.spec_bytes();
        let ghost set = literal_set(allowed@);
        let ghost source = self.special_source();
        proof {
            lemma_text_bytes(text);
        }
        let mut start_find: usize = from;
        loop
            invariant
                bytes == text.spec_bytes(),
                set == literal_set(allowed@),
                source == self.special_source(),
                valid_utf8(bytes),
                decode_utf8(bytes) == text@,
                n == bytes.len(),
                from <= start_find <= n,
                is_char_boundary(bytes, start_find as int),
                next_special(source, bytes, set, from as int) == next_special(
                    source,
                    bytes,
                    set,
                    start_find as int,
                ),
            decreases n - start_find,
        {
            let found = match find_from(self._get_tl_special_regex(), text, start_find) {
                Ok(found) => found,
                Err(_) => {
                    return None;
                },
            };
            match special_step(text, allowed, start_find, found) {
                Step::Fail => {
                    return None;
                },
                Step::Stop(end) => {
                    return Some(end);
                },
                Step::Next(at) => {
                    start_find = at;
                },
            }
        }
    }

    /// Encodes a text with the special tokens in `allowed`: the tokens, and how many of
    /// them the last piece gave (0 where the text ends with a special token).
    #[verifier::rlimit(50)]
    pub fn _encode_native(&self, text: &str, allowed: &Vec<String>) -> (r: Option<(Vec<usize>, usize)>)
        ensures
            match r {
                Some(done) => self.encoding(text.spec_bytes(), literal_set(allowed@)) == Some(
                    (done.0@, done.1),
                ) && done.1 <= done.0@.len(),
                None => self.encoding(text.spec_bytes(), literal_set(allowed@)) is None,
            },
    {
        let n: usize = text.as_bytes().len();
        let ghost bytes = text.spec_bytes();
        let ghost set = literal_set(allowed@);
        proof {
            lemma_text_bytes(text);
        }
        let mut ret: Vec<usize> = Vec::new();
        let mut start: usize = 0;
        loop
            invariant
                bytes == text.spec_bytes(),
                set == literal_set(allowed@),
                valid_utf8(bytes),
                n == bytes.len(),
                start <= n,
                is_char_boundary(bytes, start as int),
                is_char_boundary(bytes, n as int),
                self.encoding(bytes, set) == prepend(ret@, self.encode_from(bytes, set, start as int)),
            decreases n - start,
        {
            let next = match self.find_next_special(text, allowed, start) {
                Some(next) => next,
                None => {
                    return None;
                },
            };
            let end: usize = match next {
                Some(m) => m.0,
                None => n,
            };
            let region = sub_str(text, start, end);
            let (mut tokens, last) = match self.encode_region(region) {
                Some(done) => done,
                None => {
                    return None;
                },
            };
            let ghost before = ret@;
            let ghost region_tokens = tokens@;
            ret.append(&mut tokens);
            match next {
                Some(m) => {
                    let literal = sub_str(text, m.0, m.1);
                    let id = match special_of(&self.special_tokens_encoder, literal) {
                        Some(id) => id,
                        None => {
                            return None;
                        },
                    };
                    if m.1 <= start {
                        return None;
                    }
                    ret.push(id);
                    proof {
                        let rest = self.encode_from(bytes, set, m.1 as int);
                        match rest {
                            Some(found) => {
                                assert(before + (region_tokens.push(id) + found.0) =~= ret@
                                    + found.0);
                            },
                            None => {},
                        }
                    }
                    start = m.1;
                },
                None => {
                    proof {
                        assert(ret@ =~= before + region_tokens);
                    }
                    return Some((ret, last));
                },
            }
        }
    }

    /// Encodes a text with the special tokens in `allowed_special`.
    pub fn encode(&self, text: &str, allowed_special: &Vec<String>) -> (r: Result<
        Vec<usize>,
        TiktokenError,
    >)
        ensures
            match r {
                Ok(tokens) => self.encoding(text.spec_bytes(), literal_set(allowed_special@)) is Some
                    && self.encoding(text.spec_bytes(), literal_set(allowed_special@)).unwrap().0
                    == tokens@,
                Err(e) => e == TiktokenError::EncodeFailure && self.encoding(
                    text.spec_bytes(),
                    literal_set(allowed_special@),
                ) is None,
            },
    {
        match self._encode_native(text, allowed_special) {
            Some(done) => Ok(done.0),
            None => Err(TiktokenError::EncodeFailure),
        }
    }

    /// The bytes of the tokens, one after another; a token that is neither of the table
    /// nor special gives nothing.
    pub fn _decode_native(&self, tokens: &[usize]) -> (bytes: Vec<u8>)
        ensures
            bytes@ == self.decoded(tokens@),
    {
        let mut ret: Vec<u8> = Vec::new();
        let mut i: usize = 0;
        while i < tokens.len()
            invariant
                i <= tokens.len(),
                ret@ == self.decoded(tokens@.subrange(0, i as int)),
            decreases tokens.len() - i,
        {
            let token = tokens[i];
            proof {
                assert(tokens@.subrange(0, i + 1).drop_last() =~= tokens@.subrange(0, i as int));
            }
            match token_bytes_of(&self.decoder, token) {
                Some(found) => {
                    ret.extend_from_slice(found.as_slice());
                },
                None => {
                    match token_bytes_of(&self.special_tokens_decoder, token) {
                        Some(found) => {
                            ret.extend_from_slice(found.as_slice());
                        },
                        None => {
                            assert(ret@ + Seq::<u8>::empty() =~= ret@);
                        },
                    }
                },
            }
            i = i + 1;
        }
        assert(tokens@.subrange(0, i as int) =~= tokens@);
        ret
    }

    /// The bytes of the tokens, one after another.
    pub fn decode_bytes(&self, tokens: Vec<usize>) -> (bytes: Vec<u8>)
        ensures
            bytes@ == self.decoded(tokens@),
    {
        self._decode_native(tokens.as_slice())
    }

    /// The token that stands for exactly these bytes: their rank, or the id of the special
    /// token that they spell.
    pub fn encode_single_token(&self, piece: &[u8]) -> (r: Result<usize, TiktokenError>)
        ensures
            match r {
                Ok(token) => if self.ranks().contains_key(piece@) {
                    token == self.ranks()[piece@]
                } else {
                    valid_utf8(piece@) && self.specials().contains_key(decode_utf8(piece@))
                        && token == self.specials()[decode_utf8(piece@)]
                },
                Err(e) => e == TiktokenError::UnknownToken && !self.ranks().contains_key(piece@)
                    && !(valid_utf8(piece@) && self.specials().contains_key(decode_utf8(piece@))),
            },
    {
        match rank_of(&self.encoder, piece) {
            Some(token) => Ok(token),
            None => {
                match utf8_text(piece) {
                    Some(literal) => {
                        proof {
                            lemma_text_bytes(literal);
                        }
                        match special_of(&self.special_tokens_encoder, literal) {
                            Some(token) => Ok(token),
                            None => Err(TiktokenError::UnknownToken),
                        }
                    },
                    None => Err(TiktokenError::UnknownToken),
                }
            },
        }
    }

    /// The tokens of one piece.
    pub fn encode_single_piece(&self, piece: &[u8]) -> (tokens: Vec<usize>)
        requires
            piece_tokens(self.ranks(), piece@) is Some,
        ensures
            piece_tokens(self.ranks(), piece@) == Some(tokens@),
    {
        match try_encode_piece(&self.encoder, piece) {
            Some(tokens) => tokens,
            None => Vec::new(),
        }
    }

    /// The bytes of one token.
    pub fn decode_single_token_bytes(&self, token: usize) -> (r: Result<Vec<u8>, TiktokenError>)
        ensures
            match r {
                Ok(bytes) => self.knows(token) && bytes@ == self.token_bytes(token),
                Err(e) => e == TiktokenError::UnknownToken && !self.knows(token),
            },
    {
        match token_bytes_of(&self.decoder, token) {
            Some(found) => Ok(found.clone()),
            None => {
                match token_bytes_of(&self.special_tokens_decoder, token) {
                    Some(found) => Ok(found.clone()),
                    None => Err(TiktokenError::UnknownToken),
                }
            },
        }
    }

    /// The byte strings of the table, as the tokenizer holds them sorted: in strictly
    /// rising order where the tokenizer is well formed.
    pub fn token_byte_values(&self) -> (values: Vec<Vec<u8>>)
        ensures
            values@.len() == self.sorted_token_bytes@.len(),
            forall|i: int|
                0 <= i < values@.len() ==> (#[trigger] values@[i])@ == self.sorted_token_bytes@[i]@,
            strictly_sorted(self.sorted_token_bytes@) ==> strictly_sorted(values@),
    {
        let mut values: Vec<Vec<u8>> = Vec::new();
        let mut i: usize = 0;
        while i < self.sorted_token_bytes.len()
            invariant
                i <= self.sorted_token_bytes.len(),
                values@.len() == i,
                forall|j: int|
                    0 <= j < i ==> (#[trigger] values@[j])@ == self.sorted_token_bytes@[j]@,
            decreases self.sorted_token_bytes.len() - i,
        {
            values.push(self.sorted_token_bytes[i].clone());
            i = i + 1;
        }
        values
    }
}

} // verus!
