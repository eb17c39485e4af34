use crate::bpe::{literal_set, CoreBPE};
use crate::merge::{bpe_known, bpe_tokens, byte_pair_try_encode};
use crate::order::{
    bytes_less, bytes_start_with, lemma_between, lemma_less_trans, lemma_prefix_not_less, lex_less,
    starts_with, strictly_sorted,
};
use crate::table::{rank_of, token_bytes_of};
use crate::error::TiktokenError;
use crate::text::{
    is_whitespace, last_scalar, last_scalar_of, utf8_text, valid_len, valid_prefix_len,
    whitespace_char,
};
use vstd::prelude::*;
use vstd::slice::{slice_subrange, slice_to_vec};
use vstd::string::StringSliceAdditionalSpecFns;
use vstd::utf8::valid_utf8;

verus! {

/// A space, a line feed or a tab.
pub open spec fn space_byte(b: u8) -> bool {
    b == 32 || b == 10 || b == 9
}

/// Every byte is a space, a line feed or a tab.
pub open spec fn all_space(bytes: Seq<u8>) -> bool {
    forall|i: int| 0 <= i < bytes.len() ==> space_byte(#[trigger] bytes[i])
}

/// Some entry of the list holds exactly these tokens.
pub open spec fn holds(list: Seq<Vec<usize>>, tokens: Seq<usize>) -> bool {
    exists|k: int| 0 <= k < list.len() && (#[trigger] list[k])@ == tokens
}

/// No two entries of the list hold the same tokens.
pub open spec fn distinct(list: Seq<Vec<usize>>) -> bool {
    forall|j: int, k: int|
        0 <= j < k < list.len() ==> (#[trigger] list[j])@ != (#[trigger] list[k])@
}

/// Where to cut `n` bytes before their last scalar of `last_len` bytes: there, where the
/// scalar is white space and is not the whole.
pub open spec fn tail_cut_of(n: int, last_len: usize, white: bool) -> Option<usize> {
    if n > 1 && 0 < last_len < n && white {
        Some(last_len)
    } else {
        None
    }
}

/// Judges what was found of the last scalar of `n` bytes.
pub fn tail_cut(n: usize, last_len: usize, white: bool) -> (cut: Option<usize>)
    ensures
        cut == tail_cut_of(n as int, last_len, white),
{
    if n > 1 && 0 < last_len && last_len < n && white {
        Some(last_len)
    } else {
        None
    }
}

/// Whether every byte is a space, a line feed or a tab.
pub fn bytes_all_space(bytes: &[u8]) -> (r: bool)
    ensures
        r == all_space(bytes@),
{
    let mut i: usize = 0;
    while i < bytes.len()
        invariant
            i <= bytes.len(),
            forall|j: int| 0 <= j < i ==> space_byte(#[trigger] bytes@[j]),
        decreases bytes.len() - i,
    {
        let b = bytes[i];
        if !(b == 32 || b == 10 || b == 9) {
            return false;
        }
        i = i + 1;
    }
    true
}

/// Whether two lists of tokens are the same.
pub fn tokens_equal(a: &[usize], b: &[usize]) -> (same: bool)
    ensures
        same == (a@ == b@),
{
    if a.len() != b.len() {
        return false;
    }
    let mut i: usize = 0;
    while i < a.len()
        invariant
            i <= a.len(),
            a.len() == b.len(),
            forall|j: int| 0 <= j < i ==> a@[j] == b@[j],
        decreases a.len() - i,
    {
        if a[i] != b[i] {
            return false;
        }
        i = i + 1;
    }
    assert(a@ =~= b@);
    true
}

/// Adds `item` to a list without repetition, unless the list holds its tokens already.
#[verifier::rlimit(50)]
pub fn push_unique(list: &mut Vec<Vec<usize>>, item: Vec<usize>)
    requires
        distinct(old(list)@),
    ensures
        distinct(final(list)@),
        forall|c: Seq<usize>|
            #![trigger holds(final(list)@, c)]
            #![trigger holds(old(list)@, c)]
            holds(final(list)@, c) <==> holds(old(list)@, c) || c == item@,
{
    let ghost before = list@;
    let mut i: usize = 0;
    while i < list.len()
        invariant
            list@ == before,
            distinct(before),
            i <= list.len(),
            forall|j: int| 0 <= j < i ==> (#[trigger] list@[j])@ != item@,
        decreases list.len() - i,
    {
        if tokens_equal(list[i].as_slice(), item.as_slice()) {
            assert(holds(before, item@)) by {
                assert(before[i as int]@ == item@);
            }
            return ;
        }
        i = i + 1;
    }
    list.push(item);
    proof {
        assert forall|c: Seq<usize>| holds(list@, c) <==> holds(before, c) || c == item@ by {
            if holds(before, c) {
                let k = choose|k: int| 0 <= k < before.len() && (#[trigger] before[k])@ == c;
                assert(list@[k]@ == c);
            }
            if c == item@ {
                assert(list@[list@.len() - 1]@ == c);
            }
            if holds(list@, c) {
                let k = choose|k: int| 0 <= k < list@.len() && (#[trigger] list@[k])@ == c;
                if k < before.len() {
                    assert(before[k]@ == c);
                }
            }
        }
    }
}

/// The index of the first entry that does not come before `target`.
#[verifier::rlimit(50)]
pub fn first_not_before(sorted: &Vec<Vec<u8>>, target: &[u8]) -> (point: usize)
    requires
        strictly_sorted(sorted@),
    ensures
        point <= sorted@.len(),
        forall|j: int| 0 <= j < point ==> lex_less((#[trigger] sorted@[j])@, target@),
        forall|j: int| point <= j < sorted@.len() ==> !lex_less((#[trigger] sorted@[j])@, target@),
{
    let mut lo: usize = 0;
    let mut hi: usize = sorted.len();
    while lo < hi
        invariant
            strictly_sorted(sorted@),
            lo <= hi <= sorted@.len(),
            forall|j: int| 0 <= j < lo ==> lex_less((#[trigger] sorted@[j])@, target@),
            forall|j: int| hi <= j < sorted@.len() ==> !lex_less((#[trigger] sorted@[j])@, target@),
        decreases hi - lo,
    {
        let mid: usize = lo + (hi - lo) / 2;
        if bytes_less(sorted[mid].as_slice(), target) {
            proof {
                assert forall|j: int| 0 <= j < mid + 1 implies lex_less(
                    (#[trigger] sorted@[j])@,
                    target@,
                ) by {
                    if j < mid {
                        lemma_less_trans(sorted@[j]@, sorted@[mid as int]@, target@);
                    }
                }
            }
            lo = mid + 1;
        } else {
            proof {
                assert forall|j: int| mid <= j < sorted@.len() implies !lex_less(
                    (#[trigger] sorted@[j])@,
                    target@,
                ) by {
                    if mid < j && lex_less(sorted@[j]@, target@) {
                        lemma_less_trans(sorted@[mid as int]@, sorted@[j]@, target@);
                    }
                }
            }
            hi = mid;
        }
    }
    lo
}

/// The run of entries that begin with `prefix`: they stand together, from index `run.0`
/// up to `run.1`.
#[verifier::rlimit(50)]
pub fn prefix_run(sorted: &Vec<Vec<u8>>, prefix: &[u8]) -> (run: (usize, usize))
    requires
        strictly_sorted(sorted@),
    ensures
        run.0 <= run.1 <= sorted@.len(),
        forall|j: int|
            0 <= j < sorted@.len() ==> (starts_with((#[trigger] sorted@[j])@, prefix@) <==> run.0
                <= j < run.1),
{
    let lo = first_not_before(sorted, prefix);
    let mut hi: usize = lo;
    while hi < sorted.len() && bytes_start_with(sorted[hi].as_slice(), prefix)
        invariant
            lo <= hi <= sorted@.len(),
            forall|j: int| lo <= j < hi ==> starts_with((#[trigger] sorted@[j])@, prefix@),
        decreases sorted@.len() - hi,
    {
        hi = hi + 1;
    }
    proof {
        assert forall|j: int| 0 <= j < sorted@.len() implies (starts_with(
            (#[trigger] sorted@[j])@,
            prefix@,
        ) <==> lo <= j < hi) by {
            if starts_with(sorted@[j]@, prefix@) {
                lemma_prefix_not_less(sorted@[j]@, prefix@);
                if j >= hi {
                    assert(!lex_less(sorted@[hi as int]@, prefix@));
                    if j > hi {
                        lemma_between(sorted@[hi as int]@, prefix@, sorted@[j]@);
                    }
                }
            }
        }
    }
    (lo, hi)
}

impl CoreBPE {
    /// A token of the table whose bytes are all spaces, line feeds or tabs.
    pub open spec fn space_token(&self, token: usize) -> bool {
        self.decoder@.contains_key(token) && all_space(self.decoder@[token]@)
    }

    /// `len` grown for as long as the token before the last `len` tokens is a space token.
    pub open spec fn widened(&self, tokens: Seq<usize>, len: int) -> int
        decreases tokens.len() - len,
    {
        if 0 <= len < tokens.len() && self.space_token(tokens[tokens.len() - len - 1]) {
            self.widened(tokens, len + 1)
        } else {
            len
        }
    }

    /// The number of trailing tokens that count as unstable: `len`, grown over the space
    /// tokens before them where the first of the last `len` tokens is a space token.
    pub open spec fn increased_len(&self, tokens: Seq<usize>, len: int) -> int {
        if 0 < len <= tokens.len() && self.space_token(tokens[tokens.len() - len]) {
            self.widened(tokens, len)
        } else {
            len
        }
    }

    /// How many of the tokens are taken until their bytes reach `target`, counting on from
    /// `k` tokens that do not reach it.
    pub open spec fn cut(&self, tokens: Seq<usize>, target: int, k: int) -> int
        decreases tokens.len() - k,
    {
        if k < 0 || k >= tokens.len() {
            tokens.len() as int
        } else if self.decoded(tokens.subrange(0, k + 1)).len() >= target {
            k + 1
        } else {
            self.cut(tokens, target, k + 1)
        }
    }

    /// The shortest run of leading tokens whose bytes reach `target` in length; all of
    /// them where they never do.
    pub open spec fn taken(&self, tokens: Seq<usize>, target: int) -> Seq<usize> {
        tokens.subrange(0, self.cut(tokens, target, 0))
    }

    /// The tokens of a candidate: as ordinary text where its bytes are valid UTF-8, by
    /// byte-pair merging of the whole otherwise.
    pub open spec fn reencoded(&self, candidate: Seq<u8>) -> Option<Seq<usize>> {
        if valid_utf8(candidate) {
            match self.region_tokens(candidate) {
                Some(done) => Some(done.0),
                None => None,
            }
        } else if candidate.len() >= 1 && bpe_known(candidate, self.ranks()) {
            Some(bpe_tokens(candidate, self.ranks()))
        } else {
            None
        }
    }

    /// The candidate can be encoded anew, and a `usize` holds its length.
    pub open spec fn candidate_fits(&self, candidate: Seq<u8>) -> bool {
        self.reencoded(candidate) is Some && candidate.len() <= usize::MAX
    }

    /// `key` is a byte string of the table that begins with the unstable bytes.
    pub open spec fn extends(&self, unstable: Seq<u8>, key: Seq<u8>) -> bool {
        self.ranks().contains_key(key) && starts_with(key, unstable)
    }

    /// `key` is a byte string of the table that begins with what the unstable bytes hold
    /// from index `i` on, where `i` splits them in two.
    pub open spec fn straddles(&self, unstable: Seq<u8>, i: int, key: Seq<u8>) -> bool {
        1 <= i < unstable.len() && self.ranks().contains_key(key) && starts_with(
            key,
            unstable.subrange(i, unstable.len() as int),
        )
    }

    /// The completion that a straddling byte string gives: the unstable bytes before `i`
    /// and the byte string are encoded anew, and tokens are taken until the unstable bytes
    /// are covered.
    pub open spec fn straddle_completion(&self, unstable: Seq<u8>, i: int, key: Seq<u8>) -> Seq<
        usize,
    > {
        self.taken(self.reencoded(unstable.subrange(0, i) + key).unwrap(), unstable.len() as int)
    }

    /// Where the unstable bytes are more than one scalar and end with white space, the
    /// number of bytes of that last scalar.
    pub open spec fn tail_split(&self, unstable: Seq<u8>) -> Option<usize> {
        let last = last_scalar_of(unstable);
        tail_cut_of(
            unstable.len() as int,
            last.1,
            last.0 is Some && whitespace_char(last.0.unwrap()),
        )
    }

    /// The unstable bytes before their last scalar.
    pub open spec fn split_head(&self, unstable: Seq<u8>) -> Seq<u8> {
        unstable.subrange(0, unstable.len() - self.tail_split(unstable).unwrap())
    }

    /// The last scalar of the unstable bytes.
    pub open spec fn split_tail(&self, unstable: Seq<u8>) -> Seq<u8> {
        unstable.subrange(
            unstable.len() - self.tail_split(unstable).unwrap(),
            unstable.len() as int,
        )
    }

    /// Some candidate cannot be encoded, so that the completions cannot be listed.
    pub open spec fn completions_fail(&self, unstable: Seq<u8>) -> bool {
        ||| exists|i: int, key: Seq<u8>| #[trigger]
            self.straddles(unstable, i, key) && self.reencoded(unstable.subrange(0, i) + key) is None
        ||| self.tail_split(unstable) is Some && !(bpe_known(
            self.split_head(unstable),
            self.ranks(),
        ) && bpe_known(self.split_tail(unstable), self.ranks()))
    }

    /// `c` is one of the completions of the unstable bytes: the one token of a byte string
    /// that begins with them; or what a straddling byte string gives; or, where they end
    /// with white space, the tokens of what stands before that last scalar followed by the
    /// tokens of the scalar.
    pub open spec fn is_completion(&self, unstable: Seq<u8>, c: Seq<usize>) -> bool {
        ||| exists|key: Seq<u8>| #[trigger]
            self.extends(unstable, key) && c == seq![self.ranks()[key]]
        ||| exists|i: int, key: Seq<u8>| #[trigger]
            self.straddles(unstable, i, key) && c == self.straddle_completion(unstable, i, key)
        ||| self.tail_split(unstable) is Some && c == bpe_tokens(
            self.split_head(unstable),
            self.ranks(),
        ) + bpe_tokens(self.split_tail(unstable), self.ranks())
    }

    /// Whether a token is a space token.
    pub fn token_is_all_space(&self, token: usize) -> (r: bool)
        ensures
            r == self.space_token(token),
    {
        match token_bytes_of(&self.decoder, token) {
            Some(bytes) => bytes_all_space(bytes.as_slice()),
            None => false,
        }
    }

    /// Grows the number of unstable trailing tokens over the space tokens before them.
    pub fn _increase_last_piece_token_len(&self, tokens: Vec<usize>, last_piece_token_len: usize) -> (r: (
        Vec<usize>,
        usize,
    ))
        requires
            last_piece_token_len <= tokens@.len(),
        ensures
            r.0@ == tokens@,
            r.1 == self.increased_len(tokens@, last_piece_token_len as int),
            last_piece_token_len <= r.1 <= tokens@.len(),
    {
        let n: usize = tokens.len();
        let mut len: usize = last_piece_token_len;
        if len > 0 && self.token_is_all_space(tokens[n - len]) {
            while len < n && self.token_is_all_space(tokens[n - len - 1])
                invariant
                    n == tokens@.len(),
                    last_piece_token_len <= len <= n,
                    self.widened(tokens@, last_piece_token_len as int) == self.widened(
                        tokens@,
                        len as int,
                    ),
                decreases n - len,
            {
                len = len + 1;
            }
        }
        (tokens, len)
    }

    /// The number of bytes that a token stands for.
    pub fn token_len(&self, token: usize) -> (len: usize)
        ensures
            len == self.token_bytes(token).len(),
    {
        match token_bytes_of(&self.decoder, token) {
            Some(bytes) => bytes.len(),
            None => match token_bytes_of(&self.special_tokens_decoder, token) {
                Some(bytes) => bytes.len(),
                None => 0,
            },
        }
    }

    /// Takes leading tokens until their bytes reach `target` in length.
    #[verifier::rlimit(50)]
    pub fn take_until(&self, encoded: &Vec<usize>, target: usize) -> (seq: Vec<usize>)
        requires
            target >= 1,
        ensures
            seq@ == self.taken(encoded@, target as int),
    {
        let mut seq: Vec<usize> = Vec::new();
        let mut seq_len: usize = 0;
        let mut k: usize = 0;
        while k < encoded.len()
            invariant
                k <= encoded.len(),
                target >= 1,
                seq@ == encoded@.subrange(0, k as int),
                seq_len == self.decoded(encoded@.subrange(0, k as int)).len(),
                seq_len < target,
                self.cut(encoded@, target as int, 0) == self.cut(encoded@, target as int, k as int),
            decreases encoded.len() - k,
        {
            let token = encoded[k];
            let len = self.token_len(token);
            proof {
                assert(encoded@.subrange(0, k + 1).drop_last() =~= encoded@.subrange(0, k as int));
                assert(encoded@.subrange(0, k + 1).last() == token);
                assert(encoded@.subrange(0, k + 1) =~= seq@.push(token));
            }
            seq.push(token);
            if len >= target - seq_len {
                return seq;
            }
            seq_len = seq_len + len;
            k = k + 1;
        }
        seq
    }

    /// Encodes a candidate anew.
    pub fn reencode(&self, candidate: &[u8]) -> (r: Option<Vec<usize>>)
        ensures
            match r {
                Some(tokens) => self.reencoded(candidate@) == Some(tokens@),
                None => self.reencoded(candidate@) is None,
            },
    {
        match utf8_text(candidate) {
            Some(text) => self._encode_ordinary_native(text),
            None => {
                if candidate.len() == 0 {
                    None
                } else {
                    byte_pair_try_encode(candidate, &self.encoder)
                }
            },
        }
    }

    /// The one token of the sorted byte string at `idx`.
    pub open spec fn run_token(&self, idx: int) -> Seq<usize> {
        seq![self.ranks()[self.sorted_token_bytes@[idx]@]]
    }

    /// The completions of one token: the ranks of the byte strings of the table that begin
    /// with the unstable bytes, in the order of the byte strings.
    pub fn extension_completions(&self, unstable: &[u8]) -> (list: Vec<Vec<usize>>)
        requires
            self.wf(),
        ensures
            distinct(list@),
            forall|c: Seq<usize>|
                holds(list@, c) <==> exists|key: Seq<u8>| #[trigger]
                    self.extends(unstable@, key) && c == seq![self.ranks()[key]],
    {
        let run = prefix_run(&self.sorted_token_bytes, unstable);
        let mut list: Vec<Vec<usize>> = Vec::new();
        let mut j: usize = run.0;
        while j < run.1
            invariant
                self.wf(),
                run.0 <= j <= run.1 <= self.sorted_token_bytes@.len(),
                list@.len() == j - run.0,
                forall|k: int|
                    0 <= k < list@.len() ==> (#[trigger] list@[k])@ == self.run_token(run.0 + k),
            decreases run.1 - j,
        {
            let found = rank_of(&self.encoder, self.sorted_token_bytes[j].as_slice());
            assert(self.ranks().contains_key(self.sorted_token_bytes@[j as int]@));
            let item = vec![found.unwrap()];
            assert(item@ =~= self.run_token(j as int));
            list.push(item);
            j = j + 1;
        }
        proof {
            self.lemma_extension_run(unstable@, run.0 as int, run.1 as int, list@);
        }
        list
    }

    /// The tokens of the run of sorted byte strings that begin with the unstable bytes are
    /// the completions of one token, each once.
    #[verifier::rlimit(50)]
    pub proof fn lemma_extension_run(
        &self,
        unstable: Seq<u8>,
        lo: int,
        hi: int,
        list: Seq<Vec<usize>>,
    )
        requires
            self.wf(),
            0 <= lo <= hi <= self.sorted_token_bytes@.len(),
            forall|idx: int|
                0 <= idx < self.sorted_token_bytes@.len() ==> (starts_with(
                    (#[trigger] self.sorted_token_bytes@[idx])@,
                    unstable,
                ) <==> lo <= idx < hi),
            list.len() == hi - lo,
            forall|k: int| 0 <= k < list.len() ==> (#[trigger] list[k])@ == self.run_token(lo + k),
        ensures
            distinct(list),
            forall|c: Seq<usize>|
                holds(list, c) <==> exists|key: Seq<u8>| #[trigger]
                    self.extends(unstable, key) && c == seq![self.ranks()[key]],
    {
        let sorted = self.sorted_token_bytes@;
        assert forall|j: int, k: int| 0 <= j < k < list.len() implies (#[trigger] list[j])@
            != (#[trigger] list[k])@ by {
            let a = sorted[lo + j]@;
            let b = sorted[lo + k]@;
            assert(lex_less(a, b));
            if a == b {
                assert(a.subrange(0, a.len() as int) =~= a);
                lemma_prefix_not_less(a, a);
            }
            assert(self.ranks().contains_key(a) && self.ranks().contains_key(b));
            assert(self.run_token(lo + j)[0] == self.ranks()[a]);
            assert(self.run_token(lo + k)[0] == self.ranks()[b]);
        }
        assert forall|c: Seq<usize>|
            holds(list, c) <==> exists|key: Seq<u8>| #[trigger]
                self.extends(unstable, key) && c == seq![self.ranks()[key]] by {
            if holds(list, c) {
                let k = choose|k: int| 0 <= k < list.len() && (#[trigger] list[k])@ == c;
                assert(starts_with(sorted[lo + k]@, unstable));
                assert(self.extends(unstable, sorted[lo + k]@));
            }
            if exists|key: Seq<u8>| #[trigger]
                self.extends(unstable, key) && c == seq![self.ranks()[key]] {
                let key = choose|key: Seq<u8>| #[trigger]
                    self.extends(unstable, key) && c == seq![self.ranks()[key]];
                assert(self.ranks().contains_key(key));
                let idx = choose|idx: int| 0 <= idx < sorted.len() && (#[trigger] sorted[idx])@ == key;
                assert(starts_with(sorted[idx]@, unstable));
                assert(list[idx - lo]@ == c);
            }
        }
    }
}

/// The completion that the sorted byte string at `idx` gives as a straddling one.
pub open spec fn run_completion(core: CoreBPE, unstable: Seq<u8>, i: int, idx: int) -> Seq<usize> {
    core.straddle_completion(unstable, i, core.sorted_token_bytes@[idx]@)
}

/// The sorted byte strings from `lo` up to `hi` are those of the table that straddle
/// index `i` of the unstable bytes.
#[verifier::opaque]
pub open spec fn is_run(core: CoreBPE, unstable: Seq<u8>, i: int, lo: int, hi: int) -> bool {
    &&& 1 <= i < unstable.len()
    &&& 0 <= lo <= hi <= core.sorted_token_bytes@.len()
    &&& forall|idx: int|
        lo <= idx < hi ==> core.straddles(unstable, i, (#[trigger] core.sorted_token_bytes@[idx])@)
    &&& forall|key: Seq<u8>| #[trigger]
        core.straddles(unstable, i, key) ==> exists|idx: int|
            lo <= idx < hi && (#[trigger] core.sorted_token_bytes@[idx])@ == key
}

/// `list` holds what `start` held and the completions of the run from `lo` up to `j`,
/// each once, and every candidate of that part of the run could be encoded.
#[verifier::opaque]
pub open spec fn run_accounted(
    core: CoreBPE,
    unstable: Seq<u8>,
    i: int,
    lo: int,
    j: int,
    start: Seq<Vec<usize>>,
    list: Seq<Vec<usize>>,
) -> bool {
    &&& distinct(list)
    &&& forall|c: Seq<usize>|
        holds(list, c) <==> holds(start, c) || exists|idx: int|
            lo <= idx < j && c == #[trigger] run_completion(core, unstable, i, idx)
    &&& forall|idx: int|
        lo <= idx < j ==> core.candidate_fits(
            unstable.subrange(0, i) + (#[trigger] core.sorted_token_bytes@[idx])@,
        )
}

/// `list` holds the completions of one token and those of the byte strings that straddle
/// an index before `i`, each once, and every candidate so far could be encoded.
#[verifier::opaque]
pub open spec fn splits_accounted(core: CoreBPE, unstable: Seq<u8>, i: int, list: Seq<Vec<usize>>) -> bool {
    &&& distinct(list)
    &&& forall|c: Seq<usize>|
        holds(list, c) <==> (exists|key: Seq<u8>| #[trigger]
            core.extends(unstable, key) && c == seq![core.ranks()[key]]) || (exists|
            i2: int,
            key: Seq<u8>,
        | #[trigger]
            core.straddles(unstable, i2, key) && i2 < i && c == core.straddle_completion(
                unstable,
                i2,
                key,
            ))
    &&& forall|i2: int, key: Seq<u8>| #[trigger]
        core.straddles(unstable, i2, key) && i2 < i ==> core.candidate_fits(
            unstable.subrange(0, i2) + key,
        )
}

/// The run that `prefix_run` finds for the unstable bytes from `i` on is the run of the
/// byte strings that straddle `i`.
#[verifier::rlimit(50)]
pub proof fn lemma_is_run(core: CoreBPE, unstable: Seq<u8>, i: int, lo: int, hi: int)
    requires
        core.wf(),
        1 <= i < unstable.len(),
        0 <= lo <= hi <= core.sorted_token_bytes@.len(),
        forall|idx: int|
            0 <= idx < core.sorted_token_bytes@.len() ==> (starts_with(
                (#[trigger] core.sorted_token_bytes@[idx])@,
                unstable.subrange(i, unstable.len() as int),
            ) <==> lo <= idx < hi),
    ensures
        is_run(core, unstable, i, lo, hi),
{
    reveal(is_run);
    let sorted = core.sorted_token_bytes@;
    assert forall|key: Seq<u8>| #[trigger] core.straddles(unstable, i, key) implies exists|idx: int|

        lo <= idx < hi && (#[trigger] sorted[idx])@ == key by {
        let idx = choose|idx: int| 0 <= idx < sorted.len() && (#[trigger] sorted[idx])@ == key;
        assert(starts_with(sorted[idx]@, unstable.subrange(i, unstable.len() as int)));
    }
    assert forall|idx: int| lo <= idx < hi implies core.straddles(
        unstable,
        i,
        (#[trigger] sorted[idx])@,
    ) by {
        assert(core.ranks().contains_key(sorted[idx]@));
    }
}

/// Before the run is walked, the list holds what it held.
pub proof fn lemma_run_start(core: CoreBPE, unstable: Seq<u8>, i: int, lo: int, start: Seq<Vec<usize>>)
    requires
        distinct(start),
    ensures
        run_accounted(core, unstable, i, lo, lo, start, start),
{
    reveal(run_accounted);
}

/// One more completion in the list accounts for one more index of the run.
#[verifier::rlimit(50)]
pub proof fn lemma_run_step(
    core: CoreBPE,
    unstable: Seq<u8>,
    i: int,
    lo: int,
    j: int,
    start: Seq<Vec<usize>>,
    before: Seq<Vec<usize>>,
    after: Seq<Vec<usize>>,
)
    requires
        lo <= j,
        run_accounted(core, unstable, i, lo, j, start, before),
        distinct(after),
        forall|c: Seq<usize>|
            holds(after, c) <==> holds(before, c) || c == run_completion(core, unstable, i, j),
        core.candidate_fits(unstable.subrange(0, i) + core.sorted_token_bytes@[j]@),
    ensures
        run_accounted(core, unstable, i, lo, j + 1, start, after),
{
    reveal(run_accounted);
    assert forall|c: Seq<usize>|
        holds(after, c) <==> holds(start, c) || exists|idx: int|
            lo <= idx < j + 1 && c == #[trigger] run_completion(core, unstable, i, idx) by {
        if holds(before, c) && !holds(start, c) {
            let idx = choose|idx: int|
                lo <= idx < j && c == #[trigger] run_completion(core, unstable, i, idx);
            assert(lo <= idx < j + 1 && c == run_completion(core, unstable, i, idx));
        }
        if c == run_completion(core, unstable, i, j) {
            assert(lo <= j < j + 1 && c == run_completion(core, unstable, i, j));
        }
        if exists|idx: int|
            lo <= idx < j + 1 && c == #[trigger] run_completion(core, unstable, i, idx) {
            let idx = choose|idx: int|
                lo <= idx < j + 1 && c == #[trigger] run_completion(core, unstable, i, idx);
            if idx < j {
                assert(lo <= idx < j && c == run_completion(core, unstable, i, idx));
            }
        }
    }
}

/// A candidate of the run that cannot be encoded is a straddling byte string that cannot.
pub proof fn lemma_run_fail(core: CoreBPE, unstable: Seq<u8>, i: int, lo: int, hi: int, j: int)
    requires
        is_run(core, unstable, i, lo, hi),
        lo <= j < hi,
        core.reencoded(unstable.subrange(0, i) + core.sorted_token_bytes@[j]@) is None,
    ensures
        exists|key: Seq<u8>| #[trigger]
            core.straddles(unstable, i, key) && core.reencoded(unstable.subrange(0, i) + key) is None,
{
    reveal(is_run);
    assert(core.straddles(unstable, i, core.sorted_token_bytes@[j]@));
}

/// When the run has been walked, the list holds what it held and the completions of the
/// byte strings that straddle `i`.
#[verifier::rlimit(50)]
pub proof fn lemma_run_done(
    core: CoreBPE,
    unstable: Seq<u8>,
    i: int,
    lo: int,
    hi: int,
    start: Seq<Vec<usize>>,
    list: Seq<Vec<usize>>,
)
    requires
        is_run(core, unstable, i, lo, hi),
        run_accounted(core, unstable, i, lo, hi, start, list),
    ensures
        distinct(list),
        forall|c: Seq<usize>|
            holds(list, c) <==> holds(start, c) || exists|key: Seq<u8>| #[trigger]
                core.straddles(unstable, i, key) && c == core.straddle_completion(unstable, i, key),
        forall|key: Seq<u8>| #[trigger]
            core.straddles(unstable, i, key) ==> core.candidate_fits(unstable.subrange(0, i) + key),
{
    reveal(is_run);
    reveal(run_accounted);
    let sorted = core.sorted_token_bytes@;
    assert forall|key: Seq<u8>| #[trigger] core.straddles(unstable, i, key) implies core.candidate_fits(
        unstable.subrange(0, i) + key,
    ) by {
        let idx = choose|idx: int| lo <= idx < hi && (#[trigger] sorted[idx])@ == key;
        assert(core.candidate_fits(unstable.subrange(0, i) + sorted[idx]@));
    }
    assert forall|c: Seq<usize>|
        holds(list, c) <==> holds(start, c) || exists|key: Seq<u8>| #[trigger]
            core.straddles(unstable, i, key) && c == core.straddle_completion(unstable, i, key) by {
        if holds(list, c) && !holds(start, c) {
            let idx = choose|idx: int|
                lo <= idx < hi && c == #[trigger] run_completion(core, unstable, i, idx);
            assert(core.straddles(unstable, i, sorted[idx]@));
        }
        if exists|key: Seq<u8>| #[trigger]
            core.straddles(unstable, i, key) && c == core.straddle_completion(unstable, i, key) {
            let key = choose|key: Seq<u8>| #[trigger]
                core.straddles(unstable, i, key) && c == core.straddle_completion(unstable, i, key);
            let idx = choose|idx: int| lo <= idx < hi && (#[trigger] sorted[idx])@ == key;
            assert(lo <= idx < hi && c == run_completion(core, unstable, i, idx));
        }
    }
}

/// The completions of one token account for everything before the first split.
pub proof fn lemma_splits_start(core: CoreBPE, unstable: Seq<u8>, list: Seq<Vec<usize>>)
    requires
        distinct(list),
        forall|c: Seq<usize>|
            holds(list, c) <==> exists|key: Seq<u8>| #[trigger]
                core.extends(unstable, key) && c == seq![core.ranks()[key]],
    ensures
        splits_accounted(core, unstable, 1, list),
{
    reveal(splits_accounted);
}

/// The completions of the byte strings that straddle `i` account for one more split.
#[verifier::rlimit(50)]
pub proof fn lemma_splits_step(
    core: CoreBPE,
    unstable: Seq<u8>,
    i: int,
    before: Seq<Vec<usize>>,
    after: Seq<Vec<usize>>,
)
    requires
        splits_accounted(core, unstable, i, before),
        distinct(after),
        forall|c: Seq<usize>|
            holds(after, c) <==> holds(before, c) || exists|key: Seq<u8>| #[trigger]
                core.straddles(unstable, i, key) && c == core.straddle_completion(unstable, i, key),
        forall|key: Seq<u8>| #[trigger]
            core.straddles(unstable, i, key) ==> core.candidate_fits(unstable.subrange(0, i) + key),
    ensures
        splits_accounted(core, unstable, i + 1, after),
{
    reveal(splits_accounted);
    assert forall|c: Seq<usize>|
        holds(after, c) <==> (exists|key: Seq<u8>| #[trigger]
            core.extends(unstable, key) && c == seq![core.ranks()[key]]) || (exists|
            i2: int,
            key: Seq<u8>,
        | #[trigger]
            core.straddles(unstable, i2, key) && i2 < i + 1 && c == core.straddle_completion(
                unstable,
                i2,
                key,
            )) by {
        if holds(before, c) && !(exists|key: Seq<u8>| #[trigger]
            core.extends(unstable, key) && c == seq![core.ranks()[key]]) {
            let (i2, key) = choose|i2: int, key: Seq<u8>| #[trigger]
                core.straddles(unstable, i2, key) && i2 < i && c == core.straddle_completion(
                    unstable,
                    i2,
                    key,
                );
            assert(core.straddles(unstable, i2, key) && i2 < i + 1 && c
                == core.straddle_completion(unstable, i2, key));
        }
        if exists|key: Seq<u8>| #[trigger]
            core.straddles(unstable, i, key) && c == core.straddle_completion(unstable, i, key) {
            let key = choose|key: Seq<u8>| #[trigger]
                core.straddles(unstable, i, key) && c == core.straddle_completion(unstable, i, key);
            assert(core.straddles(unstable, i, key) && i < i + 1 && c == core.straddle_completion(
                unstable,
                i,
                key,
            ));
        }
        if exists|i2: int, key: Seq<u8>| #[trigger]
            core.straddles(unstable, i2, key) && i2 < i + 1 && c == core.straddle_completion(
                unstable,
                i2,
                key,
            ) {
            let (i2, key) = choose|i2: int, key: Seq<u8>| #[trigger]
                core.straddles(unstable, i2, key) && i2 < i + 1 && c == core.straddle_completion(
                    unstable,
                    i2,
                    key,
                );
            if i2 < i {
                assert(core.straddles(unstable, i2, key) && i2 < i && c
                    == core.straddle_completion(unstable, i2, key));
            }
        }
    }
}

/// When every split has been walked, the list holds the completions of the first two
/// kinds, and no straddling candidate failed.
#[verifier::rlimit(50)]
pub proof fn lemma_splits_done(core: CoreBPE, unstable: Seq<u8>, i: int, list: Seq<Vec<usize>>)
    requires
        splits_accounted(core, unstable, i, list),
        i >= unstable.len(),
    ensures
        distinct(list),
        forall|c: Seq<usize>|
            holds(list, c) <==> (exists|key: Seq<u8>| #[trigger]
                core.extends(unstable, key) && c == seq![core.ranks()[key]]) || (exists|
                i2: int,
                key: Seq<u8>,
            | #[trigger]
                core.straddles(unstable, i2, key) && c == core.straddle_completion(
                    unstable,
                    i2,
                    key,
                )),
        forall|i2: int, key: Seq<u8>| #[trigger]
            core.straddles(unstable, i2, key) ==> core.candidate_fits(unstable.subrange(0, i2) + key),
{
    reveal(splits_accounted);
    assert forall|c: Seq<usize>|
        holds(list, c) <==> (exists|key: Seq<u8>| #[trigger]
            core.extends(unstable, key) && c == seq![core.ranks()[key]]) || (exists|
            i2: int,
            key: Seq<u8>,
        | #[trigger]
            core.straddles(unstable, i2, key) && c == core.straddle_completion(unstable, i2, key)) by {
        if holds(list, c) && !(exists|key: Seq<u8>| #[trigger]
            core.extends(unstable, key) && c == seq![core.ranks()[key]]) {
            let (i2, key) = choose|i2: int, key: Seq<u8>| #[trigger]
                core.straddles(unstable, i2, key) && i2 < i && c == core.straddle_completion(
                    unstable,
                    i2,
                    key,
                );
            assert(core.straddles(unstable, i2, key) && c == core.straddle_completion(
                unstable,
                i2,
                key,
            ));
        }
        if exists|i2: int, key: Seq<u8>| #[trigger]
            core.straddles(unstable, i2, key) && c == core.straddle_completion(unstable, i2, key) {
            let (i2, key) = choose|i2: int, key: Seq<u8>| #[trigger]
                core.straddles(unstable, i2, key) && c == core.straddle_completion(unstable, i2, key);
            assert(core.straddles(unstable, i2, key) && i2 < i && c == core.straddle_completion(
                unstable,
                i2,
                key,
            ));
        }
    }
}

impl CoreBPE {
    /// Adds to `list` the completions of the byte strings that straddle index `i` of the
    /// unstable bytes. Gives `false`, with the list in no stated shape, where one of the
    /// candidates cannot be encoded.
    #[verifier::rlimit(50)]
    pub fn straddle_completions(&self, unstable: &[u8], i: usize, list: &mut Vec<Vec<usize>>) -> (ok:
        bool)
        requires
            self.wf(),
            1 <= i < unstable@.len(),
            distinct(old(list)@),
        ensures
            ok ==> distinct(final(list)@),
            ok ==> forall|c: Seq<usize>|
                #![trigger holds(final(list)@, c)]
                #![trigger holds(old(list)@, c)]
                holds(final(list)@, c) <==> holds(old(list)@, c) || exists|key: Seq<u8>| #[trigger]
                    self.straddles(unstable@, i as int, key) && c == self.straddle_completion(
                        unstable@,
                        i as int,
                        key,
                    ),
            ok ==> forall|key: Seq<u8>| #[trigger]
                self.straddles(unstable@, i as int, key) ==> self.candidate_fits(
                    unstable@.subrange(0, i as int) + key,
                ),
            !ok ==> exists|key: Seq<u8>| #[trigger]
                self.straddles(unstable@, i as int, key) && self.reencoded(
                    unstable@.subrange(0, i as int) + key,
                ) is None,
    {
        let ghost start = list@;
        let prefix = slice_subrange(unstable, 0, i);
        let suffix = slice_subrange(unstable, i, unstable.len());
        let run = prefix_run(&self.sorted_token_bytes, suffix);
        proof {
            lemma_is_run(*self, unstable@, i as int, run.0 as int, run.1 as int);
            lemma_run_start(*self, unstable@, i as int, run.0 as int, start);
        }
        let mut j: usize = run.0;
        while j < run.1
            invariant
                1 <= i < unstable@.len(),
                prefix@ == unstable@.subrange(0, i as int),
                run.0 <= j <= run.1 <= self.sorted_token_bytes@.len(),
                is_run(*self, unstable@, i as int, run.0 as int, run.1 as int),
                run_accounted(*self, unstable@, i as int, run.0 as int, j as int, start, list@),
                distinct(list@),
            decreases run.1 - j,
        {
            let ghost before = list@;
            let entry = self.sorted_token_bytes[j].as_slice();
            let mut candidate = slice_to_vec(prefix);
            candidate.extend_from_slice(entry);
            assert(candidate@ == unstable@.subrange(0, i as int) + self.sorted_token_bytes@[j as int]@);
            let encoded = match self.reencode(candidate.as_slice()) {
                Some(encoded) => encoded,
                None => {
                    proof {
                        lemma_run_fail(
                            *self,
                            unstable@,
                            i as int,
                            run.0 as int,
                            run.1 as int,
                            j as int,
                        );
                    }
                    return false;
                },
            };
            let seq = self.take_until(&encoded, unstable.len());
            assert(seq@ == run_completion(*self, unstable@, i as int, j as int));
            push_unique(list, seq);
            proof {
                lemma_run_step(
                    *self,
                    unstable@,
                    i as int,
                    run.0 as int,
                    j as int,
                    start,
                    before,
                    list@,
                );
            }
            j = j + 1;
        }
        proof {
            lemma_run_done(*self, unstable@, i as int, run.0 as int, run.1 as int, start, list@);
        }
        true
    }

    /// The tokens of the unstable bytes cut before their last scalar, where they end with
    /// white space: `Some(None)` where they do not, `None` where a part cannot be encoded.
    pub fn tail_completion(&self, unstable: &[u8]) -> (r: Option<Option<Vec<usize>>>)
        requires
            unstable@.len() >= 1,
        ensures
            match r {
                Some(Some(tokens)) => self.tail_split(unstable@) is Some && bpe_known(
                    self.split_head(unstable@),
                    self.ranks(),
                ) && bpe_known(self.split_tail(unstable@), self.ranks()) && tokens@ == bpe_tokens(
                    self.split_head(unstable@),
                    self.ranks(),
                ) + bpe_tokens(self.split_tail(unstable@), self.ranks()),
                Some(None) => self.tail_split(unstable@) is None,
                None => self.tail_split(unstable@) is Some && !(bpe_known(
                    self.split_head(unstable@),
                    self.ranks(),
                ) && bpe_known(self.split_tail(unstable@), self.ranks())),
            },
    {
        let n: usize = unstable.len();
        if n <= 1 {
            return Some(None);
        }
        let last = last_scalar(unstable);
        let white = match last.0 {
            Some(c) => is_whitespace(c),
            None => false,
        };
        let cut: usize = match tail_cut(n, last.1, white) {
            Some(cut) => cut,
            None => {
                return Some(None);
            },
        };
        let head = slice_subrange(unstable, 0, n - cut);
        let tail = slice_subrange(unstable, n - cut, n);
        let mut reencoded = match byte_pair_try_encode(head, &self.encoder) {
            Some(tokens) => tokens,
            None => {
                return None;
            },
        };
        let mut rest = match byte_pair_try_encode(tail, &self.encoder) {
            Some(tokens) => tokens,
            None => {
                return None;
            },
        };
        reencoded.append(&mut rest);
        Some(Some(reencoded))
    }

    /// Lists the completions of the unstable bytes, each once; `None` where a candidate
    /// cannot be encoded.
    #[verifier::rlimit(50)]
    pub fn unstable_completions(&self, unstable: &[u8]) -> (r: Option<Vec<Vec<usize>>>)
        requires
            self.wf(),
            unstable@.len() >= 1,
        ensures
            r is None <==> self.completions_fail(unstable@),
            match r {
                Some(list) => distinct(list@) && forall|c: Seq<usize>|
                    #![trigger holds(list@, c)]
                    #![trigger self.is_completion(unstable@, c)]
                    holds(list@, c) <==> self.is_completion(unstable@, c),
                None => true,
            },
            r is Some ==> forall|i: int, key: Seq<u8>| #[trigger]
                self.straddles(unstable@, i, key) ==> self.candidate_fits(
                    unstable@.subrange(0, i) + key,
                ),
    {
        let mut list = self.extension_completions(unstable);
        proof {
            lemma_splits_start(*self, unstable@, list@);
        }
        let mut i: usize = 1;
        while i < unstable.len()
            invariant
                self.wf(),
                1 <= i <= unstable@.len(),
                splits_accounted(*self, unstable@, i as int, list@),
                distinct(list@),
            decreases unstable.len() - i,
        {
            let ghost before = list@;
            if !self.straddle_completions(unstable, i, &mut list) {
                return None;
            }
            proof {
                lemma_splits_step(*self, unstable@, i as int, before, list@);
            }
            i = i + 1;
        }
        proof {
            lemma_splits_done(*self, unstable@, i as int, list@);
        }
        match self.tail_completion(unstable) {
            Some(Some(tokens)) => {
                push_unique(&mut list, tokens);
            },
            Some(None) => {},
            None => {
                return None;
            },
        }
        Some(list)
    }
}

impl CoreBPE {
    /// The tokens that stay when the last `len` tokens, grown over the space tokens before
    /// them, are taken off as unstable.
    pub open spec fn stable_tokens(&self, tokens: Seq<usize>, len: int) -> Seq<usize> {
        tokens.subrange(0, tokens.len() - self.increased_len(tokens, len))
    }

    /// The bytes of the tokens that are taken off as unstable.
    pub open spec fn unstable_bytes(&self, tokens: Seq<usize>, len: int) -> Seq<u8> {
        self.decoded(
            tokens.subrange(tokens.len() - self.increased_len(tokens, len), tokens.len() as int),
        )
    }

    /// The unstable bytes of a text that has an encoding.
    pub open spec fn unstable_of(&self, text: Seq<u8>, allowed: Set<Seq<char>>) -> Seq<u8> {
        self.unstable_bytes(
            self.encoding(text, allowed).unwrap().0,
            self.encoding(text, allowed).unwrap().1 as int,
        )
    }

    /// What encoding with completions gives: nothing where the text, or a candidate for a
    /// completion, cannot be encoded; else the stable tokens and, each once, the
    /// completions of the unstable bytes (none where there are no unstable bytes). A
    /// `usize` then holds the length of the unstable bytes and of each candidate.
    pub open spec fn unstable_outcome(
        &self,
        text: Seq<u8>,
        allowed: Set<Seq<char>>,
        r: Option<(Vec<usize>, Vec<Vec<usize>>)>,
    ) -> bool {
        match self.encoding(text, allowed) {
            Some(done) => {
                let unstable = self.unstable_bytes(done.0, done.1 as int);
                &&& r is None <==> unstable.len() > 0 && self.completions_fail(unstable)
                &&& match r {
                    Some(found) => {
                        &&& found.0@ == self.stable_tokens(done.0, done.1 as int)
                        &&& distinct(found.1@)
                        &&& forall|c: Seq<usize>|
                            #![trigger holds(found.1@, c)]
                            #![trigger self.is_completion(unstable, c)]
                            holds(found.1@, c) <==> unstable.len() > 0 && self.is_completion(
                                unstable,
                                c,
                            )
                        &&& unstable.len() <= usize::MAX
                        &&& forall|i: int, key: Seq<u8>| #[trigger]
                            self.straddles(unstable, i, key) ==> self.candidate_fits(
                                unstable.subrange(0, i) + key,
                            )
                    },
                    None => true,
                }
            },
            None => r is None,
        }
    }

    /// Encodes a text and lists, for its unstable end, the token sequences that may take
    /// its place once more text follows. The tokens that come back are the stable ones.
    #[verifier::rlimit(50)]
    pub fn _encode_unstable_native(&self, text: &str, allowed: &Vec<String>) -> (r: Option<
        (Vec<usize>, Vec<Vec<usize>>),
    >)
        requires
            self.wf(),
        ensures
            self.unstable_outcome(text.spec_bytes(), literal_set(allowed@), r),
    {
        let (tokens, last_piece_token_len) = match self._encode_native(text, allowed) {
            Some(done) => done,
            None => {
                return None;
            },
        };
        let ghost all = tokens@;
        let (mut tokens, len) = self._increase_last_piece_token_len(tokens, last_piece_token_len);
        let n: usize = tokens.len();
        let unstable = self._decode_native(slice_subrange(tokens.as_slice(), n - len, n));
        tokens.truncate(n - len);
        assert(tokens@ == self.stable_tokens(all, last_piece_token_len as int));
        assert(unstable@ == self.unstable_bytes(all, last_piece_token_len as int));
        if unstable.len() == 0 {
            let completions: Vec<Vec<usize>> = Vec::new();
            return Some((tokens, completions));
        }
        match self.unstable_completions(unstable.as_slice()) {
            Some(completions) => Some((tokens, completions)),
            None => None,
        }
    }

    /// Encodes a text and lists the completions of its unstable end.
    pub fn encode_with_unstable(&self, text: &str, allowed_special: &Vec<String>) -> (r: Result<
        (Vec<usize>, Vec<Vec<usize>>),
        TiktokenError,
    >)
        requires
            self.wf(),
        ensures
            match r {
                Ok(found) => self.unstable_outcome(
                    text.spec_bytes(),
                    literal_set(allowed_special@),
                    Some(found),
                ),
                Err(e) => e == TiktokenError::EncodeFailure && self.unstable_outcome(
                    text.spec_bytes(),
                    literal_set(allowed_special@),
                    None,
                ),
            },
    {
        match self._encode_unstable_native(text, allowed_special) {
            Some(found) => Ok(found),
            None => Err(TiktokenError::EncodeFailure),
        }
    }

    /// The tokens of bytes that need not be valid UTF-8: those of the text where they are,
    /// else those of the longest valid prefix, with the tokens of its unstable end
    /// replaced by the byte-pair merging of that end and the bytes that follow it.
    pub open spec fn bytes_encoding(&self, bytes: Seq<u8>) -> Option<Seq<usize>> {
        let valid_len = valid_len(bytes);
        if valid_utf8(bytes) {
            match self.region_tokens(bytes) {
                Some(done) => Some(done.0),
                None => None,
            }
        } else {
            match self.encoding(bytes.subrange(0, valid_len), Set::empty()) {
                Some(done) => {
                    let len = self.increased_len(done.0, done.1 as int);
                    if done.0.len() > 0 && len > 0 {
                        let rest = self.unstable_bytes(done.0, done.1 as int) + bytes.subrange(
                            valid_len,
                            bytes.len() as int,
                        );
                        if rest.len() >= 1 && bpe_known(rest, self.ranks()) {
                            Some(
                                self.stable_tokens(done.0, done.1 as int) + bpe_tokens(
                                    rest,
                                    self.ranks(),
                                ),
                            )
                        } else {
                            None
                        }
                    } else {
                        Some(done.0)
                    }
                },
                None => None,
            }
        }
    }

    /// Encodes bytes that need not be valid UTF-8.
    #[verifier::rlimit(50)]
    pub fn _encode_bytes(&self, bytes: &[u8]) -> (r: Result<Vec<usize>, TiktokenError>)
        ensures
            match r {
                Ok(tokens) => self.bytes_encoding(bytes@) == Some(tokens@),
                Err(e) => e == TiktokenError::EncodeFailure && self.bytes_encoding(bytes@) is None,
            },
    {
        let valid_len = valid_prefix_len(bytes);
        match utf8_text(bytes) {
            Some(text) => match self._encode_ordinary_native(text) {
                Some(tokens) => Ok(tokens),
                None => Err(TiktokenError::EncodeFailure),
            },
            None => {
                let text = match utf8_text(slice_subrange(bytes, 0, valid_len)) {
                    Some(text) => text,
                    None => {
                        return Err(TiktokenError::EncodeFailure);
                    },
                };
                let nothing: Vec<String> = Vec::new();
                assert(literal_set(nothing@) =~= Set::<Seq<char>>::empty());
                let (tokens, last_piece_token_len) = match self._encode_native(text, &nothing) {
                    Some(done) => done,
                    None => {
                        return Err(TiktokenError::EncodeFailure);
                    },
                };
                let ghost all = tokens@;
                let (mut tokens, len) = self._increase_last_piece_token_len(
                    tokens,
                    last_piece_token_len,
                );
                if tokens.len() > 0 && len > 0 {
                    let n: usize = tokens.len();
                    let mut unstable = self._decode_native(
                        slice_subrange(tokens.as_slice(), n - len, n),
                    );
                    unstable.extend_from_slice(slice_subrange(bytes, valid_len, bytes.len()));
                    tokens.truncate(n - len);
                    assert(tokens@ == self.stable_tokens(all, last_piece_token_len as int));
                    assert(unstable@ == self.unstable_bytes(all, last_piece_token_len as int)
                        + bytes@.subrange(valid_len as int, bytes@.len() as int));
                    if unstable.len() == 0 {
                        return Err(TiktokenError::EncodeFailure);
                    }
                    match byte_pair_try_encode(unstable.as_slice(), &self.encoder) {
                        Some(mut rest) => {
                            tokens.append(&mut rest);
                        },
                        None => {
                            return Err(TiktokenError::EncodeFailure);
                        },
                    }
                }
                Ok(tokens)
            },
        }
    }
}

} // verus!
