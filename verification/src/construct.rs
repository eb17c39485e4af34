use crate::bpe::CoreBPE;
use crate::error::TiktokenError;
use crate::order::{sort_distinct, strictly_sorted, views};
use crate::pattern::{compile, escape, escaped, regex_compiles};
use crate::table::{
    new_token_table, rank_entries, rank_pairs, special_entries, special_pairs, token_bytes_of,
    token_insert,
};
use rustc_hash::FxHashMap;
use vstd::prelude::*;
use vstd::slice::slice_to_vec;
use vstd::string::StringExecFns;
use vstd::utf8::{decode_utf8, encode_utf8, valid_utf8};

verus! {

/// A rank table as the data model asks for it: no empty byte string, and no rank twice.
pub open spec fn ranks_well_formed(ranks: Map<Seq<u8>, usize>) -> bool {
    &&& forall|key: Seq<u8>| #[trigger] ranks.contains_key(key) ==> key.len() > 0
    &&& forall|a: Seq<u8>, b: Seq<u8>|
        #[trigger] ranks.contains_key(a) && #[trigger] ranks.contains_key(b) && ranks[a] == ranks[b]
            ==> a == b
}

/// Special tokens as the data model asks for them: no id twice, and none that is a rank.
pub open spec fn specials_well_formed(
    ranks: Map<Seq<u8>, usize>,
    specials: Map<Seq<char>, usize>,
) -> bool {
    &&& forall|a: Seq<char>, b: Seq<char>|
        #[trigger] specials.contains_key(a) && #[trigger] specials.contains_key(b) && specials[a]
            == specials[b] ==> a == b
    &&& forall|literal: Seq<char>, key: Seq<u8>|
        #[trigger] specials.contains_key(literal) && #[trigger] ranks.contains_key(key)
            ==> specials[literal] != ranks[key]
}

/// `decoder` maps each rank back to its byte string, and holds nothing else.
pub open spec fn inverts(ranks: Map<Seq<u8>, usize>, decoder: Map<usize, Vec<u8>>) -> bool {
    &&& forall|key: Seq<u8>| #[trigger]
        ranks.contains_key(key) ==> decoder.contains_key(ranks[key]) && decoder[ranks[key]]@ == key
    &&& forall|token: usize| #[trigger]
        decoder.contains_key(token) ==> ranks.contains_key(decoder[token]@)
            && ranks[decoder[token]@] == token
}

/// `decoder` maps each special token's id back to the bytes of its literal, and holds
/// nothing else.
pub open spec fn inverts_specials(
    specials: Map<Seq<char>, usize>,
    decoder: Map<usize, Vec<u8>>,
) -> bool {
    &&& forall|literal: Seq<char>| #[trigger]
        specials.contains_key(literal) ==> decoder.contains_key(specials[literal])
            && decoder[specials[literal]]@ == encode_utf8(literal)
    &&& forall|token: usize| #[trigger]
        decoder.contains_key(token) ==> valid_utf8(decoder[token]@) && specials.contains_key(
            decode_utf8(decoder[token]@),
        ) && specials[decode_utf8(decoder[token]@)] == token
}

/// `entries` lists the byte strings of the table, each once.
pub open spec fn lists_keys(entries: Seq<Vec<u8>>, ranks: Map<Seq<u8>, usize>) -> bool {
    &&& forall|i: int| 0 <= i < entries.len() ==> ranks.contains_key((#[trigger] entries[i])@)
    &&& forall|key: Seq<u8>| #[trigger]
        ranks.contains_key(key) ==> exists|i: int|
            0 <= i < entries.len() && (#[trigger] entries[i])@ == key
}

/// The pattern that matches any of the literals: each escaped, with `|` between them.
pub open spec fn alternation(literals: Seq<Seq<char>>) -> Seq<char>
    decreases literals.len(),
{
    if literals.len() == 0 {
        Seq::empty()
    } else if literals.len() == 1 {
        escaped(literals[0])
    } else {
        alternation(literals.drop_last()).push('|') + escaped(literals.last())
    }
}

/// `order` names each literal of the special tokens once.
pub open spec fn lists_literals(order: Seq<Seq<char>>, specials: Map<Seq<char>, usize>) -> bool {
    &&& order.no_duplicates()
    &&& forall|literal: Seq<char>| order.contains(literal) <==> specials.contains_key(literal)
}

/// Whatever the order in which the special literals are listed, the pattern that finds
/// them compiles.
pub open spec fn special_patterns_compile(specials: Map<Seq<char>, usize>) -> bool {
    forall|order: Seq<Seq<char>>| #[trigger]
        lists_literals(order, specials) ==> regex_compiles(alternation(order))
}

impl CoreBPE {
    /// The invariant of a tokenizer: the two tables are as the data model asks, each
    /// decoder is the inverse of its table, and the sorted byte strings are those of the
    /// rank table in strictly rising order.
    pub open spec fn wf(&self) -> bool {
        &&& ranks_well_formed(self.ranks())
        &&& specials_well_formed(self.ranks(), self.specials())
        &&& inverts(self.ranks(), self.decoder@)
        &&& inverts_specials(self.specials(), self.special_tokens_decoder@)
        &&& strictly_sorted(self.sorted_token_bytes@)
        &&& lists_keys(self.sorted_token_bytes@, self.ranks())
    }
}

/// Builds the inverse of a rank table and the list of its byte strings in rising order;
/// `None` where the table holds an empty byte string or a rank twice.
#[verifier::rlimit(50)]
pub fn invert_ranks(encoder: &FxHashMap<Vec<u8>, usize>) -> (r: Option<
    (FxHashMap<usize, Vec<u8>>, Vec<Vec<u8>>),
>)
    ensures
        r is Some <==> ranks_well_formed(rank_entries(*encoder)),
        match r {
            Some(built) => inverts(rank_entries(*encoder), built.0@) && strictly_sorted(built.1@)
                && lists_keys(built.1@, rank_entries(*encoder)),
            None => true,
        },
{
    let ghost ranks = rank_entries(*encoder);
    let pairs = rank_pairs(encoder);
    let mut decoder = new_token_table();
    let mut sorted: Vec<Vec<u8>> = Vec::new();
    let mut i: usize = 0;
    while i < pairs.len()
        invariant
            ranks == rank_entries(*encoder),
            i <= pairs.len(),
            forall|j: int|
                0 <= j < pairs@.len() ==> ranks.contains_key((#[trigger] pairs@[j]).0@)
                    && ranks[pairs@[j].0@] == pairs@[j].1,
            forall|j: int, k: int|
                0 <= j < k < pairs@.len() ==> (#[trigger] pairs@[j]).0@ != (#[trigger] pairs@[k]).0@,
            forall|j: int|
                0 <= j < i ==> decoder@.contains_key((#[trigger] pairs@[j]).1)
                    && decoder@[pairs@[j].1]@ == pairs@[j].0@ && pairs@[j].0@.len() > 0,
            forall|token: usize| #[trigger]
                decoder@.contains_key(token) ==> exists|j: int|
                    0 <= j < i && (#[trigger] pairs@[j]).1 == token,
            sorted@.len() == i,
            forall|j: int| 0 <= j < i ==> (#[trigger] sorted@[j])@ == pairs@[j].0@,
        decreases pairs.len() - i,
    {
        let rank: usize = pairs[i].1;
        if pairs[i].0.len() == 0 {
            proof {
                assert(ranks.contains_key(pairs@[i as int].0@));
            }
            return None;
        }
        if token_bytes_of(&decoder, rank).is_some() {
            proof {
                let j = choose|j: int| 0 <= j < i && (#[trigger] pairs@[j]).1 == rank;
                assert(ranks.contains_key(pairs@[j].0@));
                assert(ranks.contains_key(pairs@[i as int].0@));
                assert(pairs@[j].0@ != pairs@[i as int].0@);
            }
            return None;
        }
        let key = slice_to_vec(pairs[i].0.as_slice());
        let copy = slice_to_vec(pairs[i].0.as_slice());
        token_insert(&mut decoder, rank, key);
        sorted.push(copy);
        i = i + 1;
    }
    proof {
        assert forall|key: Seq<u8>| #[trigger] ranks.contains_key(key) implies key.len() > 0
            && decoder@.contains_key(ranks[key]) && decoder@[ranks[key]]@ == key by {
            let j = choose|j: int| 0 <= j < pairs@.len() && (#[trigger] pairs@[j]).0@ == key;
            assert(decoder@.contains_key(pairs@[j].1));
        }
        assert forall|token: usize| #[trigger] decoder@.contains_key(token) implies ranks.contains_key(
            decoder@[token]@,
        ) && ranks[decoder@[token]@] == token by {
            let j = choose|j: int| 0 <= j < i && (#[trigger] pairs@[j]).1 == token;
            assert(ranks.contains_key(pairs@[j].0@));
        }
        assert forall|a: Seq<u8>, b: Seq<u8>|
            #[trigger] ranks.contains_key(a) && #[trigger] ranks.contains_key(b) && ranks[a]
                == ranks[b] implies a == b by {
            assert(decoder@[ranks[a]]@ == a);
            assert(decoder@[ranks[b]]@ == b);
        }
        let keys = views(sorted@);
        assert forall|j: int, k: int| 0 <= j < keys.len() && 0 <= k < keys.len() && j != k implies keys[j]
            != keys[k] by {
            assert(sorted@[j]@ == pairs@[j].0@);
            assert(sorted@[k]@ == pairs@[k].0@);
            if j < k {
                assert(pairs@[j].0@ != pairs@[k].0@);
            } else {
                assert(pairs@[k].0@ != pairs@[j].0@);
            }
        }
    }
    let ghost unsorted = sorted@;
    sort_distinct(&mut sorted);
    proof {
        assert forall|j: int| 0 <= j < sorted@.len() implies ranks.contains_key(
            (#[trigger] sorted@[j])@,
        ) by {
            assert(views(sorted@)[j] == sorted@[j]@);
            assert(views(sorted@).contains(sorted@[j]@));
            assert(views(unsorted).contains(sorted@[j]@));
            let k = choose|k: int| 0 <= k < views(unsorted).len() && views(unsorted)[k] == sorted@[j]@;
            assert(unsorted[k]@ == pairs@[k].0@);
        }
        assert forall|key: Seq<u8>| #[trigger] ranks.contains_key(key) implies exists|j: int|
            0 <= j < sorted@.len() && (#[trigger] sorted@[j])@ == key by {
            let k = choose|k: int| 0 <= k < pairs@.len() && (#[trigger] pairs@[k]).0@ == key;
            assert(views(unsorted)[k] == key);
            assert(views(unsorted).contains(key));
            assert(views(sorted@).contains(key));
            let j = choose|j: int| 0 <= j < views(sorted@).len() && views(sorted@)[j] == key;
            assert(sorted@[j]@ == key);
        }
    }
    Some((decoder, sorted))
}

/// Builds the inverse of the special tokens and the pattern that finds them; `None` where
/// an id stands twice or is a rank.
#[verifier::rlimit(50)]
pub fn invert_specials(
    special_tokens_encoder: &FxHashMap<String, usize>,
    encoder: &FxHashMap<Vec<u8>, usize>,
    decoder: &FxHashMap<usize, Vec<u8>>,
) -> (r: Option<(FxHashMap<usize, Vec<u8>>, String)>)
    requires
        inverts(rank_entries(*encoder), decoder@),
    ensures
        r is Some <==> specials_well_formed(
            rank_entries(*encoder),
            special_entries(*special_tokens_encoder),
        ),
        match r {
            Some(built) => inverts_specials(special_entries(*special_tokens_encoder), built.0@)
                && exists|order: Seq<Seq<char>>|
                lists_literals(order, special_entries(*special_tokens_encoder)) && built.1@
                    == alternation(order),
            None => true,
        },
{
    let ghost ranks = rank_entries(*encoder);
    let ghost specials = special_entries(*special_tokens_encoder);
    let pairs = special_pairs(special_tokens_encoder);
    let ghost order = Seq::new(pairs@.len(), |j: int| pairs@[j].0@);
    let mut special_decoder = new_token_table();
    let mut pattern = String::new();
    let mut i: usize = 0;
    while i < pairs.len()
        invariant
            specials == special_entries(*special_tokens_encoder),
            ranks == rank_entries(*encoder),
            inverts(ranks, decoder@),
            order == Seq::new(pairs@.len(), |j: int| pairs@[j].0@),
            i <= pairs.len(),
            forall|j: int|
                0 <= j < pairs@.len() ==> specials.contains_key((#[trigger] pairs@[j]).0@)
                    && specials[pairs@[j].0@] == pairs@[j].1,
            forall|j: int, k: int|
                0 <= j < k < pairs@.len() ==> (#[trigger] pairs@[j]).0@ != (#[trigger] pairs@[k]).0@,
            forall|j: int|
                0 <= j < i ==> special_decoder@.contains_key((#[trigger] pairs@[j]).1)
                    && special_decoder@[pairs@[j].1]@ == encode_utf8(pairs@[j].0@)
                    && !decoder@.contains_key(pairs@[j].1),
            forall|token: usize| #[trigger]
                special_decoder@.contains_key(token) ==> exists|j: int|
                    0 <= j < i && (#[trigger] pairs@[j]).1 == token,
            pattern@ == alternation(order.subrange(0, i as int)),
        decreases pairs.len() - i,
    {
        let id: usize = pairs[i].1;
        if token_bytes_of(decoder, id).is_some() {
            proof {
                assert(specials.contains_key(pairs@[i as int].0@));
                assert(ranks.contains_key(decoder@[id]@));
            }
            return None;
        }
        if token_bytes_of(&special_decoder, id).is_some() {
            proof {
                let j = choose|j: int| 0 <= j < i && (#[trigger] pairs@[j]).1 == id;
                assert(specials.contains_key(pairs@[j].0@));
                assert(specials.contains_key(pairs@[i as int].0@));
                assert(pairs@[j].0@ != pairs@[i as int].0@);
            }
            return None;
        }
        let literal = pairs[i].0.as_str();
        token_insert(&mut special_decoder, id, slice_to_vec(literal.as_bytes()));
        if i > 0 {
            proof {
                reveal_strlit("|");
            }
            pattern.append("|");
            assert(pattern@ =~= alternation(order.subrange(0, i as int)).push('|'));
        }
        let quoted = escape(literal);
        pattern.append(quoted.as_str());
        proof {
            let upto = order.subrange(0, i + 1);
            assert(upto.drop_last() =~= order.subrange(0, i as int));
            assert(upto.last() == pairs@[i as int].0@);
            if i == 0 {
                assert(pattern@ =~= escaped(upto[0]));
            }
        }
        i = i + 1;
    }
    proof {
        assert(order.subrange(0, i as int) =~= order);
        assert forall|literal: Seq<char>| #[trigger] specials.contains_key(literal) implies special_decoder@.contains_key(
            specials[literal],
        ) && special_decoder@[specials[literal]]@ == encode_utf8(literal) by {
            let j = choose|j: int| 0 <= j < pairs@.len() && (#[trigger] pairs@[j]).0@ == literal;
            assert(special_decoder@.contains_key(pairs@[j].1));
        }
        assert forall|token: usize| #[trigger] special_decoder@.contains_key(token) implies valid_utf8(
            special_decoder@[token]@,
        ) && specials.contains_key(decode_utf8(special_decoder@[token]@))
            && specials[decode_utf8(special_decoder@[token]@)] == token by {
            let j = choose|j: int| 0 <= j < i && (#[trigger] pairs@[j]).1 == token;
            assert(specials.contains_key(pairs@[j].0@));
            vstd::utf8::encode_utf8_valid_utf8(pairs@[j].0@);
            vstd::utf8::encode_utf8_decode_utf8(pairs@[j].0@);
        }
        assert forall|a: Seq<char>, b: Seq<char>|
            #[trigger] specials.contains_key(a) && #[trigger] specials.contains_key(b) && specials[a]
                == specials[b] implies a == b by {
            crate::text::lemma_same_bytes(a, b);
        }
        assert forall|literal: Seq<char>, key: Seq<u8>|
            #[trigger] specials.contains_key(literal) && #[trigger] ranks.contains_key(key) implies specials[literal]
            != ranks[key] by {
            let j = choose|j: int| 0 <= j < pairs@.len() && (#[trigger] pairs@[j]).0@ == literal;
            assert(!decoder@.contains_key(pairs@[j].1));
        }
        assert forall|literal: Seq<char>| order.contains(literal) <==> specials.contains_key(
            literal,
        ) by {
            if specials.contains_key(literal) {
                let j = choose|j: int| 0 <= j < pairs@.len() && (#[trigger] pairs@[j]).0@ == literal;
                assert(order[j] == literal);
            }
            if order.contains(literal) {
                let j = choose|j: int| 0 <= j < order.len() && order[j] == literal;
                assert(specials.contains_key(pairs@[j].0@));
            }
        }
        assert forall|j: int, k: int| 0 <= j < order.len() && 0 <= k < order.len() && j != k implies order[j]
            != order[k] by {
            if j < k {
                assert(pairs@[j].0@ != pairs@[k].0@);
            } else {
                assert(pairs@[k].0@ != pairs@[j].0@);
            }
        }
        assert(lists_literals(order, specials) && pattern@ == alternation(order));
    }
    Some((special_decoder, pattern))
}

impl CoreBPE {
    /// Builds a tokenizer from a rank table, the special tokens and the pattern that cuts
    /// a text into pieces. The tables are checked first, then the pattern is compiled, then
    /// the pattern that finds the special tokens.
    pub fn new(
        encoder: FxHashMap<Vec<u8>, usize>,
        special_tokens_encoder: FxHashMap<String, usize>,
        pattern: &str,
    ) -> (r: Result<CoreBPE, TiktokenError>)
        ensures
            match r {
                Ok(core) => {
                    &&& core.wf()
                    &&& core.encoder == encoder
                    &&& core.special_tokens_encoder == special_tokens_encoder
                    &&& core.source() == pattern@
                    &&& regex_compiles(pattern@)
                    &&& exists|order: Seq<Seq<char>>|
                        lists_literals(order, core.specials()) && core.special_source()
                            == alternation(order)
                },
                Err(e) => {
                    &&& e == TiktokenError::MalformedMergeTable || e == TiktokenError::InvalidPattern
                    &&& e == TiktokenError::MalformedMergeTable <==> !(ranks_well_formed(
                        rank_entries(encoder),
                    ) && specials_well_formed(
                        rank_entries(encoder),
                        special_entries(special_tokens_encoder),
                    ))
                },
            },
            !regex_compiles(pattern@) ==> r is Err,
            ranks_well_formed(rank_entries(encoder)) && specials_well_formed(
                rank_entries(encoder),
                special_entries(special_tokens_encoder),
            ) && regex_compiles(pattern@) && special_patterns_compile(
                special_entries(special_tokens_encoder),
            ) ==> r is Ok,
    {
        let (decoder, sorted_token_bytes) = match invert_ranks(&encoder) {
            Some(built) => built,
            None => {
                return Err(TiktokenError::MalformedMergeTable);
            },
        };
        let (special_tokens_decoder, special_pattern) = match invert_specials(
            &special_tokens_encoder,
            &encoder,
            &decoder,
        ) {
            Some(built) => built,
            None => {
                return Err(TiktokenError::MalformedMergeTable);
            },
        };
        let regex = match compile(pattern) {
            Ok(regex) => regex,
            Err(_) => {
                return Err(TiktokenError::InvalidPattern);
            },
        };
        let special_regex = match compile(special_pattern.as_str()) {
            Ok(regex) => regex,
            Err(_) => {
                return Err(TiktokenError::InvalidPattern);
            },
        };
        Ok(
            CoreBPE {
                encoder,
                special_tokens_encoder,
                decoder,
                special_tokens_decoder,
                regex,
                special_regex,
                sorted_token_bytes,
            },
        )
    }
}

} // verus!
