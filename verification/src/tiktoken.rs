use crate::bpe::{good_match, list_contains, literal_set, piece_tokens, CoreBPE};
use crate::catalog::{
    catalog_pattern, catalog_specials, extend_specials, extended, model_encoding,
    model_encoding_name, same_text, CoreBPEConstructor,
};
use crate::construct::{
    lists_literals, ranks_well_formed, special_patterns_compile, specials_well_formed,
};
use crate::error::TiktokenError;
use crate::load::{lemma_payload_table_well_formed, payload_table};
use crate::order::strictly_sorted;
use crate::pattern::{
    compile, escape_meta, escaped_meta, find_from, regex_compiles, regex_find, Pattern,
};
use crate::table::{special_entries, special_pairs};
use crate::text::{lemma_text_bytes, sub_str};
use rustc_hash::FxHashMap;
use vstd::prelude::*;
use vstd::string::{StringExecFns, StringSliceAdditionalSpecFns};
use vstd::utf8::decode_utf8;

verus! {

/// What a caller gives for the allowed or the disallowed special tokens: nothing, a
/// word (of which only `"all"` has a meaning), a list of literals, or something else,
/// which is refused.
#[derive(Debug, Clone)]
pub enum SpecialArgument {
    /// The argument is not given: the default stands.
    Absent,
    /// A word.
    Word(String),
    /// A set of literals.
    Listed(Vec<String>),
    /// A value that is neither a word nor a set of literals.
    Other,
}

/// Why a text is not encoded: an argument is a word other than `"all"`; the pattern that
/// looks for the disallowed special tokens does not compile; the engine gives up or
/// reports no good match; or a disallowed special token stands in the text.
pub enum Rejection {
    Argument,
    Pattern,
    Engine,
    Found(Seq<char>),
}

/// The error that tells a rejection.
pub open spec fn tells(e: TiktokenError, why: Rejection) -> bool {
    match why {
        Rejection::Argument => e == TiktokenError::InvalidAllowedSpecialArgument,
        Rejection::Pattern => e == TiktokenError::InvalidPattern,
        Rejection::Engine => e == TiktokenError::EncodeFailure,
        Rejection::Found(found) => match e {
            TiktokenError::DisallowedSpecialTokenFound { literal } => literal@ == found,
            _ => false,
        },
    }
}

/// The texts of a list of strings.
pub open spec fn texts(list: Seq<String>) -> Seq<Seq<char>> {
    Seq::new(list.len(), |i: int| list[i]@)
}

/// The entries of `list` that are not in `without`, each once, in their order.
pub open spec fn kept(list: Seq<Seq<char>>, without: Seq<Seq<char>>) -> Seq<Seq<char>>
    decreases list.len(),
{
    if list.len() == 0 {
        Seq::empty()
    } else {
        let front = kept(list.drop_last(), without);
        if without.contains(list.last()) || front.contains(list.last()) {
            front
        } else {
            front.push(list.last())
        }
    }
}

/// The literals, each escaped, with `|` between them.
pub open spec fn alternation_meta(literals: Seq<Seq<char>>) -> Seq<char>
    decreases literals.len(),
{
    if literals.len() == 0 {
        Seq::empty()
    } else if literals.len() == 1 {
        escaped_meta(literals[0])
    } else {
        alternation_meta(literals.drop_last()).push('|') + escaped_meta(literals.last())
    }
}

/// The pattern that looks for any of the literals.
pub open spec fn search_pattern(literals: Seq<Seq<char>>) -> Seq<char> {
    seq!['('] + alternation_meta(literals) + seq![')']
}

/// What the report of the search for disallowed literals means: nothing where nothing
/// is found; the literal found where the report is a good match; else that the engine
/// cannot be relied on.
pub open spec fn found_outcome(text: Seq<u8>, found: Option<(usize, usize)>) -> Option<Rejection> {
    match found {
        None => None,
        Some(m) => if good_match(text, 0, m) {
            Some(Rejection::Found(decode_utf8(text.subrange(m.0 as int, m.1 as int))))
        } else {
            Some(Rejection::Engine)
        },
    }
}

/// What the search for disallowed literals in a text gives: nothing where none is
/// found, else the rejection.
pub open spec fn search_outcome(literals: Seq<Seq<char>>, text: Seq<u8>) -> Option<Rejection> {
    if literals.len() == 0 {
        None
    } else if !regex_compiles(search_pattern(literals)) {
        Some(Rejection::Pattern)
    } else {
        match regex_find(search_pattern(literals), decode_utf8(text), 0) {
            None => Some(Rejection::Engine),
            Some(found) => found_outcome(text, found),
        }
    }
}

/// A list holds a literal exactly where its texts do.
pub proof fn lemma_literal_set(list: Seq<String>, literal: Seq<char>)
    ensures
        literal_set(list).contains(literal) <==> texts(list).contains(literal),
{
    if literal_set(list).contains(literal) {
        let i = choose|i: int| 0 <= i < list.len() && (#[trigger] list[i])@ == literal;
        assert(texts(list)[i] == literal);
    }
    if texts(list).contains(literal) {
        let i = choose|i: int| 0 <= i < texts(list).len() && texts(list)[i] == literal;
        assert(list[i]@ == literal);
    }
}

/// A copy of a list of strings.
pub fn copy_list(list: &Vec<String>) -> (copy: Vec<String>)
    ensures
        texts(copy@) == texts(list@),
{
    let mut copy: Vec<String> = Vec::new();
    let mut i: usize = 0;
    while i < list.len()
        invariant
            i <= list.len(),
            copy@.len() == i,
            forall|j: int| 0 <= j < i ==> (#[trigger] copy@[j])@ == list@[j]@,
        decreases list.len() - i,
    {
        copy.push(list[i].clone());
        i = i + 1;
    }
    assert(texts(copy@) =~= texts(list@));
    copy
}

/// The entries of `list` that are not in `without`, each once, in their order.
#[verifier::rlimit(50)]
pub fn keep_new(list: &Vec<String>, without: &Vec<String>) -> (found: Vec<String>)
    ensures
        texts(found@) == kept(texts(list@), texts(without@)),
{
    let mut found: Vec<String> = Vec::new();
    let mut i: usize = 0;
    while i < list.len()
        invariant
            i <= list.len(),
            texts(found@) == kept(texts(list@).subrange(0, i as int), texts(without@)),
        decreases list.len() - i,
    {
        let literal = list[i].as_str();
        proof {
            let upto = texts(list@).subrange(0, i + 1);
            assert(upto.drop_last() =~= texts(list@).subrange(0, i as int));
            assert(upto.last() == literal@);
            lemma_literal_set(without@, literal@);
            lemma_literal_set(found@, literal@);
        }
        if !list_contains(without, literal) && !list_contains(&found, literal) {
            let ghost before = texts(found@);
            found.push(list[i].clone());
            assert(texts(found@) =~= before.push(literal@));
        }
        i = i + 1;
    }
    assert(texts(list@).subrange(0, i as int) =~= texts(list@));
    found
}

/// The literals of a table of special tokens, each once.
#[verifier::rlimit(50)]
pub fn special_literals(table: &FxHashMap<String, usize>) -> (list: Vec<String>)
    ensures
        lists_literals(texts(list@), special_entries(*table)),
{
    let pairs = special_pairs(table);
    let mut list: Vec<String> = Vec::new();
    let mut i: usize = 0;
    while i < pairs.len()
        invariant
            i <= pairs.len(),
            list@.len() == i,
            forall|j: int| 0 <= j < i ==> (#[trigger] list@[j])@ == pairs@[j].0@,
        decreases pairs.len() - i,
    {
        list.push(pairs[i].0.clone());
        i = i + 1;
    }
    proof {
        let order = texts(list@);
        let specials = special_entries(*table);
        assert forall|literal: Seq<char>| order.contains(literal) <==> specials.contains_key(
            literal,
        ) by {
            if specials.contains_key(literal) {
                let j = choose|j: int| 0 <= j < pairs@.len() && (#[trigger] pairs@[j]).0@ == literal;
                assert(order[j] == literal);
            }
            if order.contains(literal) {
                let j = choose|j: int| 0 <= j < order.len() && order[j] == literal;
                assert(specials.contains_key(pairs@[j].0@));
            }
        }
        assert forall|j: int, k: int| 0 <= j < order.len() && 0 <= k < order.len() && j != k implies order[j]
            != order[k] by {
            if j < k {
                assert(pairs@[j].0@ != pairs@[k].0@);
            } else {
                assert(pairs@[k].0@ != pairs@[j].0@);
            }
        }
    }
    list
}

/// Builds the pattern that looks for any of the literals.
#[verifier::rlimit(50)]
pub fn build_search_pattern(literals: &Vec<String>) -> (pattern: String)
    ensures
        pattern@ == search_pattern(texts(literals@)),
{
    let ghost all = texts(literals@);
    let mut pattern = String::new();
    proof {
        reveal_strlit("(");
        reveal_strlit(")");
        reveal_strlit("|");
    }
    pattern.append("(");
    assert(pattern@ =~= seq!['(']);
    let mut i: usize = 0;
    while i < literals.len()
        invariant
            i <= literals.len(),
            all == texts(literals@),
            "|"@ == seq!['|'],
            pattern@ == seq!['('] + alternation_meta(all.subrange(0, i as int)),
        decreases literals.len() - i,
    {
        let ghost before = alternation_meta(all.subrange(0, i as int));
        if i > 0 {
            pattern.append("|");
        }
        let quoted = escape_meta(literals[i].as_str());
        pattern.append(quoted.as_str());
        proof {
            let upto = all.subrange(0, i + 1);
            assert(upto.drop_last() =~= all.subrange(0, i as int));
            assert(upto.last() == literals@[i as int]@);
            if i == 0 {
                assert(upto[0] == literals@[0]@);
                assert(before =~= Seq::<char>::empty());
                assert(pattern@ =~= seq!['('] + alternation_meta(upto));
            } else {
                assert(pattern@ =~= seq!['('] + (before.push('|') + escaped_meta(upto.last())));
            }
        }
        i = i + 1;
    }
    assert(all.subrange(0, i as int) =~= all);
    pattern.append(")");
    pattern
}

/// Judges what the search for disallowed literals reported: nothing where nothing was
/// found, else the error that tells why the text is rejected.
pub fn judge_found(text: &str, found: Option<(usize, usize)>) -> (r: Option<TiktokenError>)
    ensures
        match r {
            Some(e) => found_outcome(text.spec_bytes(), found) is Some && tells(
                e,
                found_outcome(text.spec_bytes(), found)->0,
            ),
            None => found_outcome(text.spec_bytes(), found) is None,
        },
{
    let n: usize = text.as_bytes().len();
    proof {
        lemma_text_bytes(text);
    }
    match found {
        None => None,
        Some(m) => {
            if !(m.0 <= m.1 && m.1 <= n && text.is_char_boundary(m.0) && text.is_char_boundary(
                m.1,
            )) {
                return Some(TiktokenError::EncodeFailure);
            }
            let literal = sub_str(text, m.0, m.1);
            Some(TiktokenError::DisallowedSpecialTokenFound { literal: literal.to_string() })
        },
    }
}

/// Looks for any of the literals in a text: nothing where none is found, else the error
/// that tells why the text is rejected.
pub fn search_disallowed(literals: &Vec<String>, text: &str) -> (r: Option<TiktokenError>)
    ensures
        match r {
            Some(e) => search_outcome(texts(literals@), text.spec_bytes()) is Some && tells(
                e,
                search_outcome(texts(literals@), text.spec_bytes())->0,
            ),
            None => search_outcome(texts(literals@), text.spec_bytes()) is None,
        },
{
    if literals.len() == 0 {
        return None;
    }
    let regex = match Tiktoken::special_token_regex(literals) {
        Ok(regex) => regex,
        Err(e) => {
            return Some(e);
        },
    };
    proof {
        lemma_text_bytes(text);
    }
    match find_from(&regex, text, 0) {
        Err(_) => Some(TiktokenError::EncodeFailure),
        Ok(found) => judge_found(text, found),
    }
}

/// A tokenizer with its name, where it is one of the catalog, and the literals of its
/// special tokens.
pub struct Tiktoken {
    pub name: Option<String>,
    pub special_tokens_set: Vec<String>,
    pub bpe: CoreBPE,
}

impl Tiktoken {
    /// The invariant: the tokenizer proper is well formed, and the set of special tokens
    /// names each of its special literals once.
    pub open spec fn wf(&self) -> bool {
        &&& self.bpe.wf()
        &&& lists_literals(texts(self.special_tokens_set@), self.bpe.specials())
    }

    /// The tokenizer holds the table that the payload writes, these special tokens and
    /// this pattern.
    pub open spec fn built_from(
        &self,
        payload: Seq<u8>,
        specials: Map<Seq<char>, usize>,
        pattern: Seq<char>,
    ) -> bool {
        &&& self.wf()
        &&& payload_table(payload) == Some(self.bpe.ranks())
        &&& self.bpe.specials() == specials
        &&& self.bpe.source() == pattern
    }

    /// The payload writes no table, or the special tokens break a rule of the data model:
    /// an id stands twice or is a rank of the table.
    pub open spec fn malformed(payload: Seq<u8>, specials: Map<Seq<char>, usize>) -> bool {
        match payload_table(payload) {
            Some(ranks) => !specials_well_formed(ranks, specials),
            None => true,
        }
    }

    /// Nothing stands in the way of building: the payload writes a table, the special
    /// tokens keep the rules of the data model, and the patterns compile.
    pub open spec fn buildable(
        payload: Seq<u8>,
        specials: Map<Seq<char>, usize>,
        pattern: Seq<char>,
    ) -> bool {
        &&& !Tiktoken::malformed(payload, specials)
        &&& regex_compiles(pattern)
        &&& special_patterns_compile(specials)
    }

    /// Compiles the pattern that looks for any of the literals.
    pub fn special_token_regex(tokens: &Vec<String>) -> (r: Result<Pattern, TiktokenError>)
        ensures
            match r {
                Ok(regex) => regex_compiles(search_pattern(texts(tokens@))) && regex@
                    == search_pattern(texts(tokens@)),
                Err(e) => e == TiktokenError::InvalidPattern && !regex_compiles(
                    search_pattern(texts(tokens@)),
                ),
            },
    {
        let pattern = build_search_pattern(tokens);
        match compile(pattern.as_str()) {
            Ok(regex) => Ok(regex),
            Err(_) => Err(TiktokenError::InvalidPattern),
        }
    }

    /// Builds the tokenizer from its parts.
    pub fn assemble(name: Option<String>, parts: CoreBPEConstructor) -> (r: Result<
        Tiktoken,
        TiktokenError,
    >)
        ensures
            match r {
                Ok(built) => built.name == name && built.wf() && built.bpe.encoder == parts.encoder
                    && built.bpe.special_tokens_encoder == parts.special_tokens
                    && built.bpe.source() == parts.pat_str@,
                Err(e) => {
                    &&& e == TiktokenError::MalformedMergeTable || e == TiktokenError::InvalidPattern
                    &&& e == TiktokenError::MalformedMergeTable <==> !(ranks_well_formed(
                        crate::table::rank_entries(parts.encoder),
                    ) && specials_well_formed(
                        crate::table::rank_entries(parts.encoder),
                        special_entries(parts.special_tokens),
                    ))
                },
            },
            !regex_compiles(parts.pat_str@) ==> r is Err,
            ranks_well_formed(crate::table::rank_entries(parts.encoder)) && specials_well_formed(
                crate::table::rank_entries(parts.encoder),
                special_entries(parts.special_tokens),
            ) && regex_compiles(parts.pat_str@) && special_patterns_compile(
                special_entries(parts.special_tokens),
            ) ==> r is Ok,
    {
        let special_tokens_set = special_literals(&parts.special_tokens);
        match CoreBPE::new(parts.encoder, parts.special_tokens, parts.pat_str.as_str()) {
            Ok(bpe) => Ok(Tiktoken { name, special_tokens_set, bpe }),
            Err(e) => Err(e),
        }
    }

    /// Builds a tokenizer from the payload of a rank table, the special tokens (none
    /// where none are given) and the pattern that cuts a text into pieces.
    pub fn new(
        tiktoken_bfe: &str,
        special_tokens: Option<FxHashMap<String, usize>>,
        pat_str: &str,
    ) -> (r: Result<Tiktoken, TiktokenError>)
        ensures
            match r {
                Ok(built) => built.name is None && built.built_from(
                    tiktoken_bfe.spec_bytes(),
                    match special_tokens {
                        Some(given) => special_entries(given),
                        None => Map::empty(),
                    },
                    pat_str@,
                ),
                Err(e) => {
                    &&& e == TiktokenError::MalformedMergeTable || e == TiktokenError::InvalidPattern
                    &&& e == TiktokenError::MalformedMergeTable <==> Tiktoken::malformed(
                        tiktoken_bfe.spec_bytes(),
                        match special_tokens {
                            Some(given) => special_entries(given),
                            None => Map::empty(),
                        },
                    )
                },
            },
            !regex_compiles(pat_str@) ==> r is Err,
            Tiktoken::buildable(
                tiktoken_bfe.spec_bytes(),
                match special_tokens {
                    Some(given) => special_entries(given),
                    None => Map::empty(),
                },
                pat_str@,
            ) ==> r is Ok,
    {
        let parts = match CoreBPEConstructor::new(tiktoken_bfe, special_tokens, pat_str) {
            Ok(parts) => parts,
            Err(e) => {
                return Err(e);
            },
        };
        proof {
            lemma_payload_table_well_formed(tiktoken_bfe.spec_bytes());
        }
        Tiktoken::assemble(None, parts)
    }

    /// The special tokens of an encoding of the catalog, with more put over them where
    /// some are given.
    pub open spec fn catalog_specials_with(
        encoding: Seq<char>,
        more: Option<FxHashMap<String, usize>>,
    ) -> Map<Seq<char>, usize> {
        match more {
            Some(given) => extended(catalog_specials(encoding)->0, special_entries(given)),
            None => catalog_specials(encoding)->0,
        }
    }

    /// What building the tokenizer of a named encoding on a payload gives. A name that
    /// the catalog lacks gives `UnknownEncodingName`. Else the tokenizer, where it comes,
    /// bears the name and holds the payload's table, the special tokens and the pattern
    /// of the encoding; it comes where nothing stands in the way of building; and the
    /// error is `MalformedMergeTable` exactly where the tables are malformed.
    pub open spec fn catalog_outcome(
        encoding: Seq<char>,
        payload: Seq<u8>,
        more: Option<FxHashMap<String, usize>>,
        r: Result<Tiktoken, TiktokenError>,
    ) -> bool {
        let specials = Tiktoken::catalog_specials_with(encoding, more);
        &&& match r {
            Ok(built) => catalog_pattern(encoding) is Some && built.name is Some && built.name->0@
                == encoding && built.built_from(payload, specials, catalog_pattern(encoding)->0),
            Err(e) => if catalog_pattern(encoding) is None {
                e == TiktokenError::UnknownEncodingName
            } else {
                &&& e == TiktokenError::MalformedMergeTable || e == TiktokenError::InvalidPattern
                &&& e == TiktokenError::MalformedMergeTable <==> Tiktoken::malformed(
                    payload,
                    specials,
                )
            },
        }
        &&& catalog_pattern(encoding) is Some && Tiktoken::buildable(
            payload,
            specials,
            catalog_pattern(encoding)->0,
        ) ==> r is Ok
    }

    /// Builds the tokenizer of an encoding of the catalog on the payload of its rank
    /// table, with more special tokens put over its own where some are given.
    pub fn with_encoding(
        encoding: &str,
        tiktoken_bfe: &str,
        extend_special_tokens: &Option<FxHashMap<String, usize>>,
    ) -> (r: Result<Tiktoken, TiktokenError>)
        ensures
            Tiktoken::catalog_outcome(
                encoding@,
                tiktoken_bfe.spec_bytes(),
                *extend_special_tokens,
                r,
            ),
    {
        let mut parts = match CoreBPEConstructor::named(encoding, tiktoken_bfe) {
            Ok(parts) => parts,
            Err(e) => {
                return Err(e);
            },
        };
        match extend_special_tokens {
            Some(more) => {
                extend_specials(&mut parts.special_tokens, more);
            },
            None => {},
        }
        proof {
            lemma_payload_table_well_formed(tiktoken_bfe.spec_bytes());
        }
        Tiktoken::assemble(Some(encoding.to_string()), parts)
    }

    /// The name of the encoding, where the tokenizer is one of the catalog.
    pub fn name(&self) -> (name: Option<String>)
        ensures
            name == self.name,
    {
        match &self.name {
            Some(name) => Some(name.clone()),
            None => None,
        }
    }

    /// The literals that an argument allows: none where it is not given, every special
    /// token for `"all"`, those of a list. Another word and a value that is neither a word
    /// nor a list are no argument.
    pub open spec fn allowed_list(&self, allowed: SpecialArgument) -> Option<Seq<Seq<char>>> {
        match allowed {
            SpecialArgument::Absent => Some(Seq::empty()),
            SpecialArgument::Word(word) => if word@ == "all"@ {
                Some(texts(self.special_tokens_set@))
            } else {
                None
            },
            SpecialArgument::Listed(list) => Some(texts(list@)),
            SpecialArgument::Other => None,
        }
    }

    /// The literals that an argument disallows, each once: those of a list; for `"all"`,
    /// and where it is not given, every special token that is not allowed. Another word
    /// and a value that is neither a word nor a list are no argument.
    pub open spec fn disallowed_list(
        &self,
        disallowed: SpecialArgument,
        allowed: Seq<Seq<char>>,
    ) -> Option<Seq<Seq<char>>> {
        match disallowed {
            SpecialArgument::Word(word) => if word@ == "all"@ {
                Some(kept(texts(self.special_tokens_set@), allowed))
            } else {
                None
            },
            SpecialArgument::Listed(list) => Some(kept(texts(list@), Seq::empty())),
            SpecialArgument::Absent => Some(kept(texts(self.special_tokens_set@), allowed)),
            SpecialArgument::Other => None,
        }
    }

    /// What the check of the arguments against a text gives: the allowed literals, or
    /// the rejection.
    pub open spec fn validation(
        &self,
        text: Seq<u8>,
        allowed: SpecialArgument,
        disallowed: SpecialArgument,
    ) -> Result<Seq<Seq<char>>, Rejection> {
        match self.allowed_list(allowed) {
            Some(allowed_list) => match self.disallowed_list(disallowed, allowed_list) {
                Some(disallowed_list) => match search_outcome(disallowed_list, text) {
                    Some(why) => Err(why),
                    None => Ok(allowed_list),
                },
                None => Err(Rejection::Argument),
            },
            None => Err(Rejection::Argument),
        }
    }

    /// Resolves the two arguments and rejects a text that holds a disallowed special
    /// token; gives the allowed literals otherwise.
    #[verifier::rlimit(50)]
    pub fn validate_allowed_tokens(
        &self,
        text: &str,
        allowed_special_param: &SpecialArgument,
        disallowed_special_param: &SpecialArgument,
    ) -> (r: Result<Vec<String>, TiktokenError>)
        ensures
            match r {
                Ok(list) => self.validation(
                    text.spec_bytes(),
                    *allowed_special_param,
                    *disallowed_special_param,
                ) == Ok::<Seq<Seq<char>>, Rejection>(texts(list@)),
                Err(e) => self.validation(
                    text.spec_bytes(),
                    *allowed_special_param,
                    *disallowed_special_param,
                ) is Err && tells(
                    e,
                    self.validation(
                        text.spec_bytes(),
                        *allowed_special_param,
                        *disallowed_special_param,
                    )->Err_0,
                ),
            },
    {
        let allowed_special = match allowed_special_param {
            SpecialArgument::Word(word) => {
                if same_text(word.as_str(), "all") {
                    copy_list(&self.special_tokens_set)
                } else {
                    return Err(TiktokenError::InvalidAllowedSpecialArgument);
                }
            },
            SpecialArgument::Listed(list) => copy_list(list),
            SpecialArgument::Absent => {
                let none: Vec<String> = Vec::new();
                assert(texts(none@) =~= Seq::<Seq<char>>::empty());
                none
            },
            SpecialArgument::Other => {
                return Err(TiktokenError::InvalidAllowedSpecialArgument);
            },
        };
        let none: Vec<String> = Vec::new();
        assert(texts(none@) =~= Seq::<Seq<char>>::empty());
        let disallowed_special = match disallowed_special_param {
            SpecialArgument::Word(word) => {
                if same_text(word.as_str(), "all") {
                    keep_new(&self.special_tokens_set, &allowed_special)
                } else {
                    return Err(TiktokenError::InvalidAllowedSpecialArgument);
                }
            },
            SpecialArgument::Listed(list) => keep_new(list, &none),
            SpecialArgument::Absent => keep_new(&self.special_tokens_set, &allowed_special),
            SpecialArgument::Other => {
                return Err(TiktokenError::InvalidAllowedSpecialArgument);
            },
        };
        match search_disallowed(&disallowed_special, text) {
            Some(e) => Err(e),
            None => Ok(allowed_special),
        }
    }

    /// What encoding a text under the two arguments gives: the rejection of the check, or
    /// the tokens with the allowed special tokens; `Err(Rejection::Engine)` where the
    /// text cannot be encoded.
    pub open spec fn encode_outcome(
        &self,
        text: Seq<u8>,
        allowed: SpecialArgument,
        disallowed: SpecialArgument,
    ) -> Result<Seq<usize>, Rejection> {
        match self.validation(text, allowed, disallowed) {
            Ok(allowed_list) => match self.bpe.encoding(text, allowed_list.to_set()) {
                Some(done) => Ok(done.0),
                None => Err(Rejection::Engine),
            },
            Err(why) => Err(why),
        }
    }

    /// Encodes a text. Special tokens that are allowed are encoded by their ids; a text
    /// that holds a disallowed one is rejected.
    pub fn encode(
        &self,
        text: &str,
        allowed_special: &SpecialArgument,
        disallowed_special: &SpecialArgument,
    ) -> (r: Result<Vec<usize>, TiktokenError>)
        ensures
            match r {
                Ok(tokens) => self.encode_outcome(
                    text.spec_bytes(),
                    *allowed_special,
                    *disallowed_special,
                ) == Ok::<Seq<usize>, Rejection>(tokens@),
                Err(e) => self.encode_outcome(
                    text.spec_bytes(),
                    *allowed_special,
                    *disallowed_special,
                ) is Err && tells(
                    e,
                    self.encode_outcome(
                        text.spec_bytes(),
                        *allowed_special,
                        *disallowed_special,
                    )->Err_0,
                ),
            },
    {
        let allowed_tokens = match self.validate_allowed_tokens(
            text,
            allowed_special,
            disallowed_special,
        ) {
            Ok(list) => list,
            Err(e) => {
                return Err(e);
            },
        };
        proof {
            assert(literal_set(allowed_tokens@) =~= texts(allowed_tokens@).to_set()) by {
                assert forall|l: Seq<char>| literal_set(allowed_tokens@).contains(l) <==> texts(
                    allowed_tokens@,
                ).to_set().contains(l) by {
                    lemma_literal_set(allowed_tokens@, l);
                }
            }
        }
        self.bpe.encode(text, &allowed_tokens)
    }

    /// Encodes a text in which no special token is looked for.
    pub fn encode_ordinary(&self, text: &str) -> (r: Result<Vec<usize>, TiktokenError>)
        ensures
            match r {
                Ok(tokens) => self.bpe.region_tokens(text.spec_bytes()) is Some
                    && self.bpe.region_tokens(text.spec_bytes()).unwrap().0 == tokens@,
                Err(e) => e == TiktokenError::EncodeFailure && self.bpe.region_tokens(
                    text.spec_bytes(),
                ) is None,
            },
    {
        self.bpe.encode_ordinary(text)
    }

    /// Encodes a text and lists the completions of its unstable end: the stable tokens,
    /// and each completion once.
    pub fn encode_with_unstable(
        &self,
        text: &str,
        allowed_special: &SpecialArgument,
        disallowed_special: &SpecialArgument,
    ) -> (r: Result<(Vec<usize>, Vec<Vec<usize>>), TiktokenError>)
        requires
            self.wf(),
        ensures
            match self.validation(text.spec_bytes(), *allowed_special, *disallowed_special) {
                Ok(allowed_list) => match r {
                    Ok(found) => self.bpe.unstable_outcome(
                        text.spec_bytes(),
                        allowed_list.to_set(),
                        Some(found),
                    ),
                    Err(e) => e == TiktokenError::EncodeFailure && self.bpe.unstable_outcome(
                        text.spec_bytes(),
                        allowed_list.to_set(),
                        None,
                    ),
                },
                Err(why) => r is Err && tells(r->Err_0, why),
            },
    {
        let allowed_tokens = match self.validate_allowed_tokens(
            text,
            allowed_special,
            disallowed_special,
        ) {
            Ok(list) => list,
            Err(e) => {
                return Err(e);
            },
        };
        proof {
            assert(literal_set(allowed_tokens@) =~= texts(allowed_tokens@).to_set()) by {
                assert forall|l: Seq<char>| literal_set(allowed_tokens@).contains(l) <==> texts(
                    allowed_tokens@,
                ).to_set().contains(l) by {
                    lemma_literal_set(allowed_tokens@, l);
                }
            }
        }
        self.bpe.encode_with_unstable(text, &allowed_tokens)
    }

    /// The token that stands for exactly these bytes.
    pub fn encode_single_token(&self, bytes: &[u8]) -> (r: Result<usize, TiktokenError>)
        ensures
            match r {
                Ok(token) => if self.bpe.ranks().contains_key(bytes@) {
                    token == self.bpe.ranks()[bytes@]
                } else {
                    vstd::utf8::valid_utf8(bytes@) && self.bpe.specials().contains_key(
                        decode_utf8(bytes@),
                    ) && token == self.bpe.specials()[decode_utf8(bytes@)]
                },
                Err(e) => e == TiktokenError::UnknownToken && !self.bpe.ranks().contains_key(bytes@)
                    && !(vstd::utf8::valid_utf8(bytes@) && self.bpe.specials().contains_key(
                    decode_utf8(bytes@),
                )),
            },
    {
        self.bpe.encode_single_token(bytes)
    }

    /// The tokens of one piece.
    pub fn _encode_single_piece(&self, bytes: &[u8]) -> (tokens: Vec<usize>)
        requires
            piece_tokens(self.bpe.ranks(), bytes@) is Some,
        ensures
            piece_tokens(self.bpe.ranks(), bytes@) == Some(tokens@),
    {
        self.bpe.encode_single_piece(bytes)
    }

    /// The bytes of the tokens, one after another.
    pub fn decode(&self, tokens: Vec<usize>) -> (bytes: Vec<u8>)
        ensures
            bytes@ == self.bpe.decoded(tokens@),
    {
        self.bpe.decode_bytes(tokens)
    }

    /// The bytes of one token.
    pub fn decode_single_token_bytes(&self, token: usize) -> (r: Result<Vec<u8>, TiktokenError>)
        ensures
            match r {
                Ok(bytes) => self.bpe.knows(token) && bytes@ == self.bpe.token_bytes(token),
                Err(e) => e == TiktokenError::UnknownToken && !self.bpe.knows(token),
            },
    {
        self.bpe.decode_single_token_bytes(token)
    }

    /// The byte strings of the table, in strictly rising order where the tokenizer is
    /// well formed.
    pub fn token_byte_values(&self) -> (values: Vec<Vec<u8>>)
        ensures
            values@.len() == self.bpe.sorted_token_bytes@.len(),
            forall|i: int|
                0 <= i < values@.len() ==> (#[trigger] values@[i])@
                    == self.bpe.sorted_token_bytes@[i]@,
            self.wf() ==> strictly_sorted(values@),
    {
        self.bpe.token_byte_values()
    }
}

/// A disallowed special token is rejected: with neither argument given, so that nothing
/// is allowed and every special token is disallowed, a text in which the search reports
/// a special token is not encoded, and the error names what was found.
#[verifier::rlimit(50)]
pub proof fn lemma_disallowed_rejected(tokenizer: Tiktoken, text: Seq<u8>, m: (usize, usize))
    requires
        kept(texts(tokenizer.special_tokens_set@), Seq::empty()).len() > 0,
        regex_compiles(search_pattern(kept(texts(tokenizer.special_tokens_set@), Seq::empty()))),
        regex_find(
            search_pattern(kept(texts(tokenizer.special_tokens_set@), Seq::empty())),
            decode_utf8(text),
            0,
        ) == Some(Some(m)),
        good_match(text, 0, m),
    ensures
        tokenizer.encode_outcome(text, SpecialArgument::Absent, SpecialArgument::Absent)
            == Err::<Seq<usize>, Rejection>(
            Rejection::Found(decode_utf8(text.subrange(m.0 as int, m.1 as int))),
        ),
{
}

/// Builds the tokenizer of an encoding of the catalog on the payload of its rank table.
pub fn get_encoding(
    encoding: &str,
    tiktoken_bfe: &str,
    extend_special_tokens: Option<FxHashMap<String, usize>>,
) -> (r: Result<Tiktoken, TiktokenError>)
    ensures
        Tiktoken::catalog_outcome(encoding@, tiktoken_bfe.spec_bytes(), extend_special_tokens, r),
{
    Tiktoken::with_encoding(encoding, tiktoken_bfe, &extend_special_tokens)
}

/// Builds the tokenizer of the encoding that a model uses, on the payload of the rank
/// table of that encoding: what `get_encoding` gives for that encoding. A model that the
/// catalog lacks gives `UnknownModelName` with the model's name.
pub fn encoding_for_model(
    model: &str,
    tiktoken_bfe: &str,
    extend_special_tokens: Option<FxHashMap<String, usize>>,
) -> (r: Result<Tiktoken, TiktokenError>)
    ensures
        match model_encoding(model@) {
            Some(encoding) => catalog_pattern(encoding) is Some && Tiktoken::catalog_outcome(
                encoding,
                tiktoken_bfe.spec_bytes(),
                extend_special_tokens,
                r,
            ),
            None => match r {
                Err(TiktokenError::UnknownModelName { model: named }) => named@ == model@,
                _ => false,
            },
        },
{
    match model_encoding_name(model) {
        Some(encoding) => {
            proof {
                reveal_strlit("p50k_base");
                reveal_strlit("p50k_edit");
                reveal_strlit("cl100k_base");
                reveal_strlit("gpt2");
                reveal_strlit("r50k_base");
            }
            get_encoding(encoding, tiktoken_bfe, extend_special_tokens)
        },
        None => Err(TiktokenError::UnknownModelName { model: model.to_string() }),
    }
}

} // verus!
