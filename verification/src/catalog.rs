use crate::error::TiktokenError;
use crate::load::payload_table;
use crate::order::bytes_equal;
use crate::table::{
    new_special_table, rank_entries, special_entries, special_insert, special_pairs,
};
use crate::text::lemma_same_bytes;
use rustc_hash::FxHashMap;
use vstd::prelude::*;
use vstd::string::StringSliceAdditionalSpecFns;

verus! {

pub const ENDOFTEXT: &'static str = "<|endoftext|>";

pub const FIM_PREFIX: &'static str = "<|fim_prefix|>";

pub const FIM_MIDDLE: &'static str = "<|fim_middle|>";

pub const FIM_SUFFIX: &'static str = "<|fim_suffix|>";

pub const ENDOFPROMPT: &'static str = "<|endofprompt|>";

/// The pattern that cuts a text into pieces for gpt2, r50k_base, p50k_base and p50k_edit.
pub const R50K_PATTERN: &'static str =
    "'s|'t|'re|'ve|'m|'ll|'d| ?\\p{L}+| ?\\p{N}+| ?[^\\s\\p{L}\\p{N}]+|\\s+(?!\\S)|\\s+";

/// The pattern that cuts a text into pieces for cl100k_base.
pub const CL100K_PATTERN: &'static str =
    "(?i:'s|'t|'re|'ve|'m|'ll|'d)|[^\\r\\n\\p{L}\\p{N}]?\\p{L}+|\\p{N}{1,3}| ?[^\\s\\p{L}\\p{N}]+[\\r\\n]*|\\s*[\\r\\n]+|\\s+(?!\\S)|\\s+";

/// Whether two texts are the same.
pub fn same_text(a: &str, b: &str) -> (same: bool)
    ensures
        same == (a@ == b@),
{
    let same = bytes_equal(a.as_bytes(), b.as_bytes());
    proof {
        if same {
            lemma_same_bytes(a@, b@);
        }
    }
    same
}

/// The encoding that a model uses, by name.
pub open spec fn model_encoding(model: Seq<char>) -> Option<Seq<char>> {
    if model == "text-davinci-003"@ || model == "text-davinci-002"@ || model
        == "code-davinci-002"@ || model == "code-davinci-001"@ || model == "code-cushman-002"@
        || model == "code-cushman-001"@ || model == "davinci-codex"@ || model
        == "cushman-codex"@ {
        Some("p50k_base"@)
    } else if model == "text-davinci-edit-001"@ || model == "code-davinci-edit-001"@ {
        Some("p50k_edit"@)
    } else if model == "text-embedding-ada-002"@ {
        Some("cl100k_base"@)
    } else if model == "gpt2"@ {
        Some("gpt2"@)
    } else if model == "text-davinci-001"@ || model == "text-curie-001"@ || model
        == "text-babbage-001"@ || model == "text-ada-001"@ || model == "davinci"@ || model
        == "curie"@ || model == "babbage"@ || model == "ada"@ || model
        == "text-similarity-davinci-001"@ || model == "text-similarity-curie-001"@ || model
        == "text-similarity-babbage-001"@ || model == "text-similarity-ada-001"@ || model
        == "text-search-davinci-doc-001"@ || model == "text-search-curie-doc-001"@ || model
        == "text-search-babbage-doc-001"@ || model == "text-search-ada-doc-001"@ || model
        == "code-search-babbage-code-001"@ || model == "code-search-ada-code-001"@ {
        Some("r50k_base"@)
    } else {
        None
    }
}

/// The name of the encoding that a model uses.
pub fn model_encoding_name(model: &str) -> (name: Option<&'static str>)
    ensures
        match name {
            Some(found) => model_encoding(model@) == Some(found@),
            None => model_encoding(model@) is None,
        },
{
    if same_text(model, "text-davinci-003") || same_text(model, "text-davinci-002") || same_text(
        model,
        "code-davinci-002",
    ) || same_text(model, "code-davinci-001") || same_text(model, "code-cushman-002")
        || same_text(model, "code-cushman-001") || same_text(model, "davinci-codex") || same_text(
        model,
        "cushman-codex",
    ) {
        Some("p50k_base")
    } else if same_text(model, "text-davinci-edit-001") || same_text(
        model,
        "code-davinci-edit-001",
    ) {
        Some("p50k_edit")
    } else if same_text(model, "text-embedding-ada-002") {
        Some("cl100k_base")
    } else if same_text(model, "gpt2") {
        Some("gpt2")
    } else if same_text(model, "text-davinci-001") || same_text(model, "text-curie-001")
        || same_text(model, "text-babbage-001") || same_text(model, "text-ada-001") || same_text(
        model,
        "davinci",
    ) || same_text(model, "curie") || same_text(model, "babbage") || same_text(model, "ada")
        || same_text(model, "text-similarity-davinci-001") || same_text(
        model,
        "text-similarity-curie-001",
    ) || same_text(model, "text-similarity-babbage-001") || same_text(
        model,
        "text-similarity-ada-001",
    ) || same_text(model, "text-search-davinci-doc-001") || same_text(
        model,
        "text-search-curie-doc-001",
    ) || same_text(model, "text-search-babbage-doc-001") || same_text(
        model,
        "text-search-ada-doc-001",
    ) || same_text(model, "code-search-babbage-code-001") || same_text(
        model,
        "code-search-ada-code-001",
    ) {
        Some("r50k_base")
    } else {
        None
    }
}

/// The special tokens of gpt2, r50k_base and p50k_base.
pub open spec fn base_specials() -> Map<Seq<char>, usize> {
    Map::<Seq<char>, usize>::empty().insert(ENDOFTEXT@, 50256usize)
}

/// The special tokens of p50k_edit.
pub open spec fn edit_specials() -> Map<Seq<char>, usize> {
    base_specials().insert(FIM_PREFIX@, 50281usize).insert(FIM_MIDDLE@, 50282usize).insert(
        FIM_SUFFIX@,
        50283usize,
    )
}

/// The special tokens of cl100k_base.
pub open spec fn cl100k_specials() -> Map<Seq<char>, usize> {
    Map::<Seq<char>, usize>::empty().insert(ENDOFTEXT@, 100257usize).insert(
        FIM_PREFIX@,
        100258usize,
    ).insert(FIM_MIDDLE@, 100259usize).insert(FIM_SUFFIX@, 100260usize).insert(
        ENDOFPROMPT@,
        100276usize,
    )
}

/// The special tokens of an encoding of the catalog.
pub open spec fn catalog_specials(encoding: Seq<char>) -> Option<Map<Seq<char>, usize>> {
    if encoding == "gpt2"@ || encoding == "r50k_base"@ || encoding == "p50k_base"@ {
        Some(base_specials())
    } else if encoding == "p50k_edit"@ {
        Some(edit_specials())
    } else if encoding == "cl100k_base"@ {
        Some(cl100k_specials())
    } else {
        None
    }
}

/// The pattern of an encoding of the catalog.
pub open spec fn catalog_pattern(encoding: Seq<char>) -> Option<Seq<char>> {
    if encoding == "gpt2"@ || encoding == "r50k_base"@ || encoding == "p50k_base"@ || encoding
        == "p50k_edit"@ {
        Some(R50K_PATTERN@)
    } else if encoding == "cl100k_base"@ {
        Some(CL100K_PATTERN@)
    } else {
        None
    }
}

/// The name of the rank table that an encoding of the catalog is built on.
pub open spec fn catalog_ranks(encoding: Seq<char>) -> Option<Seq<char>> {
    if encoding == "p50k_edit"@ {
        Some("p50k_base"@)
    } else if encoding == "gpt2"@ || encoding == "r50k_base"@ || encoding == "p50k_base"@
        || encoding == "cl100k_base"@ {
        Some(encoding)
    } else {
        None
    }
}

/// The name of the rank table that an encoding of the catalog is built on: its own, but
/// for p50k_edit, which shares the table of p50k_base.
pub fn rank_table_name(encoding: &str) -> (name: Option<&'static str>)
    ensures
        match name {
            Some(found) => catalog_ranks(encoding@) == Some(found@),
            None => catalog_ranks(encoding@) is None,
        },
{
    if same_text(encoding, "p50k_edit") {
        Some("p50k_base")
    } else if same_text(encoding, "gpt2") {
        Some("gpt2")
    } else if same_text(encoding, "r50k_base") {
        Some("r50k_base")
    } else if same_text(encoding, "p50k_base") {
        Some("p50k_base")
    } else if same_text(encoding, "cl100k_base") {
        Some("cl100k_base")
    } else {
        None
    }
}

/// What a tokenizer is built from: the rank table, the special tokens and the pattern.
pub struct CoreBPEConstructor {
    pub encoder: FxHashMap<Vec<u8>, usize>,
    pub special_tokens: FxHashMap<String, usize>,
    pub pat_str: String,
}

impl CoreBPEConstructor {
    /// The parts hold the table that the payload writes, these special tokens and
    /// this pattern.
    pub open spec fn holds(
        &self,
        payload: Seq<u8>,
        specials: Map<Seq<char>, usize>,
        pattern: Seq<char>,
    ) -> bool {
        &&& payload_table(payload) == Some(rank_entries(self.encoder))
        &&& special_entries(self.special_tokens) == specials
        &&& self.pat_str@ == pattern
    }

    /// Reads the rank table from its payload and puts it with the special tokens (none
    /// where none are given) and the pattern.
    pub fn new(
        tiktoken_bfe: &str,
        special_tokens: Option<FxHashMap<String, usize>>,
        pat_str: &str,
    ) -> (r: Result<CoreBPEConstructor, TiktokenError>)
        ensures
            match r {
                Ok(parts) => parts.holds(
                    tiktoken_bfe.spec_bytes(),
                    match special_tokens {
                        Some(given) => special_entries(given),
                        None => Map::empty(),
                    },
                    pat_str@,
                ),
                Err(e) => e == TiktokenError::MalformedMergeTable && payload_table(
                    tiktoken_bfe.spec_bytes(),
                ) is None,
            },
    {
        let encoder = match CoreBPEConstructor::parse_bfe(tiktoken_bfe) {
            Ok(encoder) => encoder,
            Err(e) => {
                return Err(e);
            },
        };
        let special_tokens = match special_tokens {
            Some(given) => given,
            None => new_special_table(),
        };
        Ok(CoreBPEConstructor { encoder, special_tokens, pat_str: pat_str.to_string() })
    }

    /// The parts of gpt2, on its rank table.
    pub fn gpt2(tiktoken_bfe: &str) -> (r: Result<CoreBPEConstructor, TiktokenError>)
        ensures
            match r {
                Ok(parts) => parts.holds(tiktoken_bfe.spec_bytes(), base_specials(), R50K_PATTERN@),
                Err(e) => e == TiktokenError::MalformedMergeTable && payload_table(
                    tiktoken_bfe.spec_bytes(),
                ) is None,
            },
    {
        let mut special_tokens = new_special_table();
        special_insert(&mut special_tokens, ENDOFTEXT.to_string(), 50256);
        CoreBPEConstructor::new(tiktoken_bfe, Some(special_tokens), R50K_PATTERN)
    }

    /// The parts of r50k_base, on its rank table.
    pub fn r50k_base(tiktoken_bfe: &str) -> (r: Result<CoreBPEConstructor, TiktokenError>)
        ensures
            match r {
                Ok(parts) => parts.holds(tiktoken_bfe.spec_bytes(), base_specials(), R50K_PATTERN@),
                Err(e) => e == TiktokenError::MalformedMergeTable && payload_table(
                    tiktoken_bfe.spec_bytes(),
                ) is None,
            },
    {
        let mut special_tokens = new_special_table();
        special_insert(&mut special_tokens, ENDOFTEXT.to_string(), 50256);
        CoreBPEConstructor::new(tiktoken_bfe, Some(special_tokens), R50K_PATTERN)
    }

    /// The parts of p50k_base, on its rank table.
    pub fn p50k_base(tiktoken_bfe: &str) -> (r: Result<CoreBPEConstructor, TiktokenError>)
        ensures
            match r {
                Ok(parts) => parts.holds(tiktoken_bfe.spec_bytes(), base_specials(), R50K_PATTERN@),
                Err(e) => e == TiktokenError::MalformedMergeTable && payload_table(
                    tiktoken_bfe.spec_bytes(),
                ) is None,
            },
    {
        let mut special_tokens = new_special_table();
        special_insert(&mut special_tokens, ENDOFTEXT.to_string(), 50256);
        CoreBPEConstructor::new(tiktoken_bfe, Some(special_tokens), R50K_PATTERN)
    }

    /// The parts of p50k_edit, on the rank table of p50k_base.
    pub fn p50k_edit(tiktoken_bfe: &str) -> (r: Result<CoreBPEConstructor, TiktokenError>)
        ensures
            match r {
                Ok(parts) => parts.holds(tiktoken_bfe.spec_bytes(), edit_specials(), R50K_PATTERN@),
                Err(e) => e == TiktokenError::MalformedMergeTable && payload_table(
                    tiktoken_bfe.spec_bytes(),
                ) is None,
            },
    {
        let mut special_tokens = new_special_table();
        special_insert(&mut special_tokens, ENDOFTEXT.to_string(), 50256);
        special_insert(&mut special_tokens, FIM_PREFIX.to_string(), 50281);
        special_insert(&mut special_tokens, FIM_MIDDLE.to_string(), 50282);
        special_insert(&mut special_tokens, FIM_SUFFIX.to_string(), 50283);
        CoreBPEConstructor::new(tiktoken_bfe, Some(special_tokens), R50K_PATTERN)
    }

    /// The parts of cl100k_base, on its rank table.
    pub fn cl100k_base(tiktoken_bfe: &str) -> (r: Result<CoreBPEConstructor, TiktokenError>)
        ensures
            match r {
                Ok(parts) => parts.holds(
                    tiktoken_bfe.spec_bytes(),
                    cl100k_specials(),
                    CL100K_PATTERN@,
                ),
                Err(e) => e == TiktokenError::MalformedMergeTable && payload_table(
                    tiktoken_bfe.spec_bytes(),
                ) is None,
            },
    {
        let mut special_tokens = new_special_table();
        special_insert(&mut special_tokens, ENDOFTEXT.to_string(), 100257);
        special_insert(&mut special_tokens, FIM_PREFIX.to_string(), 100258);
        special_insert(&mut special_tokens, FIM_MIDDLE.to_string(), 100259);
        special_insert(&mut special_tokens, FIM_SUFFIX.to_string(), 100260);
        special_insert(&mut special_tokens, ENDOFPROMPT.to_string(), 100276);
        CoreBPEConstructor::new(tiktoken_bfe, Some(special_tokens), CL100K_PATTERN)
    }

    /// The parts of an encoding of the catalog, on its rank table.
    pub fn named(encoding: &str, tiktoken_bfe: &str) -> (r: Result<
        CoreBPEConstructor,
        TiktokenError,
    >)
        ensures
            match r {
                Ok(parts) => catalog_pattern(encoding@) is Some && parts.holds(
                    tiktoken_bfe.spec_bytes(),
                    catalog_specials(encoding@)->0,
                    catalog_pattern(encoding@)->0,
                ),
                Err(e) => if catalog_pattern(encoding@) is None {
                    e == TiktokenError::UnknownEncodingName
                } else {
                    e == TiktokenError::MalformedMergeTable && payload_table(
                        tiktoken_bfe.spec_bytes(),
                    ) is None
                },
            },
    {
        if same_text(encoding, "gpt2") {
            CoreBPEConstructor::gpt2(tiktoken_bfe)
        } else if same_text(encoding, "r50k_base") {
            CoreBPEConstructor::r50k_base(tiktoken_bfe)
        } else if same_text(encoding, "p50k_base") {
            CoreBPEConstructor::p50k_base(tiktoken_bfe)
        } else if same_text(encoding, "p50k_edit") {
            CoreBPEConstructor::p50k_edit(tiktoken_bfe)
        } else if same_text(encoding, "cl100k_base") {
            CoreBPEConstructor::cl100k_base(tiktoken_bfe)
        } else {
            Err(TiktokenError::UnknownEncodingName)
        }
    }
}

/// `base` with the entries of `more` put over it.
pub open spec fn extended(base: Map<Seq<char>, usize>, more: Map<Seq<char>, usize>) -> Map<
    Seq<char>,
    usize,
> {
    base.union_prefer_right(more)
}

/// One of the first `upto` pairs holds the literal.
pub open spec fn listed(pairs: Seq<(String, usize)>, upto: int, literal: Seq<char>) -> bool {
    exists|j: int| 0 <= j < upto && (#[trigger] pairs[j]).0@ == literal
}

/// A literal is among the first `upto + 1` pairs where it is among the first `upto` or is
/// the literal of the pair at `upto`.
pub proof fn lemma_listed_step(pairs: Seq<(String, usize)>, upto: int, literal: Seq<char>)
    requires
        0 <= upto < pairs.len(),
    ensures
        listed(pairs, upto + 1, literal) <==> listed(pairs, upto, literal) || pairs[upto].0@
            == literal,
{
    if listed(pairs, upto, literal) {
        let j = choose|j: int| 0 <= j < upto && (#[trigger] pairs[j]).0@ == literal;
        assert(0 <= j < upto + 1 && pairs[j].0@ == literal);
    }
    if pairs[upto].0@ == literal {
        assert(0 <= upto < upto + 1 && pairs[upto].0@ == literal);
    }
    if listed(pairs, upto + 1, literal) {
        let j = choose|j: int| 0 <= j < upto + 1 && (#[trigger] pairs[j]).0@ == literal;
        if j < upto {
            assert(0 <= j < upto && pairs[j].0@ == literal);
        }
    }
}

/// Puts the entries of `more` into `base`; where both hold a literal, the id of `more`
/// stays.
#[verifier::rlimit(50)]
pub fn extend_specials(base: &mut FxHashMap<String, usize>, more: &FxHashMap<String, usize>)
    ensures
        special_entries(*final(base)) == extended(
            special_entries(*old(base)),
            special_entries(*more),
        ),
{
    let ghost start = special_entries(*base);
    let ghost added = special_entries(*more);
    let pairs = special_pairs(more);
    let mut i: usize = 0;
    while i < pairs.len()
        invariant
            i <= pairs.len(),
            forall|j: int|
                0 <= j < pairs@.len() ==> added.contains_key((#[trigger] pairs@[j]).0@)
                    && added[pairs@[j].0@] == pairs@[j].1,
            forall|literal: Seq<char>| #[trigger]
                special_entries(*base).contains_key(literal) <==> start.contains_key(literal)
                    || listed(pairs@, i as int, literal),
            forall|literal: Seq<char>| #[trigger]
                special_entries(*base).contains_key(literal) ==> special_entries(*base)[literal]
                    == (if listed(pairs@, i as int, literal) {
                    added[literal]
                } else {
                    start[literal]
                }),
        decreases pairs.len() - i,
    {
        let ghost before = special_entries(*base);
        let literal = pairs[i].0.clone();
        special_insert(base, literal, pairs[i].1);
        proof {
            let now = special_entries(*base);
            assert forall|l: Seq<char>| #[trigger] now.contains_key(l) <==> start.contains_key(l)
                || listed(pairs@, i + 1, l) by {
                lemma_listed_step(pairs@, i as int, l);
                assert(before.contains_key(l) <==> start.contains_key(l) || listed(
                    pairs@,
                    i as int,
                    l,
                ));
            }
            assert forall|l: Seq<char>| #[trigger] now.contains_key(l) implies now[l] == (if listed(
                pairs@,
                i + 1,
                l,
            ) {
                added[l]
            } else {
                start[l]
            }) by {
                lemma_listed_step(pairs@, i as int, l);
                if l != pairs@[i as int].0@ {
                    assert(before.contains_key(l));
                }
            }
        }
        i = i + 1;
    }
    proof {
        let now = special_entries(*base);
        let goal = extended(start, added);
        assert forall|l: Seq<char>| listed(pairs@, i as int, l) <==> added.contains_key(l) by {
            if added.contains_key(l) {
                let j = choose|j: int| 0 <= j < pairs@.len() && (#[trigger] pairs@[j]).0@ == l;
                assert(0 <= j < i && pairs@[j].0@ == l);
            }
            if listed(pairs@, i as int, l) {
                let j = choose|j: int| 0 <= j < i && (#[trigger] pairs@[j]).0@ == l;
                assert(added.contains_key(pairs@[j].0@));
            }
        }
        assert forall|l: Seq<char>| now.contains_key(l) <==> goal.contains_key(l) by {
            assert(now.contains_key(l) <==> start.contains_key(l) || listed(pairs@, i as int, l));
        }
        assert forall|l: Seq<char>| #[trigger] now.contains_key(l) implies now[l] == goal[l] by {
        }
        assert(now =~= goal);
    }
}

} // verus!
