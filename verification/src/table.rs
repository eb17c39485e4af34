use rustc_hash::FxHashMap;
use vstd::prelude::*;

verus! {

/// The hasher of `rustc_hash`, of which nothing is read.
#[verifier::external_type_specification]
#[verifier::external_body]
pub struct ExFxHasher(rustc_hash::FxHasher);

/// The builder that makes a map's hashers by `Default`, of which nothing is read.
#[verifier::external_type_specification]
#[verifier::external_body]
#[verifier::reject_recursive_types(H)]
pub struct ExBuildHasherDefault<H>(std::hash::BuildHasherDefault<H>);

/// The entries of a rank table: each byte string that has a rank, with that rank.
pub uninterp spec fn rank_entries(table: FxHashMap<Vec<u8>, usize>) -> Map<Seq<u8>, usize>;

/// The entries of a table of special tokens: each literal that has an id, with that id.
pub uninterp spec fn special_entries(table: FxHashMap<String, usize>) -> Map<Seq<char>, usize>;

/// Makes an empty rank table with `FxHashMap::default`.
#[verifier::external_body]
pub(crate) fn new_rank_table() -> (table: FxHashMap<Vec<u8>, usize>)
    ensures
        (rank_entries(table) == Map::<Seq<u8>, usize>::empty()),
{
    FxHashMap::default()
}

/// Looks a byte string up with `HashMap::get`: the rank stored under it, if there is one.
#[verifier::external_body]
pub(crate) fn rank_of(table: &FxHashMap<Vec<u8>, usize>, key: &[u8]) -> (rank: Option<usize>)
    ensures
        rank == (if rank_entries(*table).contains_key(key@) {
            Some(rank_entries(*table)[key@])
        } else {
            None
        }),
{
    table.get(key).copied()
}

/// Stores a rank under a byte string with `HashMap::insert`; a rank that stood under the
/// same bytes is replaced.
#[verifier::external_body]
pub(crate) fn rank_insert(table: &mut FxHashMap<Vec<u8>, usize>, key: Vec<u8>, rank: usize)
    ensures
        rank_entries(*final(table)) == rank_entries(*old(table)).insert(key@, rank),
{
    table.insert(key, rank);
}

/// Copies the entries out with `HashMap::iter`. Every entry comes once; nothing is claimed
/// of their order.
#[verifier::external_body]
pub(crate) fn rank_pairs(table: &FxHashMap<Vec<u8>, usize>) -> (pairs: Vec<(Vec<u8>, usize)>)
    ensures
        forall|i: int|
            0 <= i < pairs@.len() ==> rank_entries(*table).contains_key((#[trigger] pairs@[i]).0@)
                && rank_entries(*table)[pairs@[i].0@] == pairs@[i].1,
        forall|key: Seq<u8>| #[trigger]
            rank_entries(*table).contains_key(key) ==> exists|i: int|
                0 <= i < pairs@.len() && (#[trigger] pairs@[i]).0@ == key,
        forall|i: int, j: int|
            0 <= i < j < pairs@.len() ==> (#[trigger] pairs@[i]).0@ != (#[trigger] pairs@[j]).0@,
{
    table.iter().map(|(key, rank)| (key.clone(), *rank)).collect()
}

/// Makes an empty table of special tokens with `FxHashMap::default`.
#[verifier::external_body]
pub(crate) fn new_special_table() -> (table: FxHashMap<String, usize>)
    ensures
        (special_entries(table) == Map::<Seq<char>, usize>::empty()),
{
    FxHashMap::default()
}

/// Looks a literal up with `HashMap::get`: the id stored under it, if there is one.
#[verifier::external_body]
pub(crate) fn special_of(table: &FxHashMap<String, usize>, literal: &str) -> (id: Option<usize>)
    ensures
        id == (if special_entries(*table).contains_key(literal@) {
            Some(special_entries(*table)[literal@])
        } else {
            None
        }),
{
    table.get(literal).copied()
}

/// Stores an id under a literal with `HashMap::insert`; an id that stood under the same
/// literal is replaced.
#[verifier::external_body]
pub(crate) fn special_insert(table: &mut FxHashMap<String, usize>, literal: String, id: usize)
    ensures
        special_entries(*final(table)) == special_entries(*old(table)).insert(literal@, id),
{
    table.insert(literal, id);
}

/// Copies the entries out with `HashMap::iter`. Every entry comes once; nothing is claimed
/// of their order.
#[verifier::external_body]
pub(crate) fn special_pairs(table: &FxHashMap<String, usize>) -> (pairs: Vec<(String, usize)>)
    ensures
        forall|i: int|
            0 <= i < pairs@.len() ==> special_entries(*table).contains_key(
                (#[trigger] pairs@[i]).0@,
            ) && special_entries(*table)[pairs@[i].0@] == pairs@[i].1,
        forall|literal: Seq<char>| #[trigger]
            special_entries(*table).contains_key(literal) ==> exists|i: int|
                0 <= i < pairs@.len() && (#[trigger] pairs@[i]).0@ == literal,
        forall|i: int, j: int|
            0 <= i < j < pairs@.len() ==> (#[trigger] pairs@[i]).0@ != (#[trigger] pairs@[j]).0@,
{
    table.iter().map(|(literal, id)| (literal.clone(), *id)).collect()
}

/// Makes an empty table from tokens to their bytes with `FxHashMap::default`.
#[verifier::external_body]
pub(crate) fn new_token_table() -> (table: FxHashMap<usize, Vec<u8>>)
    ensures
        (table@ == Map::<usize, Vec<u8>>::empty()),
{
    FxHashMap::default()
}

/// Looks a token up with `HashMap::get`: the bytes stored under it, if there are any.
#[verifier::external_body]
pub(crate) fn token_bytes_of<'a>(table: &'a FxHashMap<usize, Vec<u8>>, token: usize) -> (bytes:
    Option<&'a Vec<u8>>)
    ensures
        match bytes {
            Some(found) => table@.contains_key(token) && table@[token] == *found,
            None => !table@.contains_key(token),
        },
{
    table.get(&token)
}

/// Stores bytes under a token with `HashMap::insert`; bytes that stood under the same
/// token are replaced.
#[verifier::external_body]
pub(crate) fn token_insert(table: &mut FxHashMap<usize, Vec<u8>>, token: usize, bytes: Vec<u8>)
    ensures
        final(table)@ == old(table)@.insert(token, bytes),
{
    table.insert(token, bytes);
}

} // verus!
