use crate::catalog::CoreBPEConstructor;
use crate::construct::ranks_well_formed;
use crate::error::TiktokenError;
use crate::table::{new_rank_table, rank_entries, rank_insert, rank_of};
use base64::Engine;
use rustc_hash::FxHashMap;
use std::collections::HashSet;
use vstd::prelude::*;
use vstd::slice::slice_subrange;
use vstd::string::StringSliceAdditionalSpecFns;

verus! {

broadcast use vstd::std_specs::hash::group_hash_axioms;

/// The error of `base64`, of which nothing is read.
#[verifier::external_type_specification]
#[verifier::external_body]
pub struct ExDecodeError(base64::DecodeError);

/// The bytes that the standard base64 engine, with padding, decodes a field to; `None`
/// where it refuses the field.
pub uninterp spec fn base64_decoded(field: Seq<u8>) -> Option<Seq<u8>>;

/// Decodes a field with `Engine::decode` of `base64::engine::general_purpose::STANDARD`.
#[verifier::external_body]
pub(crate) fn base64_decode(field: &[u8]) -> (r: Result<Vec<u8>, base64::DecodeError>)
    ensures
        match r {
            Ok(bytes) => base64_decoded(field@) == Some(bytes@),
            Err(_) => base64_decoded(field@) is None,
        },
{
    base64::engine::general_purpose::STANDARD.decode(field)
}

/// A decimal digit.
pub open spec fn is_digit(b: u8) -> bool {
    48 <= b <= 57
}

/// The bytes are decimal digits, and there is at least one.
pub open spec fn is_decimal(field: Seq<u8>) -> bool {
    field.len() > 0 && forall|i: int| 0 <= i < field.len() ==> is_digit(#[trigger] field[i])
}

/// The number that decimal digits write.
pub open spec fn decimal_value(field: Seq<u8>) -> int
    decreases field.len(),
{
    if field.len() == 0 {
        0
    } else {
        decimal_value(field.drop_last()) * 10 + (field.last() - 48)
    }
}

/// The rank that a field writes: a decimal number that a `usize` holds.
pub open spec fn rank_value(field: Seq<u8>) -> Option<usize> {
    if is_decimal(field) && decimal_value(field) <= usize::MAX {
        Some(decimal_value(field) as usize)
    } else {
        None
    }
}

/// The index of the first byte `b` of `bytes` at or after `from`; the length where there
/// is none.
pub open spec fn first_at(bytes: Seq<u8>, b: u8, from: int) -> int
    decreases bytes.len() - from,
{
    if from < 0 || from >= bytes.len() {
        bytes.len() as int
    } else if bytes[from] == b {
        from
    } else {
        first_at(bytes, b, from + 1)
    }
}

/// The entry that a line writes: the bytes that its first field encodes in base64, and
/// the rank that the rest of the line, after one space, writes in decimal. `None` where
/// the line has no space, the first field is no base64 or decodes to nothing, or the rest
/// is no rank.
pub open spec fn line_entry(line: Seq<u8>) -> Option<(Seq<u8>, usize)> {
    let space = first_at(line, 32, 0);
    if space >= line.len() {
        None
    } else {
        match (
            base64_decoded(line.subrange(0, space)),
            rank_value(line.subrange(space + 1, line.len() as int)),
        ) {
            (Some(key), Some(rank)) => if key.len() > 0 {
                Some((key, rank))
            } else {
                None
            },
            _ => None,
        }
    }
}

/// The line that starts at `from` and ends before `end`, where a line feed stands at
/// `end` or the payload ends there: without the carriage return before a line feed.
pub open spec fn line_at(payload: Seq<u8>, from: int, end: int) -> Seq<u8> {
    if end < payload.len() && from < end && payload[end - 1] == 13 {
        payload.subrange(from, end - 1)
    } else {
        payload.subrange(from, end)
    }
}

/// A rank that some byte string of the table has.
pub open spec fn has_rank(table: Map<Seq<u8>, usize>, rank: usize) -> bool {
    exists|key: Seq<u8>| #[trigger] table.contains_key(key) && table[key] == rank
}

/// The table that the lines of the payload from `from` on add to `table`, one entry per
/// line; `None` where a line writes no entry, or writes a byte string or a rank that
/// the table has already.
pub open spec fn table_from(payload: Seq<u8>, from: int, table: Map<Seq<u8>, usize>) -> Option<
    Map<Seq<u8>, usize>,
>
    decreases payload.len() - from,
{
    if from < 0 || from >= payload.len() {
        Some(table)
    } else {
        let end = first_at(payload, 10, from);
        match line_entry(line_at(payload, from, end)) {
            Some(entry) => if table.contains_key(entry.0) || has_rank(table, entry.1) {
                None
            } else if from <= end < payload.len() {
                table_from(payload, end + 1, table.insert(entry.0, entry.1))
            } else {
                Some(table.insert(entry.0, entry.1))
            },
            None => None,
        }
    }
}

/// The rank table that a payload writes.
pub open spec fn payload_table(payload: Seq<u8>) -> Option<Map<Seq<u8>, usize>> {
    table_from(payload, 0, Map::empty())
}

/// The lines of a payload add to a table without empty byte string and without a rank
/// twice only what keeps it so.
#[verifier::rlimit(50)]
pub proof fn lemma_table_from_well_formed(payload: Seq<u8>, from: int, table: Map<Seq<u8>, usize>)
    requires
        ranks_well_formed(table),
        table_from(payload, from, table) is Some,
    ensures
        ranks_well_formed(table_from(payload, from, table)->0),
    decreases payload.len() - from,
{
    if 0 <= from < payload.len() {
        let end = first_at(payload, 10, from);
        let entry = line_entry(line_at(payload, from, end))->0;
        let next = table.insert(entry.0, entry.1);
        assert(ranks_well_formed(next)) by {
            assert forall|a: Seq<u8>, b: Seq<u8>|
                #[trigger] next.contains_key(a) && #[trigger] next.contains_key(b) && next[a]
                    == next[b] implies a == b by {
                if a != entry.0 && b == entry.0 {
                    assert(table.contains_key(a) && table[a] == entry.1);
                }
                if b != entry.0 && a == entry.0 {
                    assert(table.contains_key(b) && table[b] == entry.1);
                }
            }
        }
        if from <= end < payload.len() {
            lemma_table_from_well_formed(payload, end + 1, next);
        }
    }
}

/// The table that a payload writes has no empty byte string and no rank twice.
pub proof fn lemma_payload_table_well_formed(payload: Seq<u8>)
    requires
        payload_table(payload) is Some,
    ensures
        ranks_well_formed(payload_table(payload)->0),
{
    lemma_table_from_well_formed(payload, 0, Map::empty());
}

/// Finds the first byte `b` at or after `from`.
pub fn find_byte(bytes: &[u8], b: u8, from: usize) -> (at: usize)
    requires
        from <= bytes@.len(),
    ensures
        at == first_at(bytes@, b, from as int),
        from <= at <= bytes@.len(),
{
    let mut at: usize = from;
    while at < bytes.len() && bytes[at] != b
        invariant
            from <= at <= bytes@.len(),
            first_at(bytes@, b, from as int) == first_at(bytes@, b, at as int),
        decreases bytes@.len() - at,
    {
        at = at + 1;
    }
    at
}

/// More digits do not write a smaller number.
pub proof fn lemma_decimal_grows(field: Seq<u8>, k: int)
    requires
        0 <= k <= field.len(),
        forall|i: int| 0 <= i < field.len() ==> is_digit(#[trigger] field[i]),
    ensures
        0 <= decimal_value(field.subrange(0, k)) <= decimal_value(field),
    decreases field.len() - k,
{
    if k == field.len() {
        assert(field.subrange(0, k) =~= field);
        lemma_decimal_nonnegative(field);
    } else {
        lemma_decimal_grows(field, k + 1);
        assert(field.subrange(0, k + 1).drop_last() =~= field.subrange(0, k));
        lemma_decimal_nonnegative(field.subrange(0, k));
    }
}

/// Digits write no negative number.
pub proof fn lemma_decimal_nonnegative(field: Seq<u8>)
    requires
        forall|i: int| 0 <= i < field.len() ==> is_digit(#[trigger] field[i]),
    ensures
        0 <= decimal_value(field),
    decreases field.len(),
{
    if field.len() > 0 {
        assert forall|i: int| 0 <= i < field.drop_last().len() implies is_digit(
            #[trigger] field.drop_last()[i],
        ) by {
            assert(field.drop_last()[i] == field[i]);
        }
        lemma_decimal_nonnegative(field.drop_last());
    }
}

/// Reads a rank: decimal digits that write a number that a `usize` holds.
#[verifier::rlimit(50)]
pub fn parse_rank(field: &[u8]) -> (rank: Option<usize>)
    ensures
        rank == rank_value(field@),
{
    if field.len() == 0 {
        return None;
    }
    let mut value: usize = 0;
    let mut i: usize = 0;
    while i < field.len()
        invariant
            i <= field.len(),
            forall|j: int| 0 <= j < i ==> is_digit(#[trigger] field@[j]),
            value == decimal_value(field@.subrange(0, i as int)),
        decreases field.len() - i,
    {
        let b = field[i];
        if b < 48 || b > 57 {
            return None;
        }
        let digit: usize = (b - 48) as usize;
        proof {
            assert(field@.subrange(0, i + 1).drop_last() =~= field@.subrange(0, i as int));
        }
        if value > (usize::MAX - digit) / 10 {
            proof {
                if is_decimal(field@) {
                    lemma_decimal_grows(field@, i + 1);
                }
            }
            return None;
        }
        value = value * 10 + digit;
        i = i + 1;
    }
    assert(field@.subrange(0, i as int) =~= field@);
    Some(value)
}

/// Reads one line of a payload: a byte string in base64, a space, and a rank.
pub fn parse_line(line: &[u8]) -> (entry: Option<(Vec<u8>, usize)>)
    ensures
        match entry {
            Some(found) => line_entry(line@) == Some((found.0@, found.1)),
            None => line_entry(line@) is None,
        },
{
    let space = find_byte(line, 32, 0);
    if space >= line.len() {
        return None;
    }
    let key = match base64_decode(slice_subrange(line, 0, space)) {
        Ok(key) => key,
        Err(_) => {
            return None;
        },
    };
    let rank = match parse_rank(slice_subrange(line, space + 1, line.len())) {
        Some(rank) => rank,
        None => {
            return None;
        },
    };
    if key.len() == 0 {
        return None;
    }
    Some((key, rank))
}

impl CoreBPEConstructor {
    /// Reads a rank table from its payload: one `base64 rank` entry per line. It is
    /// refused where a line is blank or malformed, or a byte string or a rank comes twice.
    #[verifier::rlimit(50)]
    pub fn parse_bfe(tiktoken_bfe: &str) -> (r: Result<FxHashMap<Vec<u8>, usize>, TiktokenError>)
        ensures
            match r {
                Ok(table) => payload_table(tiktoken_bfe.spec_bytes()) == Some(rank_entries(table)),
                Err(e) => e == TiktokenError::MalformedMergeTable && payload_table(
                    tiktoken_bfe.spec_bytes(),
                ) is None,
            },
    {
        let payload = tiktoken_bfe.as_bytes();
        let mut encoder = new_rank_table();
        let mut ranks: HashSet<usize> = HashSet::new();
        let mut from: usize = 0;
        while from < payload.len()
            invariant
                payload@ == tiktoken_bfe.spec_bytes(),
                from <= payload@.len(),
                payload_table(payload@) == table_from(payload@, from as int, rank_entries(encoder)),
                forall|rank: usize| ranks@.contains(rank) <==> has_rank(rank_entries(encoder), rank),
            decreases payload@.len() - from,
        {
            let ghost table = rank_entries(encoder);
            let end = find_byte(payload, 10, from);
            let stop: usize = if end < payload.len() && from < end && payload[end - 1] == 13 {
                end - 1
            } else {
                end
            };
            let (key, rank) = match parse_line(slice_subrange(payload, from, stop)) {
                Some(entry) => entry,
                None => {
                    return Err(TiktokenError::MalformedMergeTable);
                },
            };
            if rank_of(&encoder, key.as_slice()).is_some() || ranks.contains(&rank) {
                return Err(TiktokenError::MalformedMergeTable);
            }
            let ghost key_view = key@;
            rank_insert(&mut encoder, key, rank);
            ranks.insert(rank);
            proof {
                let after = rank_entries(encoder);
                assert forall|other: usize| ranks@.contains(other) <==> has_rank(after, other) by {
                    if has_rank(table, other) {
                        let witness = choose|k: Seq<u8>| #[trigger]
                            table.contains_key(k) && table[k] == other;
                        assert(after.contains_key(witness) && after[witness] == other);
                    }
                    if other == rank {
                        assert(after.contains_key(key_view) && after[key_view] == other);
                    }
                    if has_rank(after, other) && other != rank {
                        let witness = choose|k: Seq<u8>| #[trigger]
                            after.contains_key(k) && after[k] == other;
                        assert(table.contains_key(witness) && table[witness] == other);
                    }
                }
            }
            if end >= payload.len() {
                from = payload.len();
            } else {
                from = end + 1;
            }
        }
        Ok(encoder)
    }
}

} // verus!
