pub mod bpe;
pub mod catalog;
pub mod construct;
pub mod error;
pub mod load;
pub mod merge;
pub mod order;
pub mod pattern;
pub mod roundtrip;
pub mod table;
pub mod text;
pub mod tiktoken;
pub mod unstable;

pub use bpe::{CoreBPE, FakeThreadId};
pub use error::TiktokenError;
pub use merge::{
    _byte_pair_merge, byte_pair_encode, byte_pair_split, byte_pair_try_encode, has_all_bytes,
};
pub use tiktoken::{encoding_for_model, get_encoding, SpecialArgument, Tiktoken};
