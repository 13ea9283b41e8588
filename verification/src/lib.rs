//! Flattening of tree-shaped generic values into a single ordered mapping
//! from a synthesized path key to the scalar found at that path.

use vstd::prelude::*;
use vstd::string::*;
use crate::flat_map::FlatMap;
use crate::ser::{flattened, keys_valid, settings_of, FlatSerializer, FlattenError, SuffixMode};
use crate::value::Value;

pub mod value;
pub mod text;
pub mod flat_map;
pub mod ser;
pub mod laws;

verus! {

/// The text of an optional prefix: its own text, or the empty text when absent.
pub open spec fn prefix_text(prefix: Option<&str>) -> Seq<char> {
    match prefix {
        Some(p) => p@,
        None => Seq::empty(),
    }
}

/// Flattens `src` with the given separator, optional root prefix and suffix mode.
///
/// Succeeds exactly when every map key in `src` is a string or a single
/// character; the mapping then holds the entry of every leaf, the later of
/// two leaves with the same key winning, in ascending order of the keys.
pub fn to_flatten_maptree_with(
    key_separator: &str,
    prefix: Option<&str>,
    suffix_mode: SuffixMode,
    src: &Value,
) -> (r: Result<FlatMap, FlattenError>)
    ensures
        match r {
            Ok(m) => keys_valid(src@) && m.wf() && m@ == flattened(
                settings_of(key_separator@, prefix_text(prefix), suffix_mode),
                src@,
            ),
            Err(e) => !keys_valid(src@) && e == FlattenError::InvalidKeyType,
        },
{
    let p = match prefix {
        Some(p) => String::from_str(p),
        None => String::new(),
    };
    let flattener = FlatSerializer::new(String::from_str(key_separator), p).with_suffix_mode(
        suffix_mode,
    );
    let empty = String::new();
    flattener.disassemble(empty.as_str(), empty.as_str(), src)
}

/// Flattens `src` with the given separator and optional root prefix, without kind suffixes.
pub fn to_flatten_maptree(key_separator: &str, prefix: Option<&str>, src: &Value) -> (r: Result<
    FlatMap,
    FlattenError,
>)
    ensures
        match r {
            Ok(m) => keys_valid(src@) && m.wf() && m@ == flattened(
                settings_of(key_separator@, prefix_text(prefix), SuffixMode::Off),
                src@,
            ),
            Err(e) => !keys_valid(src@) && e == FlattenError::InvalidKeyType,
        },
{
    to_flatten_maptree_with(key_separator, prefix, SuffixMode::Off, src)
}

} // verus!
