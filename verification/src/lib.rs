//! Save-data codec and reconciliation engine for a card-game save editor.
//!
//! A save file is a raw-DEFLATE-compressed, Lua-table-literal-encoded record
//! of which in-game items the player has been alerted about, has discovered,
//! and has unlocked.  This crate decompresses and parses such files, merges
//! them with a compiled-in catalog of known items, lets a caller edit the
//! resulting record set, and serializes it back byte-for-byte compatibly.

use vstd::prelude::*;

pub mod assoc;
pub mod catalog;
pub mod chars;
pub mod codec;
pub mod dump;
pub mod filters;
pub mod meta;
pub mod metaitem;
pub mod order;
pub mod parse;
pub mod ser;
pub mod ui_state;
pub mod value;

verus! {

/// The ways loading a save file can fail.
#[derive(Debug, Clone, PartialEq)]
pub enum CoreError {
    /// DEFLATE inflation failed structurally: not a valid compressed stream.
    CorruptStream,
    /// The inflated bytes are not valid UTF-8 text.
    InvalidEncoding,
    /// The inflated text does not match the restricted table-literal grammar.
    ParseError,
    /// The root table lacks the named subtable (or it is not a table).
    MissingSubtable(String),
}

/// Load save-file bytes into a canonical record set.
pub fn load(data: &[u8]) -> (r: Result<meta::Meta, CoreError>)
    ensures
        match r {
            Ok(m) => meta::load_outcome(data@) == meta::LoadOutcome::Loaded(m.map_view())
                && m.wf() && m.caps_ok() && m.complete(),
            Err(e) => match e {
                CoreError::CorruptStream => meta::load_outcome(data@) is CorruptStream,
                CoreError::InvalidEncoding => meta::load_outcome(data@) is InvalidEncoding,
                CoreError::ParseError => meta::load_outcome(data@) is ParseError,
                CoreError::MissingSubtable(nm) => meta::load_outcome(data@)
                    == meta::LoadOutcome::MissingSubtable(nm@),
            },
        },
{
    meta::Meta::from_lua_table(data)
}

/// Serialize a record set back into save-file bytes; this cannot fail.
pub fn save(m: &meta::Meta) -> (r: Result<Vec<u8>, CoreError>)
    ensures
        r matches Ok(b) && b@ == codec::deflate_of(m.save_payload()),
        r matches Ok(b) && codec::inflate_of(b@) == Some(m.save_payload()),
{
    m.to_lua_data()
}

/// The record set a fresh session starts from: the catalog's baseline.
pub fn default_meta() -> (r: meta::Meta)
    ensures
        r.map_view() == meta::baseline_map(),
        r.wf(),
        r.caps_ok(),
        r.complete(),
{
    meta::Meta::from_defaults()
}

/// Turn on every item whose name starts with the prefix.
pub fn unlock_all(m: &mut meta::Meta, prefix: &str)
    ensures
        old(m).wf() && old(m).caps_ok() ==> ({
            &&& final(m).map_view() == meta::unlock_map(old(m).map_view(), prefix@)
            &&& final(m).wf()
            &&& final(m).caps_ok()
            &&& (old(m).complete() ==> final(m).complete())
        }),
{
    m.unlock_all_type(prefix)
}

} // verus!
