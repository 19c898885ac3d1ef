//! One entry point over the three on-disk formats. A caller holds the whole
//! body in memory: saving encodes the full store and the caller writes the
//! result over the old file in place — not atomically, so a process killed
//! mid-write can leave a truncated file, and two processes that load, change
//! and save concurrently lose one side's changes. Those are accepted limits
//! of a single local tool; nothing here locks or detects them.
use vstd::prelude::*;
use crate::db::{Db, DbV, Context, Format};
use crate::json::{
    emit_db, strip_ws, spec_decode_json, spec_decode_json_pretty, encode_json_compact,
    encode_json_pretty, decode_json, decode_json_pretty, dbv_wf, dbv_ranged,
    lemma_json_round_trip,
};
use crate::binfmt::{emit_bin_db, spec_decode_bin, encode_bin, decode_bin, dbv_sized,
    lemma_bin_round_trip};

verus! {

/// A store body ready for disk: text for the JSON formats, raw bytes for
/// the binary one.
#[derive(Debug)]
pub enum StoreBody {
    Text(String),
    Bytes(Vec<u8>),
}

/// What an encoded body must hold, by format: the pretty text may lay
/// whitespace between tokens, the compact text is the body itself, and the
/// binary bytes are the binary body.
pub open spec fn spec_encoded_body(f: Format, d: DbV, body: StoreBody) -> bool {
    match f {
        Format::JsonPretty => body matches StoreBody::Text(t) && strip_ws(t@) == emit_db(d),
        Format::Json => body matches StoreBody::Text(t) && t@ == emit_db(d),
        Format::Binary => body matches StoreBody::Bytes(b) && b@ == emit_bin_db(d),
    }
}

/// What a body decodes to, by format.
pub open spec fn spec_decode_store(f: Format, body: StoreBody) -> Option<DbV> {
    match f {
        Format::JsonPretty => match body {
            StoreBody::Text(t) => spec_decode_json_pretty(t@),
            StoreBody::Bytes(_) => None,
        },
        Format::Json => match body {
            StoreBody::Text(t) => spec_decode_json(t@),
            StoreBody::Bytes(_) => None,
        },
        Format::Binary => match body {
            StoreBody::Bytes(b) => spec_decode_bin(b@),
            StoreBody::Text(_) => None,
        },
    }
}

/// Encodes a whole store in the chosen format.
pub fn encode_store(format: &Format, db: &Db) -> (r: StoreBody)
    ensures
        spec_encoded_body(*format, db@, r),
{
    match format {
        Format::JsonPretty => StoreBody::Text(encode_json_pretty(db)),
        Format::Json => StoreBody::Text(encode_json_compact(db)),
        Format::Binary => StoreBody::Bytes(encode_bin(db)),
    }
}

/// Decodes a whole store from a body in the chosen format; only a complete,
/// well-formed body of that format decodes.
pub fn decode_store(format: &Format, body: &StoreBody) -> (r: Option<Db>)
    ensures
        match r {
            Some(db) => spec_decode_store(*format, *body) == Some(db@) && db.wf(),
            None => spec_decode_store(*format, *body) is None,
        },
{
    match format {
        Format::JsonPretty => match body {
            StoreBody::Text(t) => decode_json_pretty(t.as_str()),
            StoreBody::Bytes(_) => None,
        },
        Format::Json => match body {
            StoreBody::Text(t) => decode_json(t.as_str()),
            StoreBody::Bytes(_) => None,
        },
        Format::Binary => match body {
            StoreBody::Bytes(b) => decode_bin(b),
            StoreBody::Text(_) => None,
        },
    }
}

/// The round trip over every format: a body encoded from a well-formed
/// store decodes back to that store, whichever of the three formats wrote
/// it.
pub proof fn lemma_store_round_trip(f: Format, d: DbV, body: StoreBody)
    requires
        dbv_wf(d),
        dbv_ranged(d),
        dbv_sized(d),
        spec_encoded_body(f, d, body),
    ensures
        spec_decode_store(f, body) == Some(d),
{
    match f {
        Format::JsonPretty => {
            lemma_json_round_trip(d);
        },
        Format::Json => {
            lemma_json_round_trip(d);
        },
        Format::Binary => {
            lemma_bin_round_trip(d);
        },
    }
}

impl Context {
    /// Encodes the loaded store for its own format; the caller replaces the
    /// store file's contents with the result, whole.
    pub fn save(&self) -> (r: StoreBody)
        ensures
            spec_encoded_body(self.spec_format(), self.db@, r),
    {
        encode_store(&self.format, &self.db)
    }
}

} // verus!
