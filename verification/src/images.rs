//! Record types for images and tags, and the verified assembly of a
//! fetched row into a record, including attribute folding and blame-key
//! parsing.

use vstd::prelude::*;

verus! {

use crate::hashing::{hex_of, hex_encode, hex_to_32_bytes, is_hex_string, hex_decoded};
use crate::project::{AttrPair, AttrEntry, pairs_view, entries_view, grouped, fold_attribute_pairs,
    ProjectError};
use crate::search::string_is;
use crate::text::{parse_i64, parse_i64_spec};
use vstd::string::StringExecFns;

/// The 32-byte content hash identifying an image.
#[derive(Clone, Copy, Debug, PartialEq, Eq, Hash)]
pub struct ImageHash(pub [u8; 32]);

impl ImageHash {
    /// Wraps raw hash bytes.
    pub fn from_bytes(bytes: [u8; 32]) -> (r: Self)
        ensures
            r.0@ == bytes@,
    {
        ImageHash(bytes)
    }

    /// This hash as lowercase hex text.
    pub fn to_hex(&self) -> (r: String)
        ensures
            r@ == hex_of(self.0@),
    {
        hex_encode(self.0.as_slice())
    }

    /// Parses a hash from 64 hex digits; any other text is rejected.
    pub fn from_hex(s: &str) -> (r: Option<ImageHash>)
        ensures
            r is Some <==> (is_hex_string(s@) && s@.len() == 64),
            r is Some ==> (r->0).0@ == hex_decoded(s@),
    {
        match hex_to_32_bytes(s) {
            Some(bytes) => Some(ImageHash::from_bytes(bytes)),
            None => None,
        }
    }
}

/// One tag of the collection.
pub struct Tag {
    pub id: i64,
    pub name: String,
    pub active: bool,
}

/// One image record, with its attributes folded by key.
pub struct Image {
    pub id: i64,
    pub hash: ImageHash,
    pub active: bool,
    pub attributes: Vec<AttrEntry>,
    pub tags: Vec<i64>,
    pub caption: Option<String>,
}

/// Assembles an image record from one fetched row, folding the raw
/// attribute pairs into a key-to-values mapping.
pub fn image_from_row(
    id: i64,
    hash: ImageHash,
    active: bool,
    tags: Vec<i64>,
    caption: Option<String>,
    attr_pairs: &Vec<AttrPair>,
) -> (r: Image)
    ensures
        r.id == id,
        r.hash == hash,
        r.active == active,
        r.tags == tags,
        r.caption == caption,
        entries_view(r.attributes@) == grouped(pairs_view(attr_pairs@)),
{
    Image { id, hash, active, attributes: fold_attribute_pairs(attr_pairs), tags, caption }
}

/// The query text that stores an embedding under a whitelisted embedding
/// column; any name outside the whitelist is rejected, so no caller-chosen
/// text ever reaches the query.
pub fn embedding_update_sql(name: &String) -> (r: Option<String>)
    ensures
        r is Some <==> name@ == "embedding_1"@,
        r is Some ==> (r->0)@ ==
            "UPDATE images_2 SET embedding_1 = $1 WHERE hash = $2 AND active = true"@,
{
    if string_is(name, "embedding_1") {
        Some(
            String::from_str("UPDATE images_2 SET embedding_1 = $1 WHERE hash = $2 AND active = true"),
        )
    } else {
        None
    }
}

/// The query text that lists embeddings under a whitelisted embedding
/// column, from a minimum id on, in ascending id order, limited.
pub fn embedding_list_sql(name: &String) -> (r: Option<String>)
    ensures
        r is Some <==> name@ == "embedding_1"@,
        r is Some ==> (r->0)@ ==
            "SELECT id, embedding_1 FROM images_2 WHERE id >= $1 ORDER BY id ASC LIMIT $2"@,
{
    if string_is(name, "embedding_1") {
        Some(
            String::from_str("SELECT id, embedding_1 FROM images_2 WHERE id >= $1 ORDER BY id ASC LIMIT $2"),
        )
    } else {
        None
    }
}

/// One image record together with, for each tag, the user who set it.
pub struct ImageWithBlame {
    pub id: i64,
    pub hash: ImageHash,
    pub active: bool,
    pub attributes: Vec<AttrEntry>,
    pub tags_blame: Vec<(i64, i64)>,
}

/// Parses blame entries whose tag ids arrive as decimal text keys. A key
/// that does not parse signals a malformed storage payload.
pub fn parse_blame_entries(raw: &Vec<(String, i64)>) -> (r: Result<Vec<(i64, i64)>, ProjectError>)
    ensures
        r is Ok <==> (forall|i: int|
            0 <= i < raw@.len() ==> parse_i64_spec((#[trigger] raw@[i]).0@) is Some),
        match r {
            Ok(v) => v@.len() == raw@.len() && forall|i: int|
                0 <= i < raw@.len() ==> (#[trigger] v@[i]).0 == parse_i64_spec(raw@[i].0@)->0
                    && v@[i].1 == raw@[i].1,
            Err(e) => e == ProjectError::ShapeMismatch,
        },
{
    let mut out: Vec<(i64, i64)> = Vec::new();
    let mut i: usize = 0;
    while i < raw.len()
        invariant
            i <= raw@.len(),
            out@.len() == i,
            forall|j: int| 0 <= j < i ==> parse_i64_spec((#[trigger] raw@[j]).0@) is Some,
            forall|j: int|
                0 <= j < i ==> (#[trigger] out@[j]).0 == parse_i64_spec(raw@[j].0@)->0 && out@[j].1
                    == raw@[j].1,
        decreases raw@.len() - i,
    {
        let tag_id = match parse_i64(raw[i].0.as_str()) {
            Some(n) => n,
            None => {
                return Err(ProjectError::ShapeMismatch);
            },
        };
        out.push((tag_id, raw[i].1));
        i = i + 1;
    }
    Ok(out)
}

/// Assembles an image-with-blame record from one fetched row.
pub fn image_with_blame_from_row(
    id: i64,
    hash: ImageHash,
    active: bool,
    attr_pairs: &Vec<AttrPair>,
    raw_blame: &Vec<(String, i64)>,
) -> (r: Result<ImageWithBlame, ProjectError>)
    ensures
        r is Ok <==> (forall|i: int|
            0 <= i < raw_blame@.len() ==> parse_i64_spec((#[trigger] raw_blame@[i]).0@) is Some),
        match r {
            Ok(img) => img.id == id && img.hash == hash && img.active == active && entries_view(
                img.attributes@,
            ) == grouped(pairs_view(attr_pairs@)) && img.tags_blame@.len() == raw_blame@.len()
                && forall|i: int|
                0 <= i < raw_blame@.len() ==> (#[trigger] img.tags_blame@[i]).0 == parse_i64_spec(
                    raw_blame@[i].0@,
                )->0 && img.tags_blame@[i].1 == raw_blame@[i].1,
            Err(e) => e == ProjectError::ShapeMismatch,
        },
{
    let tags_blame = match parse_blame_entries(raw_blame) {
        Ok(v) => v,
        Err(e) => {
            return Err(e);
        },
    };
    Ok(
        ImageWithBlame {
            id,
            hash,
            active,
            attributes: fold_attribute_pairs(attr_pairs),
            tags_blame,
        },
    )
}

} // verus!
