//! The binary wire format for search-result image streams: little-endian
//! integers, variable-length integers, length-prefixed UTF-8 strings, and
//! per-image records gated by presence flags.

use vstd::prelude::*;

verus! {

use vstd::utf8::{valid_utf8, decode_utf8};
use vstd::slice::slice_to_vec;

/// A malformed buffer: it ends inside a field, a string is not valid
/// UTF-8, or records carry no fields at all and so can never consume the
/// buffer.
#[derive(Clone, Copy, Debug, PartialEq, Eq, Structural)]
pub enum WireError {
    UnexpectedEnd,
    InvalidUtf8,
    NoFields,
}

/// The value of two little-endian bytes.
pub open spec fn le16(b: Seq<u8>) -> nat {
    (b[0] as nat) + 0x100 * (b[1] as nat)
}

/// The value of four little-endian bytes.
pub open spec fn le32(b: Seq<u8>) -> nat {
    (b[0] as nat) + 0x100 * (b[1] as nat) + 0x1_0000 * (b[2] as nat) + 0x100_0000 * (b[3] as nat)
}

/// The value of eight little-endian bytes.
pub open spec fn le64(b: Seq<u8>) -> nat {
    (b[0] as nat) + 0x100 * (b[1] as nat) + 0x1_0000 * (b[2] as nat) + 0x100_0000 * (b[3] as nat)
        + 0x1_0000_0000 * (b[4] as nat) + 0x100_0000_0000 * (b[5] as nat) + 0x1_0000_0000_0000 * (
    b[6] as nat) + 0x100_0000_0000_0000 * (b[7] as nat)
}

/// How many bytes a variable-length integer occupies, by its first byte.
pub open spec fn vli_len(first: u8) -> nat {
    if first == 0xfd {
        3
    } else if first == 0xfe {
        5
    } else if first == 0xff {
        9
    } else {
        1
    }
}

/// The value of the variable-length integer at `pos`.
pub open spec fn vli_value(data: Seq<u8>, pos: int) -> nat {
    let b = data[pos];
    if b == 0xfd {
        le16(data.subrange(pos + 1, pos + 3))
    } else if b == 0xfe {
        le32(data.subrange(pos + 1, pos + 5))
    } else if b == 0xff {
        le64(data.subrange(pos + 1, pos + 9))
    } else {
        b as nat
    }
}

/// Parsing a variable-length integer: its value and the position after it.
pub open spec fn spec_vli(data: Seq<u8>, pos: int) -> Result<(u64, int), WireError> {
    if pos >= data.len() {
        Err(WireError::UnexpectedEnd)
    } else if pos + vli_len(data[pos]) > data.len() {
        Err(WireError::UnexpectedEnd)
    } else {
        Ok((vli_value(data, pos) as u64, pos + vli_len(data[pos])))
    }
}

/// Reads a variable-length integer: one byte holds values below 0xfd, and
/// the markers 0xfd, 0xfe and 0xff prefix a little-endian u16, u32 or u64.
pub fn read_vli(data: &[u8], pos: usize) -> (r: Result<(u64, usize), WireError>)
    ensures
        match r {
            Ok(p) => spec_vli(data@, pos as int) == Ok::<(u64, int), WireError>((p.0, p.1 as int)),
            Err(e) => spec_vli(data@, pos as int) == Err::<(u64, int), WireError>(e),
        },
{
    if pos >= data.len() {
        return Err(WireError::UnexpectedEnd);
    }
    let b = data[pos];
    if b == 0xfd {
        if data.len() - pos < 3 {
            return Err(WireError::UnexpectedEnd);
        }
        let v = (data[pos + 1] as u64) + 0x100 * (data[pos + 2] as u64);
        proof {
            assert(data@.subrange(pos as int + 1, pos as int + 3)[0] == data@[pos as int + 1]);
            assert(data@.subrange(pos as int + 1, pos as int + 3)[1] == data@[pos as int + 2]);
        }
        Ok((v, pos + 3))
    } else if b == 0xfe {
        if data.len() - pos < 5 {
            return Err(WireError::UnexpectedEnd);
        }
        let v = (data[pos + 1] as u64) + 0x100 * (data[pos + 2] as u64) + 0x1_0000 * (data[pos + 3]
            as u64) + 0x100_0000 * (data[pos + 4] as u64);
        proof {
            let ghost s = data@.subrange(pos as int + 1, pos as int + 5);
            assert(s[0] == data@[pos as int + 1]);
            assert(s[1] == data@[pos as int + 2]);
            assert(s[2] == data@[pos as int + 3]);
            assert(s[3] == data@[pos as int + 4]);
        }
        Ok((v, pos + 5))
    } else if b == 0xff {
        if data.len() - pos < 9 {
            return Err(WireError::UnexpectedEnd);
        }
        let v = (data[pos + 1] as u64) + 0x100 * (data[pos + 2] as u64) + 0x1_0000 * (data[pos + 3]
            as u64) + 0x100_0000 * (data[pos + 4] as u64) + 0x1_0000_0000 * (data[pos + 5] as u64)
            + 0x100_0000_0000 * (data[pos + 6] as u64) + 0x1_0000_0000_0000 * (data[pos + 7]
            as u64) + 0x100_0000_0000_0000 * (data[pos + 8] as u64);
        proof {
            let ghost s = data@.subrange(pos as int + 1, pos as int + 9);
            assert(s[0] == data@[pos as int + 1]);
            assert(s[1] == data@[pos as int + 2]);
            assert(s[2] == data@[pos as int + 3]);
            assert(s[3] == data@[pos as int + 4]);
            assert(s[4] == data@[pos as int + 5]);
            assert(s[5] == data@[pos as int + 6]);
            assert(s[6] == data@[pos as int + 7]);
            assert(s[7] == data@[pos as int + 8]);
        }
        Ok((v, pos + 9))
    } else {
        Ok((b as u64, pos + 1))
    }
}

/// Parsing a length-prefixed UTF-8 string.
pub open spec fn spec_wire_string(data: Seq<u8>, pos: int) -> Result<(Seq<char>, int), WireError> {
    match spec_vli(data, pos) {
        Err(e) => Err(e),
        Ok((n, p)) => {
            if p + n > data.len() {
                Err(WireError::UnexpectedEnd)
            } else if !valid_utf8(data.subrange(p, p + n)) {
                Err(WireError::InvalidUtf8)
            } else {
                Ok((decode_utf8(data.subrange(p, p + n)), p + n))
            }
        },
    }
}

/// Relies on String::from_utf8: succeeds exactly on valid UTF-8 input and
/// decodes those bytes.
#[verifier::external_body]
fn bytes_to_string(v: Vec<u8>) -> (r: Option<String>)
    ensures
        r is Some <==> valid_utf8(v@),
        r is Some ==> r->0@ == decode_utf8(v@),
{
    String::from_utf8(v).ok()
}

/// Reads a length-prefixed UTF-8 string: a variable-length byte count,
/// then that many bytes of text.
pub fn read_wire_string(data: &[u8], pos: usize) -> (r: Result<(String, usize), WireError>)
    ensures
        match r {
            Ok(p) => spec_wire_string(data@, pos as int) == Ok::<(Seq<char>, int), WireError>(
                (p.0@, p.1 as int),
            ),
            Err(e) => spec_wire_string(data@, pos as int) == Err::<(Seq<char>, int), WireError>(e),
        },
{
    let (n, p) = match read_vli(data, pos) {
        Ok(x) => x,
        Err(e) => {
            return Err(e);
        },
    };
    if n > (data.len() - p) as u64 {
        return Err(WireError::UnexpectedEnd);
    }
    let nn = n as usize;
    let bytes = slice_to_vec(&data[p..p + nn]);
    match bytes_to_string(bytes) {
        Some(s) => Ok((s, p + nn)),
        None => Err(WireError::InvalidUtf8),
    }
}

/// Parsing four little-endian bytes as a u32.
pub open spec fn spec_le_u32(data: Seq<u8>, pos: int) -> Result<(u32, int), WireError> {
    if pos + 4 > data.len() {
        Err(WireError::UnexpectedEnd)
    } else {
        Ok((le32(data.subrange(pos, pos + 4)) as u32, pos + 4))
    }
}

/// Reads four little-endian bytes as a u32.
pub fn read_le_u32(data: &[u8], pos: usize) -> (r: Result<(u32, usize), WireError>)
    ensures
        match r {
            Ok(p) => spec_le_u32(data@, pos as int) == Ok::<(u32, int), WireError>(
                (p.0, p.1 as int),
            ),
            Err(e) => spec_le_u32(data@, pos as int) == Err::<(u32, int), WireError>(e),
        },
{
    if pos >= data.len() || data.len() - pos < 4 {
        return Err(WireError::UnexpectedEnd);
    }
    let v = (data[pos] as u32) + 0x100 * (data[pos + 1] as u32) + 0x1_0000 * (data[pos + 2] as u32)
        + 0x100_0000 * (data[pos + 3] as u32);
    proof {
        let ghost s = data@.subrange(pos as int, pos as int + 4);
        assert(s[0] == data@[pos as int]);
        assert(s[1] == data@[pos as int + 1]);
        assert(s[2] == data@[pos as int + 2]);
        assert(s[3] == data@[pos as int + 3]);
    }
    Ok((v, pos + 4))
}

/// Prepends already-parsed items to the rest of a list parse.
pub open spec fn with_prefix<T>(acc: Seq<T>, r: Result<(Seq<T>, int), WireError>) -> Result<
    (Seq<T>, int),
    WireError,
> {
    match r {
        Ok(p) => Ok((acc + p.0, p.1)),
        Err(e) => Err(e),
    }
}

/// Parsing `count` tag entries, each a tag id and a user id.
pub open spec fn spec_tag_list(data: Seq<u8>, pos: int, count: nat) -> Result<
    (Seq<(u64, u64)>, int),
    WireError,
>
    decreases count,
{
    if count == 0 {
        Ok((Seq::empty(), pos))
    } else {
        match spec_vli(data, pos) {
            Err(e) => Err(e),
            Ok((t, p1)) => match spec_vli(data, p1) {
                Err(e) => Err(e),
                Ok((u, p2)) => match spec_tag_list(data, p2, (count - 1) as nat) {
                    Err(e) => Err(e),
                    Ok((rest, p3)) => Ok((seq![(t, u)] + rest, p3)),
                },
            },
        }
    }
}

/// A successful list parse moves forward and stays inside the buffer.
proof fn lemma_tag_list_bounds(data: Seq<u8>, pos: int, count: nat)
    requires
        0 <= pos <= data.len(),
        spec_tag_list(data, pos, count) is Ok,
    ensures
        pos <= spec_tag_list(data, pos, count)->Ok_0.1 <= data.len(),
    decreases count,
{
    if count > 0 {
        let p1 = spec_vli(data, pos)->Ok_0.1;
        let p2 = spec_vli(data, p1)->Ok_0.1;
        lemma_tag_list_bounds(data, p2, (count - 1) as nat);
    }
}

/// Reads `count` tag entries.
pub fn read_tag_list(data: &[u8], pos: usize, count: u64) -> (r: Result<
    (Vec<(u64, u64)>, usize),
    WireError,
>)
    requires
        pos <= data@.len(),
    ensures
        match r {
            Ok(p) => spec_tag_list(data@, pos as int, count as nat) == Ok::<
                (Seq<(u64, u64)>, int),
                WireError,
            >((p.0@, p.1 as int)),
            Err(e) => spec_tag_list(data@, pos as int, count as nat) == Err::<
                (Seq<(u64, u64)>, int),
                WireError,
            >(e),
        },
{
    let mut acc: Vec<(u64, u64)> = Vec::new();
    let mut p = pos;
    let mut i: u64 = 0;
    proof {
        assert(acc@ + spec_tag_list(data@, pos as int, count as nat)->Ok_0.0 =~= spec_tag_list(
            data@,
            pos as int,
            count as nat,
        )->Ok_0.0);
    }
    while i < count
        invariant
            i <= count,
            p <= data@.len(),
            spec_tag_list(data@, pos as int, count as nat) == with_prefix(
                acc@,
                spec_tag_list(data@, p as int, (count - i) as nat),
            ),
        decreases count - i,
    {
        let (t, p1) = match read_vli(data, p) {
            Ok(x) => x,
            Err(e) => {
                return Err(e);
            },
        };
        let (u, p2) = match read_vli(data, p1) {
            Ok(x) => x,
            Err(e) => {
                return Err(e);
            },
        };
        let ghost acc_before = acc@;
        acc.push((t, u));
        proof {
            assert(acc@ =~= acc_before.push((t, u)));
            match spec_tag_list(data@, p2 as int, (count - i - 1) as nat) {
                Ok(rest) => {
                    assert(acc_before + (seq![(t, u)] + rest.0) =~= acc@ + rest.0);
                },
                Err(_) => {},
            }
        }
        p = p2;
        i = i + 1;
    }
    proof {
        assert(acc@ + Seq::<(u64, u64)>::empty() =~= acc@);
    }
    Ok((acc, p))
}

/// The models of a parsed attribute-value list.
pub open spec fn attr_vals_view(s: Seq<(String, u64)>) -> Seq<(Seq<char>, u64)> {
    s.map_values(|p: (String, u64)| (p.0@, p.1))
}

/// Parsing `count` attribute values, each a string and a user id.
pub open spec fn spec_value_list(data: Seq<u8>, pos: int, count: nat) -> Result<
    (Seq<(Seq<char>, u64)>, int),
    WireError,
>
    decreases count,
{
    if count == 0 {
        Ok((Seq::empty(), pos))
    } else {
        match spec_wire_string(data, pos) {
            Err(e) => Err(e),
            Ok((v, p1)) => match spec_vli(data, p1) {
                Err(e) => Err(e),
                Ok((u, p2)) => match spec_value_list(data, p2, (count - 1) as nat) {
                    Err(e) => Err(e),
                    Ok((rest, p3)) => Ok((seq![(v, u)] + rest, p3)),
                },
            },
        }
    }
}

proof fn lemma_value_list_bounds(data: Seq<u8>, pos: int, count: nat)
    requires
        0 <= pos <= data.len(),
        spec_value_list(data, pos, count) is Ok,
    ensures
        pos <= spec_value_list(data, pos, count)->Ok_0.1 <= data.len(),
    decreases count,
{
    if count > 0 {
        let p1 = spec_wire_string(data, pos)->Ok_0.1;
        let p2 = spec_vli(data, p1)->Ok_0.1;
        lemma_value_list_bounds(data, p2, (count - 1) as nat);
    }
}

/// Reads `count` attribute values.
fn read_value_list(data: &[u8], pos: usize, count: u64) -> (r: Result<
    (Vec<(String, u64)>, usize),
    WireError,
>)
    requires
        pos <= data@.len(),
    ensures
        match r {
            Ok(p) => spec_value_list(data@, pos as int, count as nat) == Ok::<
                (Seq<(Seq<char>, u64)>, int),
                WireError,
            >((attr_vals_view(p.0@), p.1 as int)),
            Err(e) => spec_value_list(data@, pos as int, count as nat) == Err::<
                (Seq<(Seq<char>, u64)>, int),
                WireError,
            >(e),
        },
{
    let mut acc: Vec<(String, u64)> = Vec::new();
    let mut p = pos;
    let mut i: u64 = 0;
    proof {
        assert(attr_vals_view(acc@) =~= Seq::<(Seq<char>, u64)>::empty());
    }
    while i < count
        invariant
            i <= count,
            p <= data@.len(),
            spec_value_list(data@, pos as int, count as nat) == with_prefix(
                attr_vals_view(acc@),
                spec_value_list(data@, p as int, (count - i) as nat),
            ),
        decreases count - i,
    {
        let (v, p1) = match read_wire_string(data, p) {
            Ok(x) => x,
            Err(e) => {
                return Err(e);
            },
        };
        proof {
            assert(p1 <= data@.len());
        }
        let (u, p2) = match read_vli(data, p1) {
            Ok(x) => x,
            Err(e) => {
                return Err(e);
            },
        };
        let ghost acc_before = acc@;
        acc.push((v, u));
        proof {
            assert(attr_vals_view(acc@) =~= attr_vals_view(acc_before).push(
                (acc@.last().0@, acc@.last().1),
            ));
            match spec_value_list(data@, p2 as int, (count - i - 1) as nat) {
                Ok(rest) => {
                    assert(attr_vals_view(acc_before) + (seq![(acc@.last().0@, acc@.last().1)]
                        + rest.0) =~= attr_vals_view(acc@) + rest.0);
                },
                Err(_) => {},
            }
        }
        p = p2;
        i = i + 1;
    }
    proof {
        assert(attr_vals_view(acc@) + Seq::<(Seq<char>, u64)>::empty() =~= attr_vals_view(acc@));
    }
    Ok((acc, p))
}

/// The models of a parsed attribute-key list.
pub open spec fn attr_keys_view(s: Seq<(String, Vec<(String, u64)>)>) -> Seq<
    (Seq<char>, Seq<(Seq<char>, u64)>),
> {
    s.map_values(|p: (String, Vec<(String, u64)>)| (p.0@, attr_vals_view(p.1@)))
}

/// Parsing `count` attribute keys, each a string and its value list.
pub open spec fn spec_key_list(data: Seq<u8>, pos: int, count: nat) -> Result<
    (Seq<(Seq<char>, Seq<(Seq<char>, u64)>)>, int),
    WireError,
>
    decreases count,
{
    if count == 0 {
        Ok((Seq::empty(), pos))
    } else {
        match spec_wire_string(data, pos) {
            Err(e) => Err(e),
            Ok((k, p1)) => match spec_vli(data, p1) {
                Err(e) => Err(e),
                Ok((n, p2)) => match spec_value_list(data, p2, n as nat) {
                    Err(e) => Err(e),
                    Ok((vals, p3)) => match spec_key_list(data, p3, (count - 1) as nat) {
                        Err(e) => Err(e),
                        Ok((rest, p4)) => Ok((seq![(k, vals)] + rest, p4)),
                    },
                },
            },
        }
    }
}

proof fn lemma_key_list_bounds(data: Seq<u8>, pos: int, count: nat)
    requires
        0 <= pos <= data.len(),
        spec_key_list(data, pos, count) is Ok,
    ensures
        pos <= spec_key_list(data, pos, count)->Ok_0.1 <= data.len(),
    decreases count,
{
    if count > 0 {
        let p1 = spec_wire_string(data, pos)->Ok_0.1;
        let p2 = spec_vli(data, p1)->Ok_0.1;
        let n = spec_vli(data, p1)->Ok_0.0;
        lemma_value_list_bounds(data, p2, n as nat);
        let p3 = spec_value_list(data, p2, n as nat)->Ok_0.1;
        lemma_key_list_bounds(data, p3, (count - 1) as nat);
    }
}

/// Reads `count` attribute keys with their value lists.
fn read_key_list(data: &[u8], pos: usize, count: u64) -> (r: Result<
    (Vec<(String, Vec<(String, u64)>)>, usize),
    WireError,
>)
    requires
        pos <= data@.len(),
    ensures
        match r {
            Ok(p) => spec_key_list(data@, pos as int, count as nat) == Ok::<
                (Seq<(Seq<char>, Seq<(Seq<char>, u64)>)>, int),
                WireError,
            >((attr_keys_view(p.0@), p.1 as int)),
            Err(e) => spec_key_list(data@, pos as int, count as nat) == Err::<
                (Seq<(Seq<char>, Seq<(Seq<char>, u64)>)>, int),
                WireError,
            >(e),
        },
{
    let mut acc: Vec<(String, Vec<(String, u64)>)> = Vec::new();
    let mut p = pos;
    let mut i: u64 = 0;
    proof {
        assert(attr_keys_view(acc@) =~= Seq::<(Seq<char>, Seq<(Seq<char>, u64)>)>::empty());
    }
    while i < count
        invariant
            i <= count,
            p <= data@.len(),
            spec_key_list(data@, pos as int, count as nat) == with_prefix(
                attr_keys_view(acc@),
                spec_key_list(data@, p as int, (count - i) as nat),
            ),
        decreases count - i,
    {
        let (k, p1) = match read_wire_string(data, p) {
            Ok(x) => x,
            Err(e) => {
                return Err(e);
            },
        };
        proof {
            assert(p1 <= data@.len());
        }
        let (n, p2) = match read_vli(data, p1) {
            Ok(x) => x,
            Err(e) => {
                return Err(e);
            },
        };
        let (vals, p3) = match read_value_list(data, p2, n) {
            Ok(x) => x,
            Err(e) => {
                return Err(e);
            },
        };
        proof {
            lemma_value_list_bounds(data@, p2 as int, n as nat);
        }
        let ghost acc_before = acc@;
        acc.push((k, vals));
        proof {
            assert(attr_keys_view(acc@) =~= attr_keys_view(acc_before).push(
                (acc@.last().0@, attr_vals_view(acc@.last().1@)),
            ));
            match spec_key_list(data@, p3 as int, (count - i - 1) as nat) {
                Ok(rest) => {
                    assert(attr_keys_view(acc_before) + (seq![
                        (acc@.last().0@, attr_vals_view(acc@.last().1@)),
                    ] + rest.0) =~= attr_keys_view(acc@) + rest.0);
                },
                Err(_) => {},
            }
        }
        p = p3;
        i = i + 1;
    }
    proof {
        assert(attr_keys_view(acc@) + Seq::<(Seq<char>, Seq<(Seq<char>, u64)>)>::empty()
            =~= attr_keys_view(acc@));
    }
    Ok((acc, p))
}

/// One parsed search-result image; absent fields were not requested.
#[derive(Clone, Debug, PartialEq, Eq)]
pub struct SearchResultImage {
    pub id: Option<u32>,
    pub hash: Option<Vec<u8>>,
    pub tags: Option<Vec<(u64, u64)>>,
    pub attributes: Option<Vec<(String, Vec<(String, u64)>)>>,
}

/// The mathematical model of a parsed search-result image.
pub struct ImageRec {
    pub id: Option<u32>,
    pub hash: Option<Seq<u8>>,
    pub tags: Option<Seq<(u64, u64)>>,
    pub attributes: Option<Seq<(Seq<char>, Seq<(Seq<char>, u64)>)>>,
}

impl View for SearchResultImage {
    type V = ImageRec;

    open spec fn view(&self) -> ImageRec {
        ImageRec {
            id: self.id,
            hash: match self.hash {
                Some(ref h) => Some(h@),
                None => None,
            },
            tags: match self.tags {
                Some(ref t) => Some(t@),
                None => None,
            },
            attributes: match self.attributes {
                Some(ref a) => Some(attr_keys_view(a@)),
                None => None,
            },
        }
    }
}

/// Parsing one record at `pos`: an id, a hash, a tag list and an
/// attribute list, each present exactly when its flag is set.
pub open spec fn spec_record(
    data: Seq<u8>,
    pos: int,
    has_ids: bool,
    has_hashes: bool,
    has_tags: bool,
    has_attributes: bool,
) -> Result<(ImageRec, int), WireError> {
    let idr = if has_ids {
        spec_le_u32(data, pos)
    } else {
        Ok((0u32, pos))
    };
    match idr {
        Err(e) => Err(e),
        Ok((idv, p1)) => {
            if has_hashes && p1 + 32 > data.len() {
                Err(WireError::UnexpectedEnd)
            } else {
                let p2 = if has_hashes {
                    p1 + 32
                } else {
                    p1
                };
                let tagr = if has_tags {
                    match spec_vli(data, p2) {
                        Err(e) => Err(e),
                        Ok((n, q)) => spec_tag_list(data, q, n as nat),
                    }
                } else {
                    Ok((Seq::empty(), p2))
                };
                match tagr {
                    Err(e) => Err(e),
                    Ok((tags, p3)) => {
                        let attrr = if has_attributes {
                            match spec_vli(data, p3) {
                                Err(e) => Err(e),
                                Ok((n, q)) => spec_key_list(data, q, n as nat),
                            }
                        } else {
                            Ok((Seq::empty(), p3))
                        };
                        match attrr {
                            Err(e) => Err(e),
                            Ok((attrs, p4)) => Ok(
                                (
                                    ImageRec {
                                        id: if has_ids {
                                            Some(idv)
                                        } else {
                                            None
                                        },
                                        hash: if has_hashes {
                                            Some(data.subrange(p1, p1 + 32))
                                        } else {
                                            None
                                        },
                                        tags: if has_tags {
                                            Some(tags)
                                        } else {
                                            None
                                        },
                                        attributes: if has_attributes {
                                            Some(attrs)
                                        } else {
                                            None
                                        },
                                    },
                                    p4,
                                ),
                            ),
                        }
                    },
                }
            }
        },
    }
}

/// A successful record parse stays inside the buffer and, when at least
/// one field is requested, moves strictly forward.
proof fn lemma_record_bounds(
    data: Seq<u8>,
    pos: int,
    has_ids: bool,
    has_hashes: bool,
    has_tags: bool,
    has_attributes: bool,
)
    requires
        0 <= pos <= data.len(),
        spec_record(data, pos, has_ids, has_hashes, has_tags, has_attributes) is Ok,
    ensures
        pos <= spec_record(data, pos, has_ids, has_hashes, has_tags, has_attributes)->Ok_0.1
            <= data.len(),
        (has_ids || has_hashes || has_tags || has_attributes) ==> spec_record(
            data,
            pos,
            has_ids,
            has_hashes,
            has_tags,
            has_attributes,
        )->Ok_0.1 > pos,
{
    let p1 = if has_ids {
        spec_le_u32(data, pos)->Ok_0.1
    } else {
        pos
    };
    let p2 = if has_hashes {
        p1 + 32
    } else {
        p1
    };
    let p3 = if has_tags {
        let q = spec_vli(data, p2)->Ok_0.1;
        let n = spec_vli(data, p2)->Ok_0.0;
        lemma_tag_list_bounds(data, q, n as nat);
        spec_tag_list(data, q, n as nat)->Ok_0.1
    } else {
        p2
    };
    if has_attributes {
        let q = spec_vli(data, p3)->Ok_0.1;
        let n = spec_vli(data, p3)->Ok_0.0;
        lemma_key_list_bounds(data, q, n as nat);
    }
}

/// Reads one record.
#[verifier::rlimit(100)]
fn read_record(
    data: &[u8],
    pos: usize,
    has_ids: bool,
    has_hashes: bool,
    has_tags: bool,
    has_attributes: bool,
) -> (r: Result<(SearchResultImage, usize), WireError>)
    requires
        pos <= data@.len(),
    ensures
        match r {
            Ok(p) => spec_record(data@, pos as int, has_ids, has_hashes, has_tags, has_attributes)
                == Ok::<(ImageRec, int), WireError>((p.0@, p.1 as int)),
            Err(e) => spec_record(data@, pos as int, has_ids, has_hashes, has_tags, has_attributes)
                == Err::<(ImageRec, int), WireError>(e),
        },
{
    let (id, p1) = if has_ids {
        match read_le_u32(data, pos) {
            Ok(x) => (Some(x.0), x.1),
            Err(e) => {
                return Err(e);
            },
        }
    } else {
        (None, pos)
    };
    let (hash, p2) = if has_hashes {
        if data.len() - p1 < 32 {
            return Err(WireError::UnexpectedEnd);
        }
        let h = slice_to_vec(&data[p1..p1 + 32]);
        (Some(h), p1 + 32)
    } else {
        (None, p1)
    };
    let (tags, p3) = if has_tags {
        let (n, q) = match read_vli(data, p2) {
            Ok(x) => x,
            Err(e) => {
                return Err(e);
            },
        };
        match read_tag_list(data, q, n) {
            Ok(x) => (Some(x.0), x.1),
            Err(e) => {
                return Err(e);
            },
        }
    } else {
        (None, p2)
    };
    proof {
        if has_tags {
            let q = spec_vli(data@, p2 as int)->Ok_0.1;
            let n = spec_vli(data@, p2 as int)->Ok_0.0;
            lemma_tag_list_bounds(data@, q, n as nat);
        }
    }
    let (attributes, p4) = if has_attributes {
        let (n, q) = match read_vli(data, p3) {
            Ok(x) => x,
            Err(e) => {
                return Err(e);
            },
        };
        match read_key_list(data, q, n) {
            Ok(x) => (Some(x.0), x.1),
            Err(e) => {
                return Err(e);
            },
        }
    } else {
        (None, p3)
    };
    Ok((SearchResultImage { id, hash, tags, attributes }, p4))
}

/// The models of a parsed record list.
pub open spec fn recs_view(s: Seq<SearchResultImage>) -> Seq<ImageRec> {
    s.map_values(|r: SearchResultImage| r@)
}

/// Parsing records until the buffer is consumed exactly. A record that
/// consumes no bytes can never exhaust the buffer, so it is rejected.
pub open spec fn spec_stream(
    data: Seq<u8>,
    pos: int,
    has_ids: bool,
    has_hashes: bool,
    has_tags: bool,
    has_attributes: bool,
) -> Result<Seq<ImageRec>, WireError>
    decreases data.len() - pos,
{
    if pos >= data.len() {
        Ok(Seq::empty())
    } else {
        match spec_record(data, pos, has_ids, has_hashes, has_tags, has_attributes) {
            Err(e) => Err(e),
            Ok((rec, p2)) => {
                if p2 <= pos || p2 > data.len() {
                    Err(WireError::NoFields)
                } else {
                    match spec_stream(data, p2, has_ids, has_hashes, has_tags, has_attributes) {
                        Err(e) => Err(e),
                        Ok(rest) => Ok(seq![rec] + rest),
                    }
                }
            },
        }
    }
}

/// Prepends already-parsed records to the rest of a stream parse.
pub open spec fn with_rec_prefix(acc: Seq<ImageRec>, r: Result<Seq<ImageRec>, WireError>) -> Result<
    Seq<ImageRec>,
    WireError,
> {
    match r {
        Ok(rest) => Ok(acc + rest),
        Err(e) => Err(e),
    }
}

/// Parses a whole buffer of search-result image records, each holding the
/// fields whose presence flags are set, until the buffer is consumed.
#[verifier::rlimit(100)]
pub fn parse_search_response_images(
    has_ids: bool,
    has_hashes: bool,
    has_tags: bool,
    has_attributes: bool,
    data: &[u8],
) -> (r: Result<Vec<SearchResultImage>, WireError>)
    ensures
        match r {
            Ok(v) => spec_stream(data@, 0, has_ids, has_hashes, has_tags, has_attributes) == Ok::<
                Seq<ImageRec>,
                WireError,
            >(recs_view(v@)),
            Err(e) => spec_stream(data@, 0, has_ids, has_hashes, has_tags, has_attributes) == Err::<
                Seq<ImageRec>,
                WireError,
            >(e),
        },
{
    let mut images: Vec<SearchResultImage> = Vec::new();
    let mut pos: usize = 0;
    proof {
        assert(recs_view(images@) =~= Seq::<ImageRec>::empty());
    }
    while pos < data.len()
        invariant
            pos <= data@.len(),
            spec_stream(data@, 0, has_ids, has_hashes, has_tags, has_attributes) == with_rec_prefix(
                recs_view(images@),
                spec_stream(data@, pos as int, has_ids, has_hashes, has_tags, has_attributes),
            ),
        decreases data@.len() - pos,
    {
        let (img, p2) = match read_record(data, pos, has_ids, has_hashes, has_tags, has_attributes)
            {
            Ok(x) => x,
            Err(e) => {
                return Err(e);
            },
        };
        proof {
            lemma_record_bounds(data@, pos as int, has_ids, has_hashes, has_tags, has_attributes);
        }
        if p2 <= pos {
            return Err(WireError::NoFields);
        }
        let ghost images_before = images@;
        images.push(img);
        proof {
            assert(recs_view(images@) =~= recs_view(images_before).push(images@.last()@));
            match spec_stream(data@, p2 as int, has_ids, has_hashes, has_tags, has_attributes) {
                Ok(rest) => {
                    assert(recs_view(images_before) + (seq![images@.last()@] + rest) =~= recs_view(
                        images@,
                    ) + rest);
                },
                Err(_) => {},
            }
        }
        pos = p2;
    }
    proof {
        assert(recs_view(images@) + Seq::<ImageRec>::empty() =~= recs_view(images@));
    }
    Ok(images)
}

} // verus!
