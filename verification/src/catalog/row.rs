//! Rows as bytes: each field is its length, eight bytes, little-endian, and its bytes.

use vstd::prelude::*;
use vstd::utf8::{decode_utf8, encode_utf8, encode_utf8_decode_utf8, encode_utf8_valid_utf8,
    valid_utf8};
use crate::bytes::{append_bytes, get_le, le_at, le_bytes, le_value, le_vec, lemma_le_bytes_len,
    lemma_le_value_of_bytes, lemma_pow256, pow256};
use crate::error::{corruption, DbResult, Error, ErrorModel};
use vstd::string::StringExecFns;

verus! {

/// The bytes of the length of a field.
pub const LENGTH_PREFIX_SIZE: usize = 8;

/// The least bytes that a column takes: a length, and one byte.
pub const MIN_COLUMN_BYTES: usize = LENGTH_PREFIX_SIZE + 1;

/// The name of the message with which `String::from_utf8` refuses some bytes.
pub uninterp spec fn utf8_error_text(bytes: Seq<u8>) -> Seq<char>;

/// Calls `String::from_utf8`: the text whose UTF-8 encoding the bytes are, or the message of the
/// error where they are no UTF-8.
#[verifier::external_body]
fn utf8_decode(bytes: &[u8]) -> (r: Result<String, String>)
    ensures
        match r {
            Ok(s) => valid_utf8(bytes@) && s@ == decode_utf8(bytes@),
            Err(m) => !valid_utf8(bytes@) && m@ == utf8_error_text(bytes@),
        },
{
    String::from_utf8(bytes.to_vec()).map_err(|e| e.to_string())
}

/// A field and the position after it, or the error and the position where it was found.
pub open spec fn field_at(data: Seq<u8>, pos: int) -> (Result<Seq<u8>, ErrorModel>, int) {
    if pos + 8 > data.len() {
        (Err(ErrorModel::Corruption("unexpected end of row"@)), pos)
    } else {
        let n = le_at(data, pos, 8);
        if pos + 8 + n > data.len() {
            (Err(ErrorModel::Corruption("field exceeds row boundary"@)), pos + 8)
        } else {
            (Ok(data.subrange(pos + 8, pos + 8 + n)), pos + 8 + n)
        }
    }
}

/// The signed number that `b` holds in two's complement.
pub open spec fn signed_value(b: Seq<u8>) -> int {
    let v = le_value(b) as int;
    if 2 * v >= pow256(b.len()) {
        v - pow256(b.len())
    } else {
        v
    }
}

/// `n` bytes with `v` in two's complement.
pub open spec fn signed_bytes(v: int, n: nat) -> Seq<u8> {
    le_bytes(
        if v < 0 {
            (v + pow256(n)) as nat
        } else {
            v as nat
        },
        n,
    )
}

/// What a field of two bytes means.
pub open spec fn i16_field(b: Seq<u8>) -> Result<i16, ErrorModel> {
    if b.len() == 2 {
        Ok(signed_value(b) as i16)
    } else {
        Err(ErrorModel::Corruption("invalid SMALLINT"@))
    }
}

/// What a field of four bytes means.
pub open spec fn i32_field(b: Seq<u8>) -> Result<i32, ErrorModel> {
    if b.len() == 4 {
        Ok(signed_value(b) as i32)
    } else {
        Err(ErrorModel::Corruption("invalid INTEGER"@))
    }
}

/// What a field of text means.
pub open spec fn string_field(b: Seq<u8>) -> Result<Seq<char>, ErrorModel> {
    if valid_utf8(b) {
        Ok(decode_utf8(b))
    } else {
        Err(ErrorModel::Corruption("invalid UTF-8: "@ + utf8_error_text(b)))
    }
}

/// What a field with a flag means.
pub open spec fn bool_field(b: Seq<u8>) -> Result<bool, ErrorModel> {
    if b.len() == 1 && b[0] == 0x59u8 {
        Ok(true)
    } else if b.len() == 1 && b[0] == 0x4eu8 {
        Ok(false)
    } else {
        Err(ErrorModel::Corruption("expected Y/N flag"@))
    }
}

/// Reads the fields of a row one after the other.
pub struct RowReader<'a> {
    data: &'a [u8],
    pos: usize,
}

impl<'a> RowReader<'a> {
    /// The bytes of the row.
    pub closed spec fn bytes(&self) -> Seq<u8> {
        self.data@
    }

    /// Where the next field starts.
    pub closed spec fn at(&self) -> int {
        self.pos as int
    }

    /// The reader is within its row.
    pub closed spec fn wf(&self) -> bool {
        self.pos <= self.data@.len()
    }

    /// Starts at the first field.
    pub fn new(data: &'a [u8]) -> (r: Self)
        ensures
            r.wf(),
            r.bytes() == data@,
            r.at() == 0,
    {
        Self { data, pos: 0 }
    }

    /// Reads the bytes of a field.
    pub fn read_field(&mut self) -> (r: DbResult<&'a [u8]>)
        requires
            old(self).wf(),
        ensures
            final(self).wf(),
            final(self).bytes() == old(self).bytes(),
            final(self).at() == field_at(old(self).bytes(), old(self).at()).1,
            match r {
                Ok(b) => field_at(old(self).bytes(), old(self).at()).0 == Ok::<
                    Seq<u8>,
                    ErrorModel,
                >(b@),
                Err(e) => field_at(old(self).bytes(), old(self).at()).0 == Err::<
                    Seq<u8>,
                    ErrorModel,
                >(e@),
            },
    {
        let total: usize = self.data.len();
        if total - self.pos < 8 {
            return Err(corruption("unexpected end of row"));
        }
        let len: u64 = get_le(self.data, self.pos, 8);
        self.pos = self.pos + 8;
        if len > (total - self.pos) as u64 {
            return Err(corruption("field exceeds row boundary"));
        }
        let lo: usize = self.pos;
        let hi: usize = lo + len as usize;
        self.pos = hi;
        let all: &'a [u8] = self.data;
        Ok(&all[lo..hi])
    }

    /// Reads a number of two bytes.
    pub fn read_i16(&mut self) -> (r: DbResult<i16>)
        requires
            old(self).wf(),
        ensures
            final(self).wf(),
            final(self).bytes() == old(self).bytes(),
            final(self).at() == field_at(old(self).bytes(), old(self).at()).1,
            ({
                let want = match field_at(old(self).bytes(), old(self).at()).0 {
                    Ok(b) => i16_field(b),
                    Err(e) => Err(e),
                };
                match r {
                    Ok(v) => want == Ok::<i16, ErrorModel>(v),
                    Err(e) => want == Err::<i16, ErrorModel>(e@),
                }
            }),
    {
        let b: &[u8] = match self.read_field() {
            Ok(b) => b,
            Err(e) => {
                return Err(e);
            }
        };
        if b.len() != 2 {
            return Err(corruption("invalid SMALLINT"));
        }
        proof {
            lemma_pow256();
            assert(b@.subrange(0, 2) =~= b@);
        }
        let v: i32 = get_le(b, 0, 2) as i32;
        Ok(if v >= 0x8000 { (v - 0x1_0000) as i16 } else { v as i16 })
    }

    /// Reads a number of four bytes.
    pub fn read_i32(&mut self) -> (r: DbResult<i32>)
        requires
            old(self).wf(),
        ensures
            final(self).wf(),
            final(self).bytes() == old(self).bytes(),
            final(self).at() == field_at(old(self).bytes(), old(self).at()).1,
            ({
                let want = match field_at(old(self).bytes(), old(self).at()).0 {
                    Ok(b) => i32_field(b),
                    Err(e) => Err(e),
                };
                match r {
                    Ok(v) => want == Ok::<i32, ErrorModel>(v),
                    Err(e) => want == Err::<i32, ErrorModel>(e@),
                }
            }),
    {
        let b: &[u8] = match self.read_field() {
            Ok(b) => b,
            Err(e) => {
                return Err(e);
            }
        };
        if b.len() != 4 {
            return Err(corruption("invalid INTEGER"));
        }
        proof {
            lemma_pow256();
            assert(b@.subrange(0, 4) =~= b@);
        }
        let v: i64 = get_le(b, 0, 4) as i64;
        Ok(if v >= 0x8000_0000 { (v - 0x1_0000_0000) as i32 } else { v as i32 })
    }

    /// Reads a text.
    pub fn read_string(&mut self) -> (r: DbResult<String>)
        requires
            old(self).wf(),
        ensures
            final(self).wf(),
            final(self).bytes() == old(self).bytes(),
            final(self).at() == field_at(old(self).bytes(), old(self).at()).1,
            ({
                let want = match field_at(old(self).bytes(), old(self).at()).0 {
                    Ok(b) => string_field(b),
                    Err(e) => Err(e),
                };
                match r {
                    Ok(s) => want == Ok::<Seq<char>, ErrorModel>(s@),
                    Err(e) => want == Err::<Seq<char>, ErrorModel>(e@),
                }
            }),
    {
        let b: &[u8] = match self.read_field() {
            Ok(b) => b,
            Err(e) => {
                return Err(e);
            }
        };
        match utf8_decode(b) {
            Ok(s) => Ok(s),
            Err(m) => Err(Error::Corruption("invalid UTF-8: ".to_owned().concat(m.as_str()))),
        }
    }

    /// Reads a flag.
    pub fn read_bool(&mut self) -> (r: DbResult<bool>)
        requires
            old(self).wf(),
        ensures
            final(self).wf(),
            final(self).bytes() == old(self).bytes(),
            final(self).at() == field_at(old(self).bytes(), old(self).at()).1,
            ({
                let want = match field_at(old(self).bytes(), old(self).at()).0 {
                    Ok(b) => bool_field(b),
                    Err(e) => Err(e),
                };
                match r {
                    Ok(v) => want == Ok::<bool, ErrorModel>(v),
                    Err(e) => want == Err::<bool, ErrorModel>(e@),
                }
            }),
    {
        let b: &[u8] = match self.read_field() {
            Ok(b) => b,
            Err(e) => {
                return Err(e);
            }
        };
        if b.len() == 1 && b[0] == 0x59u8 {
            Ok(true)
        } else if b.len() == 1 && b[0] == 0x4eu8 {
            Ok(false)
        } else {
            Err(corruption("expected Y/N flag"))
        }
    }
}

/// A field as bytes.
pub open spec fn field_bytes(b: Seq<u8>) -> Seq<u8> {
    le_bytes(b.len(), 8) + b
}

/// The byte of a flag.
pub open spec fn flag_bytes(v: bool) -> Seq<u8> {
    if v {
        seq![0x59u8]
    } else {
        seq![0x4eu8]
    }
}

/// Writes the fields of a row one after the other.
pub struct RowWriter {
    buf: Vec<u8>,
}

impl View for RowWriter {
    type V = Seq<u8>;

    closed spec fn view(&self) -> Seq<u8> {
        self.buf@
    }
}

impl RowWriter {
    /// A row without fields.
    pub fn new() -> (r: Self)
        ensures
            r@ == Seq::<u8>::empty(),
    {
        Self { buf: Vec::new() }
    }

    /// Adds a field.
    pub fn write_field(&mut self, data: &[u8])
        ensures
            final(self)@ == old(self)@ + field_bytes(data@),
    {
        let n: usize = data.len();
        append_bytes(&mut self.buf, le_vec(n as u64, 8).as_slice());
        append_bytes(&mut self.buf, data);
        assert(self.buf@ =~= old(self).buf@ + field_bytes(data@));
    }

    /// Adds a number of two bytes.
    pub fn write_i16(&mut self, val: i16)
        ensures
            final(self)@ == old(self)@ + field_bytes(signed_bytes(val as int, 2)),
    {
        proof {
            lemma_pow256();
        }
        let v: u64 = if val < 0 { (val as i64 + 0x1_0000) as u64 } else { val as u64 };
        self.write_field(le_vec(v, 2).as_slice());
    }

    /// Adds a number of four bytes.
    pub fn write_i32(&mut self, val: i32)
        ensures
            final(self)@ == old(self)@ + field_bytes(signed_bytes(val as int, 4)),
    {
        proof {
            lemma_pow256();
        }
        let v: u64 = if val < 0 { (val as i64 + 0x1_0000_0000) as u64 } else { val as u64 };
        self.write_field(le_vec(v, 4).as_slice());
    }

    /// Adds a text.
    pub fn write_string(&mut self, val: &str)
        ensures
            final(self)@ == old(self)@ + field_bytes(encode_utf8(val@)),
    {
        self.write_field(val.as_bytes());
    }

    /// Adds a flag.
    pub fn write_bool(&mut self, val: bool)
        ensures
            final(self)@ == old(self)@ + field_bytes(flag_bytes(val)),
    {
        let mut flag: Vec<u8> = Vec::new();
        flag.push(if val { 0x59u8 } else { 0x4eu8 });
        assert(flag@ =~= flag_bytes(val));
        self.write_field(flag.as_slice());
    }

    /// The bytes of the row.
    pub fn finish(self) -> (r: Vec<u8>)
        ensures
            r@ == self@,
    {
        self.buf
    }
}

// ── Laws of rows ──

/// A field that was written is read back, whatever comes before and after it.
pub proof fn law_field_round_trip(front: Seq<u8>, b: Seq<u8>, rest: Seq<u8>)
    requires
        b.len() < 0x1_0000_0000_0000_0000,
    ensures
        field_at(front + field_bytes(b) + rest, front.len() as int) == (
            Ok::<Seq<u8>, ErrorModel>(b),
            (front.len() + 8 + b.len()) as int,
        ),
        field_bytes(b).len() == 8 + b.len(),
{
    lemma_pow256();
    lemma_le_bytes_len(b.len(), 8);
    lemma_le_value_of_bytes(b.len(), 8);
    let data = front + field_bytes(b) + rest;
    let pos = front.len() as int;
    assert(data.subrange(pos, pos + 8) =~= le_bytes(b.len(), 8));
    assert(data.subrange(pos + 8, pos + 8 + b.len()) =~= b);
}

/// A number that was written in two's complement is read back.
pub proof fn law_signed_round_trip(v: int, n: nat)
    requires
        -(pow256(n) as int) <= 2 * v < pow256(n),
    ensures
        signed_bytes(v, n).len() == n,
        signed_value(signed_bytes(v, n)) == v,
{
    let u = if v < 0 {
        (v + pow256(n)) as nat
    } else {
        v as nat
    };
    lemma_le_bytes_len(u, n);
    lemma_le_value_of_bytes(u, n);
}

/// A number of two bytes, of four bytes, a text and a flag are read back from what was written for
/// them.
pub proof fn law_values_round_trip(a: i16, b: i32, s: Seq<char>, flag: bool)
    ensures
        i16_field(signed_bytes(a as int, 2)) == Ok::<i16, ErrorModel>(a),
        i32_field(signed_bytes(b as int, 4)) == Ok::<i32, ErrorModel>(b),
        string_field(encode_utf8(s)) == Ok::<Seq<char>, ErrorModel>(s),
        bool_field(flag_bytes(flag)) == Ok::<bool, ErrorModel>(flag),
{
    lemma_pow256();
    law_signed_round_trip(a as int, 2);
    law_signed_round_trip(b as int, 4);
    encode_utf8_valid_utf8(s);
    encode_utf8_decode_utf8(s);
}

} // verus!
