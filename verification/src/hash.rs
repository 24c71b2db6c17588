//! The fingerprint of a table's column list: the first eight bytes of a
//! SHA-256 digest over a length-prefixed encoding of the column names,
//! written as sixteen lower-case hexadecimal digits.

use vstd::prelude::*;
use vstd::bytes::{
    lemma_auto_spec_u64_to_from_le_bytes, spec_u64_from_le_bytes, spec_u64_to_le_bytes,
    u64_to_le_bytes,
};
use vstd::slice::slice_to_vec;
use vstd::utf8::{encode_utf8, encode_utf8_decode_utf8};
use sha2::{Digest, Sha256};
use crate::text::push_char;

verus! {

broadcast use vstd::string::group_string_axioms;

/// The SHA-256 digest of a byte sequence.
pub uninterp spec fn sha256(data: Seq<u8>) -> Seq<u8>;

/// `sha2::Sha256::digest`, trusted to return the SHA-256 digest of `data`
/// (named `sha256`, the algorithm itself is not written out) as 32 bytes,
/// the output size `Sha256` is declared with. Hashing the bytes at once is
/// the same as feeding them to one hasher piece by piece.
#[verifier::external_body]
fn sha256_digest(data: &[u8]) -> (res: Vec<u8>)
    ensures
        res@ == sha256(data@),
        res@.len() == 32,
{
    Sha256::digest(data).to_vec()
}

/// The domain tag that starts every hashed column list.
pub open spec fn hash_tag() -> Seq<u8> {
    encode_utf8("dolog-columns-v1"@)
}

/// One column's record: its UTF-8 length as eight little-endian bytes,
/// then its UTF-8 bytes.
pub open spec fn column_record(column: Seq<char>) -> Seq<u8> {
    spec_u64_to_le_bytes(encode_utf8(column).len() as u64) + encode_utf8(column)
}

/// The records of a column list, one after another.
pub open spec fn column_records(columns: Seq<Seq<char>>) -> Seq<u8>
    decreases columns.len(),
{
    if columns.len() == 0 {
        Seq::empty()
    } else {
        column_records(columns.drop_last()) + column_record(columns.last())
    }
}

/// The bytes that are hashed for a column list.
pub open spec fn hash_input(columns: Seq<Seq<char>>) -> Seq<u8> {
    hash_tag() + column_records(columns)
}

pub open spec fn names_of(columns: Seq<String>) -> Seq<Seq<char>> {
    columns.map_values(|c: String| c@)
}

pub open spec fn hex_digit_char(d: u8) -> char {
    if d < 10 {
        (('0' as u32) + (d as u32)) as char
    } else {
        (('a' as u32) + (d as u32) - 10) as char
    }
}

/// Bytes as lower-case hexadecimal, two digits each (`{:02x}`).
pub open spec fn hex_text(bytes: Seq<u8>) -> Seq<char>
    decreases bytes.len(),
{
    if bytes.len() == 0 {
        Seq::empty()
    } else {
        hex_text(bytes.drop_last()) + seq![
            hex_digit_char(bytes.last() / 16),
            hex_digit_char(bytes.last() % 16),
        ]
    }
}

/// The fingerprint of a column list.
pub open spec fn column_hash_text(columns: Seq<Seq<char>>) -> Seq<char> {
    hex_text(sha256(hash_input(columns)).take(8))
}

/// The records of a column list, read from the front.
pub open spec fn records_from_front(columns: Seq<Seq<char>>) -> Seq<u8>
    decreases columns.len(),
{
    if columns.len() == 0 {
        Seq::empty()
    } else {
        column_record(columns[0]) + records_from_front(columns.skip(1))
    }
}

proof fn lemma_front_push(columns: Seq<Seq<char>>, c: Seq<char>)
    ensures
        records_from_front(columns.push(c)) == records_from_front(columns) + column_record(c),
    decreases columns.len(),
{
    if columns.len() == 0 {
        assert(columns.push(c).skip(1) =~= Seq::<Seq<char>>::empty());
        assert(columns.push(c)[0] == c);
        assert(records_from_front(columns.push(c).skip(1)) =~= Seq::<u8>::empty());
        assert(records_from_front(columns) =~= Seq::<u8>::empty());
        assert(records_from_front(columns.push(c)) =~= column_record(c) + Seq::<u8>::empty());
    } else {
        assert(columns.push(c).skip(1) =~= columns.skip(1).push(c));
        lemma_front_push(columns.skip(1), c);
        assert(records_from_front(columns.push(c)) =~= column_record(columns[0]) + (
        records_from_front(columns.skip(1)) + column_record(c)));
    }
}

proof fn lemma_records_front(columns: Seq<Seq<char>>)
    ensures
        column_records(columns) == records_from_front(columns),
    decreases columns.len(),
{
    if columns.len() > 0 {
        lemma_records_front(columns.drop_last());
        lemma_front_push(columns.drop_last(), columns.last());
        assert(columns.drop_last().push(columns.last()) =~= columns);
    }
}

/// Every column name's UTF-8 form is short enough for its length prefix.
pub open spec fn lengths_fit(columns: Seq<Seq<char>>) -> bool {
    forall|k: int| 0 <= k < columns.len() ==> encode_utf8(#[trigger] columns[k]).len() <= u64::MAX
}

proof fn lemma_front_injective(a: Seq<Seq<char>>, b: Seq<Seq<char>>)
    requires
        lengths_fit(a),
        lengths_fit(b),
        records_from_front(a) == records_from_front(b),
    ensures
        a == b,
    decreases a.len(),
{
    lemma_auto_spec_u64_to_from_le_bytes();
    if a.len() == 0 || b.len() == 0 {
        if a.len() > 0 {
            assert(records_from_front(a).len() >= 8);
        }
        if b.len() > 0 {
            assert(records_from_front(b).len() >= 8);
        }
        assert(a =~= b);
    } else {
        let ra = records_from_front(a);
        let ea = encode_utf8(a[0]);
        let eb = encode_utf8(b[0]);
        let la = spec_u64_to_le_bytes(ea.len() as u64);
        let lb = spec_u64_to_le_bytes(eb.len() as u64);
        assert(ra.take(8) =~= la);
        assert(ra.take(8) =~= lb);
        assert(spec_u64_from_le_bytes(la) == ea.len() as u64);
        assert(ea.len() == eb.len());
        let n = ea.len() as int;
        assert(ra.subrange(8, 8 + n) =~= ea);
        assert(ra.subrange(8, 8 + n) =~= eb);
        encode_utf8_decode_utf8(a[0]);
        encode_utf8_decode_utf8(b[0]);
        assert(a[0] == b[0]);
        assert(ra.skip(8 + n) =~= records_from_front(a.skip(1)));
        assert(ra.skip(8 + n) =~= records_from_front(b.skip(1)));
        assert forall|k: int| 0 <= k < a.skip(1).len() implies encode_utf8(
            #[trigger] a.skip(1)[k],
        ).len() <= u64::MAX by {
            assert(a.skip(1)[k] == a[k + 1]);
        }
        assert forall|k: int| 0 <= k < b.skip(1).len() implies encode_utf8(
            #[trigger] b.skip(1)[k],
        ).len() <= u64::MAX by {
            assert(b.skip(1)[k] == b[k + 1]);
        }
        lemma_front_injective(a.skip(1), b.skip(1));
        assert(a =~= seq![a[0]] + a.skip(1));
        assert(b =~= seq![b[0]] + b.skip(1));
    }
}

/// The hashed input is unambiguous: two column lists (of names whose UTF-8
/// length fits the 64-bit length prefix) that give the same bytes to the
/// digest are the same list, names and order alike.
pub proof fn law_hash_input_unambiguous(a: Seq<Seq<char>>, b: Seq<Seq<char>>)
    requires
        lengths_fit(a),
        lengths_fit(b),
        hash_input(a) == hash_input(b),
    ensures
        a == b,
{
    let t = hash_tag();
    assert(hash_input(a).skip(t.len() as int) =~= column_records(a));
    assert(hash_input(b).skip(t.len() as int) =~= column_records(b));
    lemma_records_front(a);
    lemma_records_front(b);
    lemma_front_injective(a, b);
}

proof fn lemma_hex_len(bytes: Seq<u8>)
    ensures
        hex_text(bytes).len() == 2 * bytes.len(),
    decreases bytes.len(),
{
    if bytes.len() > 0 {
        lemma_hex_len(bytes.drop_last());
    }
}

fn hex_digit(d: u8) -> (res: char)
    requires
        d < 16,
    ensures
        res == hex_digit_char(d),
{
    if d < 10 {
        let b: u8 = 48 + d;
        b as char
    } else {
        let b: u8 = 87 + d;
        b as char
    }
}

/// The bytes that are hashed for a column list (see `hash_input`).
pub fn column_hash_input(columns: &[String]) -> (res: Vec<u8>)
    ensures
        res@ == hash_input(names_of(columns@)),
{
    let mut data: Vec<u8> = slice_to_vec("dolog-columns-v1".as_bytes());
    let ghost names = names_of(columns@);
    let n = columns.len();
    for i in 0..n
        invariant
            n == columns@.len(),
            names == names_of(columns@),
            data@ == hash_tag() + column_records(names.take(i as int)),
    {
        let column: &str = columns[i].as_str();
        let utf8: &[u8] = column.as_bytes();
        let mut length = u64_to_le_bytes(utf8.len() as u64);
        data.append(&mut length);
        let mut bytes = slice_to_vec(utf8);
        data.append(&mut bytes);
        proof {
            let t = names.take(i + 1);
            assert(t.drop_last() =~= names.take(i as int));
            assert(t.last() == columns@[i as int]@);
            assert(data@ =~= hash_tag() + column_records(names.take(i as int)) + column_record(
                t.last(),
            ));
        }
    }
    assert(names.take(n as int) =~= names);
    data
}

/// The first eight bytes of a digest in lower-case hexadecimal: sixteen
/// digits.
pub fn digest_prefix_hex(digest: &[u8]) -> (res: String)
    requires
        digest@.len() >= 8,
    ensures
        res@ == hex_text(digest@.take(8)),
        res@.len() == 16,
{
    let mut res = String::new();
    for k in 0..8
        invariant
            digest@.len() >= 8,
            res@ == hex_text(digest@.take(k as int)),
    {
        let b = digest[k];
        push_char(&mut res, hex_digit(b / 16));
        push_char(&mut res, hex_digit(b % 16));
        assert(digest@.take(k + 1).drop_last() =~= digest@.take(k as int));
    }
    proof {
        lemma_hex_len(digest@.take(8));
    }
    res
}

/// The sixteen-digit fingerprint of a column list: the first eight bytes of
/// the SHA-256 digest of `hash_input`, in lower-case hexadecimal. Equal lists
/// give equal fingerprints; the order of the columns is part of the input.
pub fn column_hash(columns: &[String]) -> (res: String)
    ensures
        res@ == column_hash_text(names_of(columns@)),
        res@.len() == 16,
{
    let data = column_hash_input(columns);
    let digest = sha256_digest(&data);
    digest_prefix_hex(&digest)
}

} // verus!
