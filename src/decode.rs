//! Decoding a well-formed record into its device identifier and the text of
//! its eight integer fields.

use vstd::prelude::*;
use crate::schema::{
    fields_of, is_digit_byte, is_int_token, is_record, lemma_split_step, split_commas, FIELD_COUNT,
    ID_LEN,
};

verus! {

pub open spec fn ascii_chars(b: Seq<u8>) -> Seq<char> {
    b.map_values(|x: u8| x as char)
}

/// The device identifier of record `p`, as text.
pub open spec fn device_id_of(p: Seq<u8>) -> Seq<char> {
    ascii_chars(p.subrange(0, ID_LEN as int))
}

/// The `j`-th field of record `p`, as text: its token `-?[0-9]+`, the
/// decimal integer that the device sent.
pub open spec fn field_text(p: Seq<u8>, j: int) -> Seq<char> {
    ascii_chars(fields_of(p)[j])
}

/// A record taken apart: its identifier and the text of its eight fields in
/// wire order. Each field is an integer of any size, `-?[0-9]+`.
pub struct DecodedFields {
    pub device_id: String,
    pub values: Vec<String>,
}

/// Relies on `String::from_utf8`: bytes that are all ASCII are valid UTF-8,
/// and the string then holds one character per byte, of the same code.
#[verifier::external_body]
fn ascii_to_string(bytes: Vec<u8>) -> (r: Option<String>)
    ensures
        (forall|k: int| 0 <= k < bytes@.len() ==> #[trigger] bytes@[k] < 128) ==> (r is Some
            && r->0@ == ascii_chars(bytes@)),
{
    String::from_utf8(bytes).ok()
}

/// The text of ASCII bytes.
fn ascii_text(bytes: Vec<u8>) -> (r: String)
    requires
        forall|k: int| 0 <= k < bytes@.len() ==> #[trigger] bytes@[k] < 128,
    ensures
        r@ == ascii_chars(bytes@),
{
    match ascii_to_string(bytes) {
        Some(s) => s,
        None => String::new(),
    }
}

/// Every byte of a record's field part is a comma or lies in a field token,
/// so all of it is ASCII.
proof fn lemma_pieces_ascii(s: Seq<u8>)
    requires
        forall|j: int, k: int|
            0 <= j < split_commas(s).len() && 0 <= k < split_commas(s)[j].len() ==> #[trigger] split_commas(s)[j][k] < 128,
    ensures
        forall|i: int| 0 <= i < s.len() ==> #[trigger] s[i] < 128,
    decreases s.len(),
{
    if s.len() > 0 {
        let init = split_commas(s.drop_last());
        lemma_split_step(s, 0, s.len() - 1);
        assert(s.subrange(0, s.len() - 1) =~= s.drop_last());
        assert(s.subrange(0, s.len() as int) =~= s);
        let sp = split_commas(s);
        let last = init.len() - 1;
        assert forall|j: int, k: int| 0 <= j < init.len() && 0 <= k < init[j].len() implies #[trigger] init[j][k] < 128 by {
            if s.last() == 0x2c {
                assert(sp[j] == init[j]);
            } else if j == last {
                assert(sp[j][k] == init[j][k]);
            } else {
                assert(sp[j] == init[j]);
            }
        }
        lemma_pieces_ascii(s.drop_last());
        if s.last() != 0x2c {
            assert(sp[last][init[last].len() as int] == s.last());
        }
        assert forall|i: int| 0 <= i < s.len() implies #[trigger] s[i] < 128 by {
            if i < s.len() - 1 {
                assert(s[i] == s.drop_last()[i]);
            }
        }
    }
}

proof fn lemma_record_ascii(p: Seq<u8>)
    requires
        is_record(p),
    ensures
        forall|i: int| 0 <= i < p.len() ==> #[trigger] p[i] < 128,
{
    let lo = ID_LEN as int + 1;
    let f = p.subrange(lo, p.len() as int);
    assert forall|j: int, k: int| 0 <= j < split_commas(f).len() && 0 <= k < split_commas(f)[j].len() implies #[trigger] split_commas(f)[j][k] < 128 by {
        let t = split_commas(f)[j];
        assert(is_int_token(fields_of(p)[j]));
        if t[0] == 0x2d {
            if k > 0 {
                assert(is_digit_byte(t[k]));
            }
        } else {
            assert(is_digit_byte(t[k]));
        }
    }
    lemma_pieces_ascii(f);
    assert forall|i: int| 0 <= i < p.len() implies #[trigger] p[i] < 128 by {
        if i >= lo {
            assert(p[i] == f[i - lo]);
        }
    }
}

/// Decodes a well-formed record: the identifier is its first sixteen
/// characters and the fields are the comma-separated tokens that follow.
pub fn decode(payload: &[u8]) -> (d: DecodedFields)
    requires
        is_record(payload@),
    ensures
        d.device_id@ == device_id_of(payload@),
        d.values@.len() == FIELD_COUNT,
        forall|j: int| 0 <= j < FIELD_COUNT ==> d.values@[j]@ == #[trigger] field_text(payload@, j),
{
    let ghost p = payload@;
    let ghost lo = ID_LEN as int + 1;
    proof {
        lemma_record_ascii(p);
    }
    let n = payload.len();
    let mut id: Vec<u8> = Vec::new();
    let mut k: usize = 0;
    while k < ID_LEN
        invariant
            k <= ID_LEN < n == p.len(),
            p == payload@,
            forall|i: int| 0 <= i < p.len() ==> #[trigger] p[i] < 128,
            id@ =~= p.subrange(0, k as int),
        decreases ID_LEN - k,
    {
        id.push(payload[k]);
        k = k + 1;
    }
    let device_id = ascii_text(id);

    let mut values: Vec<String> = Vec::new();
    let mut cur: Vec<u8> = Vec::new();
    let mut i: usize = ID_LEN + 1;
    assert(p.subrange(lo, lo) =~= Seq::<u8>::empty());
    while i < n
        invariant
            lo == ID_LEN + 1,
            lo <= i <= n == p.len(),
            p == payload@,
            forall|m: int| 0 <= m < p.len() ==> #[trigger] p[m] < 128,
            split_commas(p.subrange(lo, i as int)).len() == values@.len() + 1,
            split_commas(p.subrange(lo, i as int)).last() == cur@,
            forall|m: int| 0 <= m < cur@.len() ==> #[trigger] cur@[m] < 128,
            forall|j: int|
                0 <= j < values@.len() ==> #[trigger] values@[j]@ == ascii_chars(
                    split_commas(p.subrange(lo, i as int))[j],
                ),
            values@.len() < i,
        decreases n - i,
    {
        let ghost sp = split_commas(p.subrange(lo, i as int));
        proof {
            lemma_split_step(p, lo, i as int);
        }
        let ghost nsp = split_commas(p.subrange(lo, i as int + 1));
        let b = payload[i];
        if b == 0x2c {
            proof {
                assert(forall|j: int| 0 <= j < values@.len() ==> nsp[j] == sp[j]);
                assert(nsp[values@.len() as int] == cur@);
                assert(nsp.last() =~= Seq::<u8>::empty());
            }
            let done = cur;
            cur = Vec::new();
            let text = ascii_text(done);
            values.push(text);
        } else {
            proof {
                assert(forall|j: int| 0 <= j < values@.len() ==> nsp[j] == sp[j]);
                assert(nsp.last() == cur@.push(b));
            }
            cur.push(b);
        }
        i = i + 1;
    }
    let ghost sp = split_commas(p.subrange(lo, n as int));
    assert(sp =~= fields_of(p));
    assert(values@.len() + 1 == FIELD_COUNT);
    let text = ascii_text(cur);
    values.push(text);
    DecodedFields { device_id, values }
}

} // verus!
