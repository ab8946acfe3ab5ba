//! How a record is written to and read from the store: a JSON array of its
//! five fields, through serde_json.
use vstd::prelude::*;
use crate::types::{EmbeddingData, RecordView};

verus! {

#[verifier::external_type_specification]
#[verifier::external_body]
pub struct ExJsonError(serde_json::Error);

/// What serde_json's `from_str` reads from `s` as a record, if anything.
pub uninterp spec fn parse_record(s: Seq<char>) -> Option<RecordView>;

/// The character of decimal digit `d`.
pub open spec fn digit_char(d: nat) -> char {
    if d == 0 {
        '0'
    } else if d == 1 {
        '1'
    } else if d == 2 {
        '2'
    } else if d == 3 {
        '3'
    } else if d == 4 {
        '4'
    } else if d == 5 {
        '5'
    } else if d == 6 {
        '6'
    } else if d == 7 {
        '7'
    } else if d == 8 {
        '8'
    } else {
        '9'
    }
}

/// The decimal digits of `n`, most significant first, with no leading zero.
pub open spec fn decimal_digits(n: nat) -> Seq<char>
    decreases n,
{
    if n < 10 {
        seq![digit_char(n)]
    } else {
        decimal_digits(n / 10).push(digit_char(n % 10))
    }
}

/// The decimal text of `n`, as `usize::to_string` writes it.
pub open spec fn decimal(n: usize) -> Seq<char> {
    decimal_digits(n as nat)
}

proof fn lemma_decimal_len(n: nat)
    ensures
        decimal_digits(n).len() >= 1,
        n >= 10 ==> decimal_digits(n).len() >= 2,
    decreases n,
{
    if n >= 10 {
        lemma_decimal_len(n / 10);
    }
}

/// Distinct numbers have distinct decimal texts.
pub proof fn lemma_decimal_injective(a: nat, b: nat)
    requires
        a != b,
    ensures
        decimal_digits(a) != decimal_digits(b),
    decreases a,
{
    lemma_decimal_len(a);
    lemma_decimal_len(b);
    if decimal_digits(a) == decimal_digits(b) {
        if a >= 10 && b >= 10 {
            let da = decimal_digits(a);
            assert(da.last() == digit_char(a % 10));
            assert(decimal_digits(b).last() == digit_char(b % 10));
            assert(a % 10 == b % 10);
            assert(decimal_digits(a / 10) == da.drop_last());
            assert(decimal_digits(b / 10) == decimal_digits(b).drop_last());
            if a / 10 != b / 10 {
                lemma_decimal_injective(a / 10, b / 10);
            }
            assert(a == 10 * (a / 10) + a % 10);
            assert(b == 10 * (b / 10) + b % 10);
        } else if a < 10 && b < 10 {
            assert(decimal_digits(a)[0] == digit_char(a));
            assert(decimal_digits(b)[0] == digit_char(b));
        }
    }
}

/// Relies on serde_json::to_string over the tuple of the five fields. It
/// fails only for a failing `Serialize` impl or a map with non-string keys,
/// neither of which this tuple has; what it writes, `from_str` reads back
/// as the same tuple.
#[verifier::external_body]
pub(crate) fn encode_record(d: &EmbeddingData) -> (r: Result<String, serde_json::Error>)
    ensures
        r is Ok,
        r matches Ok(t) ==> parse_record(t@) == Some(d@),
{
    serde_json::to_string(&(d.id, &d.query, &d.embedding, &d.response, d.timestamp))
}

/// Relies on serde_json::from_str into the tuple of the five fields.
#[verifier::external_body]
pub(crate) fn decode_record(s: &str) -> (r: Result<EmbeddingData, serde_json::Error>)
    ensures
        r is Ok <==> parse_record(s@) is Some,
        r matches Ok(d) ==> parse_record(s@) == Some(d@),
{
    serde_json::from_str::<(usize, String, Vec<i16>, String, u64)>(s).map(
        |(id, query, embedding, response, timestamp)| EmbeddingData { id, query, embedding, response, timestamp },
    )
}

/// Relies on `usize::to_string`: the decimal digits of `id`, the store field
/// under which record `id` stands.
#[verifier::external_body]
pub(crate) fn id_field(id: usize) -> (r: String)
    ensures
        r@ == decimal(id),
{
    id.to_string()
}

} // verus!
