//! The catalog record that every chunk file carries in its footer: the
//! revision and the id of the transaction that added the chunk.
//!
//! The record is text, `{"transaction_revision_counter":<n>,"transaction_uuid":"<id>"}`,
//! stored under [`METADATA_KEY`] in the file's key/value metadata.
use vstd::prelude::*;

use crate::hex::{format_uuid, lemma_uuid_round_trip, parse_uuid, parse_uuid_spec, uuid_text};
use crate::path::{option_string_view, text_eq};
use crate::text::{all_digits, decimal, digits_value, is_digit, lemma_decimal, push_decimal};

verus! {

/// The key of the catalog record in a chunk file's key/value metadata.
pub const METADATA_KEY: &'static str = "IOX:metadata";

/// The catalog record of a chunk file.
#[derive(Debug, Clone, Copy, PartialEq, Eq, Structural)]
pub struct IoxMetadata {
    /// Revision of the transaction that added the chunk.
    pub transaction_revision_counter: u64,
    /// Id of the transaction that added the chunk.
    pub transaction_uuid: u128,
}

/// Why the catalog record of a chunk file could not be had.
#[derive(Debug, Clone, Copy, PartialEq, Eq, Structural)]
pub enum MetadataError {
    /// The footer of the file could not be read.
    FooterUnreadable,
    /// The footer holds no record under [`METADATA_KEY`].
    IoxMetadataMissing,
    /// The record is there but is not well formed.
    IoxMetadataBroken,
}

impl MetadataError {
    /// What [`MetadataError::message`] gives.
    pub open spec fn message_spec(&self) -> Seq<char> {
        match self {
            MetadataError::FooterUnreadable => "Cannot read parquet footer"@,
            MetadataError::IoxMetadataMissing =>
                "IOx metadata is missing in the parquet key/value metadata"@,
            MetadataError::IoxMetadataBroken =>
                "Cannot decode IOx metadata from the parquet key/value metadata"@,
        }
    }

    /// A description of the error.
    pub fn message(&self) -> (r: String)
        ensures
            r@ == self.message_spec(),
    {
        match self {
            MetadataError::FooterUnreadable => String::from_str("Cannot read parquet footer"),
            MetadataError::IoxMetadataMissing => String::from_str(
                "IOx metadata is missing in the parquet key/value metadata",
            ),
            MetadataError::IoxMetadataBroken => String::from_str(
                "Cannot decode IOx metadata from the parquet key/value metadata",
            ),
        }
    }
}

pub open spec fn head_text() -> Seq<char> {
    "{\"transaction_revision_counter\":"@
}

pub open spec fn middle_text() -> Seq<char> {
    ",\"transaction_uuid\":\""@
}

pub open spec fn tail_text() -> Seq<char> {
    "\"}"@
}

/// The text of a record.
pub open spec fn metadata_text(m: IoxMetadata) -> Seq<char> {
    head_text() + decimal(m.transaction_revision_counter as nat) + middle_text() + uuid_text(
        m.transaction_uuid,
    ) + tail_text()
}

/// Where the run of digits that starts at `i` ends.
pub open spec fn digit_run_end(s: Seq<char>, i: int) -> int
    decreases s.len() - i,
{
    if 0 <= i < s.len() && is_digit(s[i]) {
        digit_run_end(s, i + 1)
    } else {
        i
    }
}

/// What reading a record from text gives: the head, a decimal revision that
/// fits in 64 bits, the middle, a transaction id and the tail.
pub open spec fn decode_spec(s: Seq<char>) -> Option<IoxMetadata> {
    let a = head_text().len() as int;
    if s.len() >= a && s.subrange(0, a) == head_text() {
        let k = digit_run_end(s, a);
        let rest = s.subrange(k, s.len() as int);
        let b = middle_text().len() as int;
        let c = tail_text().len() as int;
        if k > a && digits_value(s.subrange(a, k)) <= u64::MAX && rest.len() >= b + c
            && rest.subrange(0, b) == middle_text() && rest.subrange(rest.len() - c, rest.len() as int)
            == tail_text() {
            match parse_uuid_spec(rest.subrange(b, rest.len() - c)) {
                Some(u) => Some(
                    IoxMetadata {
                        transaction_revision_counter: digits_value(s.subrange(a, k)) as u64,
                        transaction_uuid: u,
                    },
                ),
                None => None,
            }
        } else {
            None
        }
    } else {
        None
    }
}

/// A key/value pair of a file footer, as values.
pub open spec fn key_value_view(kv: (String, Option<String>)) -> (Seq<char>, Option<Seq<char>>) {
    (kv.0@, option_string_view(kv.1))
}

/// Footer key/value pairs, where there are any, as values.
pub open spec fn key_values_view(kvs: Option<Vec<(String, Option<String>)>>) -> Option<
    Seq<(Seq<char>, Option<Seq<char>>)>,
> {
    match kvs {
        Some(v) => Some(v@.map_values(|kv: (String, Option<String>)| key_value_view(kv))),
        None => None,
    }
}

/// The first index in `kvs` at or after `from` whose key is `key`.
pub open spec fn find_key(kvs: Seq<(Seq<char>, Option<Seq<char>>)>, key: Seq<char>, from: int) -> Option<
    int,
>
    decreases kvs.len() - from,
{
    if from < 0 || from >= kvs.len() {
        None
    } else if kvs[from].0 == key {
        Some(from)
    } else {
        find_key(kvs, key, from + 1)
    }
}

/// What the catalog record of a footer's key/value metadata is: the first
/// entry under [`METADATA_KEY`] must be there and hold a value, and the value
/// must read as a record.
pub open spec fn read_metadata_spec(kvs: Option<Seq<(Seq<char>, Option<Seq<char>>)>>) -> Result<
    IoxMetadata,
    MetadataError,
> {
    match kvs {
        None => Err(MetadataError::IoxMetadataMissing),
        Some(kvs) => match find_key(kvs, METADATA_KEY@, 0) {
            None => Err(MetadataError::IoxMetadataMissing),
            Some(i) => match kvs[i].1 {
                None => Err(MetadataError::IoxMetadataMissing),
                Some(text) => match decode_spec(text) {
                    Some(m) => Ok(m),
                    None => Err(MetadataError::IoxMetadataBroken),
                },
            },
        },
    }
}

pub(crate) proof fn lemma_digit_run_end(s: Seq<char>, i: int, e: int)
    requires
        0 <= i <= e <= s.len(),
        forall|j: int| i <= j < e ==> is_digit(#[trigger] s[j]),
        e == s.len() || !is_digit(s[e]),
    ensures
        digit_run_end(s, i) == e,
    decreases e - i,
{
    if i < e {
        lemma_digit_run_end(s, i + 1, e);
    }
}

/// Reading back the text of a record gives the record.
pub proof fn lemma_metadata_round_trip(m: IoxMetadata)
    ensures
        decode_spec(metadata_text(m)) == Some(m),
{
    let s = metadata_text(m);
    let d = decimal(m.transaction_revision_counter as nat);
    let u = uuid_text(m.transaction_uuid);
    reveal_strlit("{\"transaction_revision_counter\":");
    reveal_strlit(",\"transaction_uuid\":\"");
    reveal_strlit("\"}");
    lemma_decimal(m.transaction_revision_counter as nat);
    lemma_uuid_round_trip(m.transaction_uuid);
    let a = head_text().len() as int;
    let k = a + d.len();
    assert(s.subrange(0, a) =~= head_text());
    assert(s.subrange(a, k) =~= d);
    assert forall|j: int| a <= j < k implies is_digit(#[trigger] s[j]) by {
        assert(s[j] == d[j - a]);
    }
    assert(s[k] == ',');
    lemma_digit_run_end(s, a, k);
    let rest = s.subrange(k, s.len() as int);
    assert(rest =~= middle_text() + u + tail_text());
    assert(rest.subrange(0, middle_text().len() as int) =~= middle_text());
    assert(rest.subrange(rest.len() - 2, rest.len() as int) =~= tail_text());
    assert(rest.subrange(middle_text().len() as int, rest.len() - 2) =~= u);
}

/// A footer whose only entry is the text of `m` under [`METADATA_KEY`]
/// gives `m` back.
pub proof fn lemma_footer_round_trip(m: IoxMetadata)
    ensures
        read_metadata_spec(Some(seq![(METADATA_KEY@, Some(metadata_text(m)))])) == Ok::<IoxMetadata, MetadataError>(m),
{
    lemma_metadata_round_trip(m);
}

/// The text of a record.
pub fn encode_metadata(m: &IoxMetadata) -> (r: String)
    ensures
        r@ == metadata_text(*m),
{
    let mut out = String::from_str("{\"transaction_revision_counter\":");
    push_decimal(m.transaction_revision_counter, &mut out);
    out.append(",\"transaction_uuid\":\"");
    let id = format_uuid(m.transaction_uuid);
    out.append(id.as_str());
    out.append("\"}");
    out
}

pub(crate) fn digits_u64(s: &str, from: usize, to: usize) -> (r: Option<u64>)
    requires
        from <= to <= s@.len(),
        all_digits(s@.subrange(from as int, to as int)),
    ensures
        r is Some == (digits_value(s@.subrange(from as int, to as int)) <= u64::MAX),
        r matches Some(v) ==> v == digits_value(s@.subrange(from as int, to as int)),
{
    let mut value: u128 = 0;
    let mut i: usize = from;
    while i < to
        invariant
            from <= i <= to <= s@.len(),
            all_digits(s@.subrange(from as int, to as int)),
            value == digits_value(s@.subrange(from as int, i as int)),
            value <= u64::MAX,
        decreases to - i,
    {
        let c = s.get_char(i);
        let ghost prefix = s@.subrange(from as int, i as int + 1);
        assert(prefix.drop_last() =~= s@.subrange(from as int, i as int));
        assert(s@.subrange(from as int, to as int)[i - from] == c);
        let d: u128 = if c == '1' {
            1
        } else if c == '2' {
            2
        } else if c == '3' {
            3
        } else if c == '4' {
            4
        } else if c == '5' {
            5
        } else if c == '6' {
            6
        } else if c == '7' {
            7
        } else if c == '8' {
            8
        } else if c == '9' {
            9
        } else {
            0
        };
        let next = value * 10 + d;
        if next > 0xffff_ffff_ffff_ffff {
            proof {
                lemma_digits_prefix(s@.subrange(from as int, to as int), i - from + 1);
                assert(s@.subrange(from as int, to as int).subrange(0, i - from + 1) =~= prefix);
            }
            return None;
        }
        value = next;
        i = i + 1;
    }
    Some(value as u64)
}

pub(crate) proof fn lemma_digits_prefix(s: Seq<char>, k: int)
    requires
        0 <= k <= s.len(),
    ensures
        digits_value(s.subrange(0, k)) <= digits_value(s),
    decreases s.len(),
{
    if k < s.len() {
        lemma_digits_prefix(s.drop_last(), k);
        assert(s.drop_last().subrange(0, k) =~= s.subrange(0, k));
    } else {
        assert(s.subrange(0, k) =~= s);
    }
}

pub(crate) fn is_digit_char(c: char) -> (r: bool)
    ensures
        r == is_digit(c),
{
    '0' <= c && c <= '9'
}

/// Reads a record from its text.
pub fn decode_metadata(s: &str) -> (r: Option<IoxMetadata>)
    ensures
        r == decode_spec(s@),
{
    let head = "{\"transaction_revision_counter\":";
    let middle = ",\"transaction_uuid\":\"";
    let tail = "\"}";
    let n = s.unicode_len();
    let a = head.unicode_len();
    if n < a || !text_eq(s.substring_char(0, a), head) {
        return None;
    }
    let mut k: usize = a;
    while k < n && is_digit_char(s.get_char(k))
        invariant
            a <= k <= n,
            n == s@.len(),
            digit_run_end(s@, a as int) == digit_run_end(s@, k as int),
            forall|j: int| a <= j < k ==> is_digit(#[trigger] s@[j]),
        decreases n - k,
    {
        k = k + 1;
    }
    assert(digit_run_end(s@, k as int) == k);
    if k == a {
        return None;
    }
    assert(all_digits(s@.subrange(a as int, k as int))) by {
        assert forall|j: int| 0 <= j < k - a implies is_digit(
            #[trigger] s@.subrange(a as int, k as int)[j],
        ) by {
            assert(s@.subrange(a as int, k as int)[j] == s@[a + j]);
        }
    }
    let revision = match digits_u64(s, a, k) {
        Some(v) => v,
        None => {
            return None;
        },
    };
    let rest = s.substring_char(k, n);
    let m = rest.unicode_len();
    let b = middle.unicode_len();
    let c = tail.unicode_len();
    if m < b || m - b < c || !text_eq(rest.substring_char(0, b), middle) || !text_eq(
        rest.substring_char(m - c, m),
        tail,
    ) {
        return None;
    }
    match parse_uuid(rest.substring_char(b, m - c)) {
        Some(u) => Some(IoxMetadata { transaction_revision_counter: revision, transaction_uuid: u }),
        None => None,
    }
}

/// Finds the catalog record in a footer's key/value metadata and reads it.
pub fn read_iox_metadata(kvs: &Option<Vec<(String, Option<String>)>>) -> (r: Result<
    IoxMetadata,
    MetadataError,
>)
    ensures
        r == read_metadata_spec(key_values_view(*kvs)),
{
    match kvs {
        Some(v) => read_from_entries(v),
        None => Err(MetadataError::IoxMetadataMissing),
    }
}

fn read_from_entries(v: &Vec<(String, Option<String>)>) -> (r: Result<IoxMetadata, MetadataError>)
    ensures
        r == read_metadata_spec(
            Some(v@.map_values(|kv: (String, Option<String>)| key_value_view(kv))),
        ),
{
    let ghost view = v@.map_values(|kv: (String, Option<String>)| key_value_view(kv));
    let mut i: usize = 0;
    while i < v.len()
        invariant
            i <= v@.len(),
            view == v@.map_values(|kv: (String, Option<String>)| key_value_view(kv)),
            find_key(view, METADATA_KEY@, 0) == find_key(view, METADATA_KEY@, i as int),
        decreases v@.len() - i,
    {
        let (key, value) = &v[i];
        if text_eq(key.as_str(), METADATA_KEY) {
            assert(view[i as int] == key_value_view(v@[i as int]));
            assert(find_key(view, METADATA_KEY@, i as int) == Some(i as int));
            assert(view[i as int].1 == option_string_view(*value));
            return match value {
                None => Err(MetadataError::IoxMetadataMissing),
                Some(text) => match decode_metadata(text.as_str()) {
                    Some(m) => Ok(m),
                    None => Err(MetadataError::IoxMetadataBroken),
                },
            };
        }
        i = i + 1;
    }
    Err(MetadataError::IoxMetadataMissing)
}

} // verus!
