//! The text of a transaction object.
//!
//! A record is a list of fields, each written as its length in decimal, a
//! colon and its characters: revision, id, previous id (empty for none), then
//! one field per added file. A file's field is itself a list of fields, one
//! per directory (`d` and the name) and one for the file name (`f` and the
//! name). The text is stored as four big-endian bytes per character.
use vstd::prelude::*;

use crate::hex::{format_uuid, lemma_hex_digits, parse_uuid, parse_uuid_spec, uuid_text};
use crate::metadata::{digit_run_end, digits_u64, is_digit_char, lemma_digit_run_end};
use crate::path::{ObjectPath, PathView};
use crate::text::{
    all_digits, decimal, decimal_string, digits_value, is_digit, lemma_decimal, push_char, push_decimal,
};

verus! {

/// One field: length, colon, characters.
pub open spec fn field_text(f: Seq<char>) -> Seq<char> {
    decimal(f.len()) + seq![':'] + f
}

/// Fields one after the other.
pub open spec fn fields_text(fs: Seq<Seq<char>>) -> Seq<char>
    decreases fs.len(),
{
    if fs.len() == 0 {
        Seq::empty()
    } else {
        field_text(fs[0]) + fields_text(fs.drop_first())
    }
}

/// The field that starts at `i`, and where the next one starts.
pub open spec fn parse_field_at(s: Seq<char>, i: int) -> Option<(Seq<char>, int)> {
    let k = digit_run_end(s, i);
    let n = digits_value(s.subrange(i, k));
    if 0 <= i && i < k && k < s.len() && s[k] == ':' && k + 1 + n <= s.len() {
        Some((s.subrange(k + 1, k + 1 + n), k + 1 + n))
    } else {
        None
    }
}

/// The fields from `i` to the end of `s`.
pub open spec fn parse_fields_from(s: Seq<char>, i: int) -> Option<Seq<Seq<char>>>
    decreases s.len() - i,
{
    if i < 0 || i > s.len() {
        None
    } else if i == s.len() {
        Some(Seq::empty())
    } else {
        match parse_field_at(s, i) {
            Some((f, j)) => if i < j <= s.len() {
                match parse_fields_from(s, j) {
                    Some(rest) => Some(seq![f] + rest),
                    None => None,
                }
            } else {
                None
            },
            None => None,
        }
    }
}

proof fn lemma_fields_text_push(fs: Seq<Seq<char>>, f: Seq<char>)
    ensures
        fields_text(fs.push(f)) == fields_text(fs) + field_text(f),
    decreases fs.len(),
{
    if fs.len() == 0 {
        assert(fs.push(f).drop_first() =~= Seq::<Seq<char>>::empty());
        assert(fields_text(Seq::<Seq<char>>::empty()) == Seq::<char>::empty());
        assert(fs.push(f)[0] == f);
        assert(fields_text(fs.push(f)) =~= field_text(f));
    } else {
        lemma_fields_text_push(fs.drop_first(), f);
        assert(fs.push(f).drop_first() =~= fs.drop_first().push(f));
        assert(fields_text(fs.push(f)) =~= fields_text(fs) + field_text(f));
    }
}

/// Reading fields back gives the fields, whatever comes before them.
pub proof fn lemma_parse_fields(p: Seq<char>, fs: Seq<Seq<char>>)
    ensures
        parse_fields_from(p + fields_text(fs), p.len() as int) == Some(fs),
    decreases fs.len(),
{
    let s = p + fields_text(fs);
    if fs.len() == 0 {
        assert(s =~= p);
    } else {
        let f = fs[0];
        let a = p.len() as int;
        let d = decimal(f.len());
        lemma_decimal(f.len());
        assert(s =~= p + d + seq![':'] + f + fields_text(fs.drop_first()));
        let k = a + d.len();
        assert forall|j: int| a <= j < k implies is_digit(#[trigger] s[j]) by {
            assert(s[j] == d[j - a]);
        }
        assert(s[k] == ':');
        lemma_digit_run_end(s, a, k);
        assert(s.subrange(a, k) =~= d);
        let e = k + 1 + f.len();
        assert(s.subrange(k + 1, e) =~= f);
        let p2 = p + field_text(f);
        assert(s =~= p2 + fields_text(fs.drop_first()));
        assert(p2.len() == e);
        lemma_parse_fields(p2, fs.drop_first());
        assert(seq![f] + fs.drop_first() =~= fs);
    }
}

/// Appends one field.
fn push_field(out: &mut String, f: &str)
    ensures
        final(out)@ == old(out)@ + field_text(f@),
{
    let n = f.unicode_len();
    push_decimal(n as u64, out);
    push_char(out, ':');
    out.append(f);
    assert(final(out)@ =~= old(out)@ + field_text(f@));
}

/// The fields of `s`, where `s` is fields one after the other.
fn parse_fields(s: &str) -> (r: Option<Vec<String>>)
    ensures
        r is Some == parse_fields_from(s@, 0) is Some,
        r matches Some(v) ==> v@.map_values(|x: String| x@) == parse_fields_from(s@, 0)->0,
{
    let n = s.unicode_len();
    let mut out: Vec<String> = Vec::new();
    let mut i: usize = 0;
    assert(out@.map_values(|x: String| x@) =~= Seq::<Seq<char>>::empty());
    while i < n
        invariant
            i <= n,
            n == s@.len(),
            parse_fields_from(s@, 0) == match parse_fields_from(s@, i as int) {
                Some(rest) => Some(out@.map_values(|x: String| x@) + rest),
                None => None::<Seq<Seq<char>>>,
            },
        decreases n - i,
    {
        let mut k: usize = i;
        while k < n && is_digit_char(s.get_char(k))
            invariant
                i <= k <= n,
                n == s@.len(),
                digit_run_end(s@, i as int) == digit_run_end(s@, k as int),
            decreases n - k,
        {
            k = k + 1;
        }
        assert(digit_run_end(s@, k as int) == k);
        if k == i || k == n || s.get_char(k) != ':' {
            return None;
        }
        assert(all_digits(s@.subrange(i as int, k as int))) by {
            assert forall|j: int| 0 <= j < k - i implies is_digit(
                #[trigger] s@.subrange(i as int, k as int)[j],
            ) by {
                lemma_run_digits(s@, i as int, k as int, i + j);
            }
        }
        let len = match digits_u64(s, i, k) {
            Some(v) => v,
            None => {
                return None;
            },
        };
        if len > (n - k - 1) as u64 {
            return None;
        }
        let e = k + 1 + len as usize;
        let f = s.substring_char(k + 1, e);
        let mut field = String::new();
        field.append(f);
        let ghost before = out@.map_values(|x: String| x@);
        out.push(field);
        assert(out@.map_values(|x: String| x@) =~= before.push(s@.subrange(k + 1, e as int)));
        assert(before.push(s@.subrange(k + 1, e as int)) =~= before + seq![
            s@.subrange(k + 1, e as int),
        ]);
        proof {
            match parse_fields_from(s@, e as int) {
                Some(rest) => {
                    assert(before + (seq![s@.subrange(k + 1, e as int)] + rest) =~= before.push(
                        s@.subrange(k + 1, e as int),
                    ) + rest);
                },
                None => {},
            }
        }
        i = e;
    }
    assert(out@.map_values(|x: String| x@) + Seq::<Seq<char>>::empty() =~= out@.map_values(
        |x: String| x@,
    ));
    Some(out)
}

proof fn lemma_run_digits(s: Seq<char>, i: int, k: int, j: int)
    requires
        0 <= i <= j < k,
        digit_run_end(s, i) == k,
    ensures
        is_digit(s[j]),
    decreases j - i,
{
    if i < j {
        assert(0 <= i < s.len() && is_digit(s[i])) by {
            if !(0 <= i < s.len() && is_digit(s[i])) {
                assert(digit_run_end(s, i) == i);
            }
        }
        lemma_run_digits(s, i + 1, k, j);
    } else {
        if !(0 <= i < s.len() && is_digit(s[i])) {
            assert(digit_run_end(s, i) == i);
        }
    }
}

pub open spec fn tagged(c: char, s: Seq<char>) -> Seq<char> {
    seq![c] + s
}

pub open spec fn is_tagged(s: Seq<char>, c: char) -> bool {
    s.len() > 0 && s[0] == c
}

pub open spec fn all_tagged(segs: Seq<Seq<char>>, c: char) -> bool {
    forall|i: int| 0 <= i < segs.len() ==> is_tagged(#[trigger] segs[i], c)
}

pub open spec fn untagged(segs: Seq<Seq<char>>) -> Seq<Seq<char>> {
    segs.map_values(|x: Seq<char>| x.drop_first())
}

/// The segments of a path: each directory tagged `d`, then the file name
/// tagged `f`.
pub open spec fn path_segments(p: PathView) -> Seq<Seq<char>> {
    p.dirs.map_values(|d: Seq<char>| tagged('d', d)) + match p.file_name {
        Some(f) => seq![tagged('f', f)],
        None => Seq::empty(),
    }
}

/// The path that tagged segments make.
pub open spec fn path_of_segments(segs: Seq<Seq<char>>) -> Option<PathView> {
    if segs.len() > 0 && is_tagged(segs.last(), 'f') && all_tagged(segs.drop_last(), 'd') {
        Some(PathView { dirs: untagged(segs.drop_last()), file_name: Some(segs.last().drop_first()) })
    } else if all_tagged(segs, 'd') {
        Some(PathView { dirs: untagged(segs), file_name: None })
    } else {
        None
    }
}

/// The text of a path.
pub open spec fn path_field(p: PathView) -> Seq<char> {
    fields_text(path_segments(p))
}

pub open spec fn decode_path_spec(t: Seq<char>) -> Option<PathView> {
    match parse_fields_from(t, 0) {
        Some(segs) => path_of_segments(segs),
        None => None,
    }
}

/// Reading the text of a path gives the path.
pub proof fn lemma_path_round_trip(p: PathView)
    ensures
        decode_path_spec(path_field(p)) == Some(p),
{
    lemma_parse_fields(Seq::empty(), path_segments(p));
    assert(Seq::<char>::empty() + path_field(p) =~= path_field(p));
    let segs = path_segments(p);
    let ds = p.dirs.map_values(|d: Seq<char>| tagged('d', d));
    assert forall|i: int| 0 <= i < ds.len() implies is_tagged(#[trigger] ds[i], 'd') by {
        assert(ds[i] == tagged('d', p.dirs[i]));
    }
    assert forall|i: int| 0 <= i < ds.len() implies #[trigger] untagged(ds)[i] == p.dirs[i] by {
        assert(tagged('d', p.dirs[i]).drop_first() =~= p.dirs[i]);
    }
    assert(untagged(ds) =~= p.dirs);
    match p.file_name {
        Some(f) => {
            assert(segs.drop_last() =~= ds);
            assert(segs.last() == tagged('f', f));
            assert(tagged('f', f).drop_first() =~= f);
        },
        None => {
            assert(segs =~= ds);
            if ds.len() > 0 {
                assert(is_tagged(segs.last(), 'd'));
            }
        },
    }
}

fn tagged_string(c: char, s: &str) -> (r: String)
    ensures
        r@ == tagged(c, s@),
{
    let mut out = String::new();
    push_char(&mut out, c);
    out.append(s);
    assert(out@ =~= tagged(c, s@));
    out
}

/// Appends the field of a path.
fn push_path(out: &mut String, p: &ObjectPath)
    ensures
        final(out)@ == old(out)@ + field_text(path_field(p@)),
{
    let mut inner = String::new();
    let ghost ds = p@.dirs.map_values(|d: Seq<char>| tagged('d', d));
    let mut i: usize = 0;
    assert(ds.subrange(0, 0) =~= Seq::<Seq<char>>::empty());
    while i < p.dirs.len()
        invariant
            i <= p.dirs@.len(),
            ds == p@.dirs.map_values(|d: Seq<char>| tagged('d', d)),
            inner@ == fields_text(ds.subrange(0, i as int)),
        decreases p.dirs@.len() - i,
    {
        let seg = tagged_string('d', p.dirs[i].as_str());
        proof {
            lemma_fields_text_push(ds.subrange(0, i as int), seg@);
            assert(ds.subrange(0, i as int).push(seg@) =~= ds.subrange(0, i as int + 1));
        }
        push_field(&mut inner, seg.as_str());
        i = i + 1;
    }
    assert(ds.subrange(0, i as int) =~= ds);
    match &p.file_name {
        Some(f) => {
            let seg = tagged_string('f', f.as_str());
            proof {
                lemma_fields_text_push(ds, seg@);
                assert(ds.push(seg@) =~= path_segments(p@));
            }
            push_field(&mut inner, seg.as_str());
        },
        None => {
            assert(ds =~= path_segments(p@));
        },
    }
    push_field(out, inner.as_str());
}

fn drop_tag(s: &String) -> (r: String)
    requires
        s@.len() > 0,
    ensures
        r@ == s@.drop_first(),
{
    let n = s.as_str().unicode_len();
    let mut out = String::new();
    out.append(s.as_str().substring_char(1, n));
    assert(out@ =~= s@.drop_first());
    out
}

fn has_tag(s: &String, c: char) -> (r: bool)
    ensures
        r == is_tagged(s@, c),
{
    s.as_str().unicode_len() > 0 && s.as_str().get_char(0) == c
}

/// Reads a path from its text.
fn decode_path(t: &str) -> (r: Option<ObjectPath>)
    ensures
        r is Some == decode_path_spec(t@) is Some,
        r matches Some(p) ==> p@ == decode_path_spec(t@)->0,
{
    let segs = match parse_fields(t) {
        Some(v) => v,
        None => {
            return None;
        },
    };
    let ghost sv = segs@.map_values(|x: String| x@);
    let n = segs.len();
    let has_file = n > 0 && has_tag(&segs[n - 1], 'f');
    let m = if has_file {
        n - 1
    } else {
        n
    };
    let mut dirs: Vec<String> = Vec::new();
    let mut i: usize = 0;
    while i < m
        invariant
            i <= m <= n,
            n == segs@.len(),
            sv == segs@.map_values(|x: String| x@),
            parse_fields_from(t@, 0) == Some(sv),
            has_file == (n > 0 && is_tagged(sv[n - 1], 'f')),
            m == (if has_file {
                n - 1
            } else {
                n as int
            }),
            forall|j: int| 0 <= j < i ==> is_tagged(#[trigger] sv[j], 'd'),
            dirs@.map_values(|d: String| d@) == untagged(sv.subrange(0, i as int)),
        decreases m - i,
    {
        if !has_tag(&segs[i], 'd') {
            proof {
                assert(!is_tagged(sv[i as int], 'd'));
                if has_file {
                    assert(sv.drop_last()[i as int] == sv[i as int]);
                    assert(!all_tagged(sv.drop_last(), 'd'));
                    assert(is_tagged(sv[n - 1], 'f'));
                }
                assert(!all_tagged(sv, 'd'));
            }
            return None;
        }
        let d = drop_tag(&segs[i]);
        let ghost before = dirs@.map_values(|d: String| d@);
        assert(segs@[i as int]@ == sv[i as int]);
        assert(untagged(sv.subrange(0, i as int + 1)) =~= untagged(sv.subrange(0, i as int)).push(
            sv[i as int].drop_first(),
        ));
        dirs.push(d);
        assert(dirs@.map_values(|d: String| d@) =~= untagged(sv.subrange(0, i as int + 1)));
        i = i + 1;
    }
    let file_name = if has_file {
        Some(drop_tag(&segs[n - 1]))
    } else {
        None
    };
    let p = ObjectPath::new(dirs, file_name);
    proof {
        if has_file {
            assert(sv.subrange(0, m as int) =~= sv.drop_last());
            assert forall|j: int| 0 <= j < sv.drop_last().len() implies is_tagged(
                #[trigger] sv.drop_last()[j],
                'd',
            ) by {
                assert(sv.drop_last()[j] == sv[j]);
            }
        } else {
            assert(sv.subrange(0, m as int) =~= sv);
        }
    }
    Some(p)
}

/// A transaction object: revision, id, previous id and the added files.
pub struct TransactionRecord {
    pub revision: u64,
    pub uuid: u128,
    pub previous_uuid: Option<u128>,
    pub added: Vec<ObjectPath>,
}

/// A record as values.
pub type RecordView = (u64, u128, Option<u128>, Seq<PathView>);

pub open spec fn record_view(r: TransactionRecord) -> RecordView {
    (r.revision, r.uuid, r.previous_uuid, r.added@.map_values(|p: ObjectPath| p@))
}

pub open spec fn prev_text(p: Option<u128>) -> Seq<char> {
    match p {
        Some(u) => uuid_text(u),
        None => Seq::empty(),
    }
}

/// The fields of a record.
pub open spec fn record_fields(r: RecordView) -> Seq<Seq<char>> {
    seq![decimal(r.0 as nat), uuid_text(r.1), prev_text(r.2)] + r.3.map_values(
        |p: PathView| path_field(p),
    )
}

/// The text of a record.
pub open spec fn record_text(r: RecordView) -> Seq<char> {
    fields_text(record_fields(r))
}

pub open spec fn parse_u64_spec(s: Seq<char>) -> Option<u64> {
    if s.len() > 0 && all_digits(s) && digits_value(s) <= u64::MAX {
        Some(digits_value(s) as u64)
    } else {
        None
    }
}

pub open spec fn parse_prev(s: Seq<char>) -> Option<Option<u128>> {
    if s.len() == 0 {
        Some(None)
    } else {
        match parse_uuid_spec(s) {
            Some(u) => Some(Some(u)),
            None => None,
        }
    }
}

/// The paths that fields read as.
pub open spec fn decoded_paths(fs: Seq<Seq<char>>) -> Seq<PathView> {
    fs.map_values(|f: Seq<char>| decode_path_spec(f)->0)
}

/// What reading a record from text gives.
pub open spec fn decode_record_spec(t: Seq<char>) -> Option<RecordView> {
    match parse_fields_from(t, 0) {
        Some(fs) => if fs.len() >= 3 && parse_u64_spec(fs[0]) is Some && parse_uuid_spec(fs[1]) is Some
            && parse_prev(fs[2]) is Some && (forall|i: int|
            3 <= i < fs.len() ==> decode_path_spec(#[trigger] fs[i]) is Some) {
            Some(
                (
                    parse_u64_spec(fs[0])->0,
                    parse_uuid_spec(fs[1])->0,
                    parse_prev(fs[2])->0,
                    decoded_paths(fs.subrange(3, fs.len() as int)),
                ),
            )
        } else {
            None
        },
        None => None,
    }
}

/// Reading the text of a record gives the record.
pub proof fn lemma_record_round_trip(r: RecordView)
    ensures
        decode_record_spec(record_text(r)) == Some(r),
{
    let fs = record_fields(r);
    lemma_parse_fields(Seq::empty(), fs);
    assert(Seq::<char>::empty() + record_text(r) =~= record_text(r));
    lemma_decimal(r.0 as nat);
    crate::hex::lemma_uuid_round_trip(r.1);
    if let Some(u) = r.2 {
        crate::hex::lemma_uuid_round_trip(u);
        lemma_hex_digits(u as nat, 32);
    }
    assert(fs[0] == decimal(r.0 as nat));
    assert(fs[1] == uuid_text(r.1));
    assert(fs[2] == prev_text(r.2));
    assert forall|i: int| 3 <= i < fs.len() implies decode_path_spec(#[trigger] fs[i]) is Some by {
        assert(fs[i] == path_field(r.3[i - 3]));
        lemma_path_round_trip(r.3[i - 3]);
    }
    assert forall|i: int| 0 <= i < r.3.len() implies #[trigger] decoded_paths(fs.subrange(3, fs.len() as int))[i] == r.3[i] by {
        assert(fs[i + 3] == path_field(r.3[i]));
        lemma_path_round_trip(r.3[i]);
    }
    assert(decoded_paths(fs.subrange(3, fs.len() as int))
        =~= r.3);
}

/// The text of a record.
pub fn encode_record(rec: &TransactionRecord) -> (r: String)
    ensures
        r@ == record_text(record_view(*rec)),
{
    let ghost rv = record_view(*rec);
    let ghost head = seq![decimal(rv.0 as nat), uuid_text(rv.1), prev_text(rv.2)];
    let ghost ps = rv.3.map_values(|p: PathView| path_field(p));
    let mut out = String::new();
    push_field(&mut out, decimal_string(rec.revision).as_str());
    push_field(&mut out, format_uuid(rec.uuid).as_str());
    let prev = match rec.previous_uuid {
        Some(u) => format_uuid(u),
        None => String::new(),
    };
    push_field(&mut out, prev.as_str());
    proof {
        let h0 = Seq::<Seq<char>>::empty();
        lemma_fields_text_push(h0, head[0]);
        lemma_fields_text_push(h0.push(head[0]), head[1]);
        lemma_fields_text_push(h0.push(head[0]).push(head[1]), head[2]);
        assert(h0.push(head[0]).push(head[1]).push(head[2]) =~= head);
        assert(fields_text(h0) == Seq::<char>::empty());
        assert(out@ =~= fields_text(head));
        assert(head + ps.subrange(0, 0) =~= head);
    }
    let mut i: usize = 0;
    while i < rec.added.len()
        invariant
            i <= rec.added@.len(),
            rv == record_view(*rec),
            ps == rv.3.map_values(|p: PathView| path_field(p)),
            out@ == fields_text(head + ps.subrange(0, i as int)),
        decreases rec.added@.len() - i,
    {
        proof {
            lemma_fields_text_push(head + ps.subrange(0, i as int), ps[i as int]);
            assert((head + ps.subrange(0, i as int)).push(ps[i as int]) =~= head + ps.subrange(
                0,
                i as int + 1,
            ));
            assert(ps[i as int] == path_field(rec.added@[i as int]@));
        }
        push_path(&mut out, &rec.added[i]);
        i = i + 1;
    }
    assert(head + ps.subrange(0, i as int) =~= record_fields(rv));
    out
}

pub(crate) fn parse_u64_text(s: &str) -> (r: Option<u64>)
    ensures
        r == parse_u64_spec(s@),
{
    let n = s.unicode_len();
    if n == 0 {
        return None;
    }
    let mut i: usize = 0;
    while i < n
        invariant
            i <= n,
            n == s@.len(),
            forall|j: int| 0 <= j < i ==> is_digit(#[trigger] s@[j]),
        decreases n - i,
    {
        if !is_digit_char(s.get_char(i)) {
            return None;
        }
        i = i + 1;
    }
    assert(s@.subrange(0, n as int) =~= s@);
    digits_u64(s, 0, n)
}

/// Reads a record from its text.
pub fn decode_record(t: &str) -> (r: Option<TransactionRecord>)
    ensures
        r is Some == decode_record_spec(t@) is Some,
        r matches Some(rec) ==> record_view(rec) == decode_record_spec(t@)->0,
{
    let fs = match parse_fields(t) {
        Some(v) => v,
        None => {
            return None;
        },
    };
    let ghost fv = fs@.map_values(|x: String| x@);
    let n = fs.len();
    if n < 3 {
        return None;
    }
    let revision = match parse_u64_text(fs[0].as_str()) {
        Some(v) => v,
        None => {
            return None;
        },
    };
    let uuid = match parse_uuid(fs[1].as_str()) {
        Some(u) => u,
        None => {
            return None;
        },
    };
    let previous_uuid = if fs[2].as_str().unicode_len() == 0 {
        None
    } else {
        match parse_uuid(fs[2].as_str()) {
            Some(u) => Some(u),
            None => {
                return None;
            },
        }
    };
    let mut added: Vec<ObjectPath> = Vec::new();
    let mut i: usize = 3;
    while i < n
        invariant
            3 <= i <= n,
            n == fs@.len(),
            fv == fs@.map_values(|x: String| x@),
            parse_fields_from(t@, 0) == Some(fv),
            parse_u64_spec(fv[0]) == Some(revision),
            parse_uuid_spec(fv[1]) == Some(uuid),
            parse_prev(fv[2]) == Some(previous_uuid),
            forall|j: int| 3 <= j < i ==> decode_path_spec(#[trigger] fv[j]) is Some,
            added@.map_values(|p: ObjectPath| p@) == decoded_paths(fv.subrange(3, i as int)),
        decreases n - i,
    {
        match decode_path(fs[i].as_str()) {
            Some(p) => {
                let ghost before = added@.map_values(|p: ObjectPath| p@);
                assert(fs@[i as int]@ == fv[i as int]);
                assert(decoded_paths(fv.subrange(3, i as int + 1)) =~= decoded_paths(
                    fv.subrange(3, i as int),
                ).push(decode_path_spec(fv[i as int])->0));
                added.push(p);
                assert(added@.map_values(|p: ObjectPath| p@) =~= decoded_paths(fv.subrange(3, i as int + 1)));
            },
            None => {
                assert(decode_path_spec(fv[i as int]) is None);
                return None;
            },
        }
        i = i + 1;
    }
    Some(TransactionRecord { revision, uuid, previous_uuid, added })
}

/// The scalar value of a character.
pub open spec fn scalar(c: char) -> u32 {
    c as u32
}

/// The four big-endian bytes of a character's scalar value.
pub open spec fn char_bytes(c: char) -> Seq<u8> {
    seq![
        ((c as u32) >> 24u32) as u8,
        ((c as u32) >> 16u32) as u8,
        ((c as u32) >> 8u32) as u8,
        (c as u32) as u8,
    ]
}

/// The bytes of a text: four per character.
pub open spec fn text_bytes(s: Seq<char>) -> Seq<u8>
    decreases s.len(),
{
    if s.len() == 0 {
        Seq::empty()
    } else {
        text_bytes(s.drop_last()) + char_bytes(s.last())
    }
}

/// The 32-bit big-endian word at `i`.
pub open spec fn word_at(b: Seq<u8>, i: int) -> u32 {
    ((b[i] as u32) << 24u32) | ((b[i + 1] as u32) << 16u32) | ((b[i + 2] as u32) << 8u32) | (b[i
        + 3] as u32)
}

/// The text that bytes hold: every four bytes the scalar value of a
/// character.
pub open spec fn bytes_text(b: Seq<u8>) -> Option<Seq<char>>
    decreases b.len(),
{
    if b.len() == 0 {
        Some(Seq::empty())
    } else if b.len() < 4 {
        None
    } else if exists|c: char| #[trigger] scalar(c) == word_at(b, b.len() - 4) {
        match bytes_text(b.subrange(0, b.len() - 4)) {
            Some(t) => Some(t.push(choose|c: char| #[trigger] scalar(c) == word_at(b, b.len() - 4))),
            None => None,
        }
    } else {
        None
    }
}

proof fn lemma_word(x: u32)
    ensures
        ((((x >> 24u32) as u8) as u32) << 24u32) | ((((x >> 16u32) as u8) as u32) << 16u32) | ((((x
            >> 8u32) as u8) as u32) << 8u32) | ((x as u8) as u32) == x,
{
    assert(((((x >> 24u32) as u8) as u32) << 24u32) | ((((x >> 16u32) as u8) as u32) << 16u32) | ((((x
        >> 8u32) as u8) as u32) << 8u32) | ((x as u8) as u32) == x) by (bit_vector);
}

/// Reading back the bytes of a text gives the text.
pub proof fn lemma_bytes_round_trip(s: Seq<char>)
    ensures
        text_bytes(s).len() == 4 * s.len(),
        bytes_text(text_bytes(s)) == Some(s),
    decreases s.len(),
{
    if s.len() > 0 {
        lemma_bytes_round_trip(s.drop_last());
        let b = text_bytes(s);
        let c = s.last();
        assert(b.subrange(0, b.len() - 4) =~= text_bytes(s.drop_last()));
        lemma_word(c as u32);
        assert(word_at(b, b.len() - 4) == c as u32);
        assert(scalar(c) == word_at(b, b.len() - 4));
        let c2 = choose|c2: char| #[trigger] scalar(c2) == word_at(b, b.len() - 4);
        assert(c2 as u32 == c as u32);
        vstd::utf8::char_u32_cast(c, c as u32);
        vstd::utf8::char_u32_cast(c2, c2 as u32);
        assert(c2 == c);
        assert(s.drop_last().push(c) =~= s);
    }
}

proof fn lemma_bytes_text_misaligned(b: Seq<u8>)
    requires
        b.len() % 4 != 0,
    ensures
        bytes_text(b) is None,
    decreases b.len(),
{
    if b.len() >= 4 {
        lemma_bytes_text_misaligned(b.subrange(0, b.len() - 4));
    }
}

proof fn lemma_bytes_text_prefix_fails(b: Seq<u8>, k: int)
    requires
        0 <= k <= b.len(),
        k % 4 == 0,
        b.len() % 4 == 0,
        bytes_text(b.subrange(0, k)) is None,
    ensures
        bytes_text(b) is None,
    decreases b.len(),
{
    if k < b.len() {
        let p = b.subrange(0, b.len() - 4);
        assert(p.subrange(0, k) =~= b.subrange(0, k));
        lemma_bytes_text_prefix_fails(p, k);
    } else {
        assert(b.subrange(0, k) =~= b);
    }
}

/// Relies on `char::from_u32`: the character whose scalar value is `x`, if
/// there is one.
#[verifier::external_body]
fn char_from_u32(x: u32) -> (r: Option<char>)
    ensures
        r matches Some(c) ==> c as u32 == x,
        r is None ==> forall|c: char| #[trigger] scalar(c) != x,
{
    char::from_u32(x)
}

/// The bytes of a text.
pub fn text_to_bytes(s: &str) -> (r: Vec<u8>)
    ensures
        r@ == text_bytes(s@),
{
    let n = s.unicode_len();
    let mut out: Vec<u8> = Vec::new();
    let mut i: usize = 0;
    assert(s@.subrange(0, 0) =~= Seq::<char>::empty());
    while i < n
        invariant
            i <= n,
            n == s@.len(),
            out@ == text_bytes(s@.subrange(0, i as int)),
        decreases n - i,
    {
        let c = s.get_char(i);
        let x = c as u32;
        out.push((x >> 24u32) as u8);
        out.push((x >> 16u32) as u8);
        out.push((x >> 8u32) as u8);
        out.push(x as u8);
        let ghost sub = s@.subrange(0, i as int + 1);
        assert(sub.drop_last() =~= s@.subrange(0, i as int));
        assert(sub.last() == c);
        assert(out@ =~= text_bytes(sub));
        i = i + 1;
    }
    assert(s@.subrange(0, n as int) =~= s@);
    out
}

/// The text that bytes hold, where every four bytes are the scalar value of
/// a character.
pub fn bytes_to_text(b: &Vec<u8>) -> (r: Option<String>)
    ensures
        r is Some == bytes_text(b@) is Some,
        r matches Some(t) ==> t@ == bytes_text(b@)->0,
{
    let n = b.len();
    if n % 4 != 0 {
        proof {
            lemma_bytes_text_misaligned(b@);
        }
        return None;
    }
    let mut out = String::new();
    let mut i: usize = 0;
    assert(b@.subrange(0, 0) =~= Seq::<u8>::empty());
    while i < n
        invariant
            i <= n,
            n == b@.len(),
            n % 4 == 0,
            i % 4 == 0,
            bytes_text(b@.subrange(0, i as int)) == Some(out@),
        decreases n - i,
    {
        let x: u32 = ((b[i] as u32) << 24u32) | ((b[i + 1] as u32) << 16u32) | ((b[i + 2] as u32)
            << 8u32) | (b[i + 3] as u32);
        let ghost sub = b@.subrange(0, i as int + 4);
        assert(sub.subrange(0, sub.len() - 4) =~= b@.subrange(0, i as int));
        assert(word_at(sub, sub.len() - 4) == x);
        match char_from_u32(x) {
            Some(c) => {
                assert(scalar(c) == word_at(sub, sub.len() - 4));
                let ghost c2 = choose|c2: char| #[trigger] scalar(c2) == word_at(sub, sub.len() - 4);
                assert(c2 as u32 == c as u32);
                proof {
                    vstd::utf8::char_u32_cast(c, c as u32);
                    vstd::utf8::char_u32_cast(c2, c2 as u32);
                }
                assert(c2 == c);
                push_char(&mut out, c);
            },
            None => {
                assert(bytes_text(sub) is None);
                proof {
                    lemma_bytes_text_prefix_fails(b@, i as int + 4);
                }
                return None;
            },
        }
        i = i + 4;
    }
    assert(b@.subrange(0, n as int) =~= b@);
    Some(out)
}

} // verus!
