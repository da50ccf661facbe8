//! The hyphenated hexadecimal text of a 128-bit transaction id
//! (`xxxxxxxx-xxxx-xxxx-xxxx-xxxxxxxxxxxx`, lower case).
use vstd::arithmetic::div_mod::lemma_breakdown;
use vstd::prelude::*;

use crate::text::push_char;

verus! {

pub open spec fn hex_char(d: nat) -> char {
    seq!['0', '1', '2', '3', '4', '5', '6', '7', '8', '9', 'a', 'b', 'c', 'd', 'e', 'f'][d as int]
}

pub open spec fn is_hex(c: char) -> bool {
    ('0' <= c && c <= '9') || ('a' <= c && c <= 'f') || ('A' <= c && c <= 'F')
}

pub open spec fn hex_value_of(c: char) -> nat {
    if '0' <= c && c <= '9' {
        (c as u32 - '0' as u32) as nat
    } else if 'a' <= c && c <= 'f' {
        (c as u32 - 'a' as u32 + 10) as nat
    } else if 'A' <= c && c <= 'F' {
        (c as u32 - 'A' as u32 + 10) as nat
    } else {
        0
    }
}

pub open spec fn all_hex(s: Seq<char>) -> bool {
    forall|i: int| 0 <= i < s.len() ==> is_hex(#[trigger] s[i])
}

/// The number that hexadecimal digits denote, most significant first.
pub open spec fn hex_value(s: Seq<char>) -> nat
    decreases s.len(),
{
    if s.len() == 0 {
        0
    } else {
        hex_value(s.drop_last()) * 16 + hex_value_of(s.last())
    }
}

pub open spec fn pow16(k: nat) -> nat
    decreases k,
{
    if k == 0 {
        1
    } else {
        16 * pow16((k - 1) as nat)
    }
}

/// The last `k` hexadecimal digits of `n`, zero-padded.
pub open spec fn hex_digits(n: nat, k: nat) -> Seq<char>
    decreases k,
{
    if k == 0 {
        Seq::empty()
    } else {
        hex_digits(n / 16, (k - 1) as nat).push(hex_char(n % 16))
    }
}

/// 32 hex digits split into groups of 8, 4, 4, 4 and 12 by hyphens.
pub open spec fn hyphenate(h: Seq<char>) -> Seq<char> {
    h.subrange(0, 8) + seq!['-'] + h.subrange(8, 12) + seq!['-'] + h.subrange(12, 16) + seq!['-']
        + h.subrange(16, 20) + seq!['-'] + h.subrange(20, 32)
}

/// The 32 digits of a hyphenated id, hyphens taken out.
pub open spec fn unhyphenate(s: Seq<char>) -> Seq<char> {
    s.subrange(0, 8) + s.subrange(9, 13) + s.subrange(14, 18) + s.subrange(19, 23) + s.subrange(
        24,
        36,
    )
}

/// The text of a transaction id.
pub open spec fn uuid_text(u: u128) -> Seq<char> {
    hyphenate(hex_digits(u as nat, 32))
}

pub open spec fn hyphens_in_place(s: Seq<char>) -> bool {
    s.len() == 36 && s[8] == '-' && s[13] == '-' && s[18] == '-' && s[23] == '-'
}

/// What reading a transaction id from text gives: 36 characters, hyphens
/// after the 8th, 12th, 16th and 20th digit, hex digits of either case.
pub open spec fn parse_uuid_spec(s: Seq<char>) -> Option<u128> {
    if hyphens_in_place(s) && all_hex(unhyphenate(s)) {
        Some(hex_value(unhyphenate(s)) as u128)
    } else {
        None
    }
}

proof fn lemma_hex_char(d: nat)
    requires
        d < 16,
    ensures
        is_hex(hex_char(d)),
        hex_value_of(hex_char(d)) == d,
{
}

pub(crate) proof fn lemma_hex_digits(n: nat, k: nat)
    ensures
        hex_digits(n, k).len() == k,
        all_hex(hex_digits(n, k)),
        hex_value(hex_digits(n, k)) == n % pow16(k),
    decreases k,
{
    if k > 0 {
        lemma_hex_digits(n / 16, (k - 1) as nat);
        lemma_hex_char(n % 16);
        let h = hex_digits(n, k);
        assert(h.drop_last() =~= hex_digits(n / 16, (k - 1) as nat));
        assert(pow16(k) == 16 * pow16((k - 1) as nat));
        lemma_pow16_positive((k - 1) as nat);
        lemma_breakdown(n as int, 16, pow16((k - 1) as nat) as int);
    }
}

proof fn lemma_pow16_positive(k: nat)
    ensures
        pow16(k) > 0,
    decreases k,
{
    if k > 0 {
        lemma_pow16_positive((k - 1) as nat);
    }
}

proof fn lemma_hex_value_bound(s: Seq<char>)
    ensures
        hex_value(s) < pow16(s.len()) || !all_hex(s),
    decreases s.len(),
{
    if s.len() > 0 {
        lemma_hex_value_bound(s.drop_last());
        if all_hex(s) {
            assert(all_hex(s.drop_last())) by {
                assert forall|i: int| 0 <= i < s.drop_last().len() implies is_hex(
                    #[trigger] s.drop_last()[i],
                ) by {
                    assert(s.drop_last()[i] == s[i]);
                }
            }
            assert(is_hex(s[s.len() - 1]));
        }
    }
}

proof fn lemma_pow16_32()
    ensures
        pow16(32) == 0x1_0000_0000_0000_0000_0000_0000_0000_0000,
{
    reveal_with_fuel(pow16, 33);
}

/// Reading back the text of a transaction id gives the id.
pub proof fn lemma_uuid_round_trip(u: u128)
    ensures
        parse_uuid_spec(uuid_text(u)) == Some(u),
{
    let h = hex_digits(u as nat, 32);
    lemma_hex_digits(u as nat, 32);
    lemma_pow16_32();
    let s = uuid_text(u);
    assert(unhyphenate(s) =~= h);
    vstd::arithmetic::div_mod::lemma_small_mod(u as nat, pow16(32));
}

fn hex_digit_char(d: u128) -> (c: char)
    requires
        d < 16,
    ensures
        c == hex_char(d as nat),
{
    let digits: [char; 16] = [
        '0',
        '1',
        '2',
        '3',
        '4',
        '5',
        '6',
        '7',
        '8',
        '9',
        'a',
        'b',
        'c',
        'd',
        'e',
        'f',
    ];
    assert(digits@ =~= seq![
        '0',
        '1',
        '2',
        '3',
        '4',
        '5',
        '6',
        '7',
        '8',
        '9',
        'a',
        'b',
        'c',
        'd',
        'e',
        'f',
    ]);
    digits[d as usize]
}

fn push_hex(n: u128, k: usize, out: &mut String)
    ensures
        final(out)@ == old(out)@ + hex_digits(n as nat, k as nat),
    decreases k,
{
    if k > 0 {
        push_hex(n / 16, k - 1, out);
        let c = hex_digit_char(n % 16);
        push_char(out, c);
        assert(hex_digits(n as nat, k as nat) =~= hex_digits((n / 16) as nat, (k - 1) as nat).push(
            c,
        ));
        assert(final(out)@ =~= old(out)@ + hex_digits(n as nat, k as nat));
    } else {
        assert(old(out)@ + hex_digits(n as nat, 0) =~= old(out)@);
    }
}

/// The hyphenated text of a transaction id.
pub fn format_uuid(u: u128) -> (r: String)
    ensures
        r@ == uuid_text(u),
{
    let mut h = String::new();
    push_hex(u, 32, &mut h);
    proof {
        lemma_hex_digits(u as nat, 32);
        assert(h@ =~= hex_digits(u as nat, 32));
    }
    let hs = h.as_str();
    let mut out = String::new();
    out.append(hs.substring_char(0, 8));
    push_char(&mut out, '-');
    out.append(hs.substring_char(8, 12));
    push_char(&mut out, '-');
    out.append(hs.substring_char(12, 16));
    push_char(&mut out, '-');
    out.append(hs.substring_char(16, 20));
    push_char(&mut out, '-');
    out.append(hs.substring_char(20, 32));
    assert(out@ =~= uuid_text(u));
    out
}

fn hex_of_char(c: char) -> (r: Option<u128>)
    ensures
        r is Some == is_hex(c),
        r matches Some(d) ==> d == hex_value_of(c) && d < 16,
{
    if '0' <= c && c <= '9' {
        Some((c as u32 - '0' as u32) as u128)
    } else if 'a' <= c && c <= 'f' {
        Some((c as u32 - 'a' as u32 + 10) as u128)
    } else if 'A' <= c && c <= 'F' {
        Some((c as u32 - 'A' as u32 + 10) as u128)
    } else {
        None
    }
}

/// Reads a transaction id from its hyphenated text.
pub fn parse_uuid(s: &str) -> (r: Option<u128>)
    ensures
        r == parse_uuid_spec(s@),
{
    if s.unicode_len() != 36 || s.get_char(8) != '-' || s.get_char(13) != '-' || s.get_char(18)
        != '-' || s.get_char(23) != '-' {
        return None;
    }
    let mut h = String::new();
    h.append(s.substring_char(0, 8));
    h.append(s.substring_char(9, 13));
    h.append(s.substring_char(14, 18));
    h.append(s.substring_char(19, 23));
    h.append(s.substring_char(24, 36));
    assert(h@ =~= unhyphenate(s@));
    let hs = h.as_str();
    let mut value: u128 = 0;
    let mut i: usize = 0;
    while i < 32
        invariant
            hs@ == unhyphenate(s@),
            hs@.len() == 32,
            i <= 32,
            value as nat == hex_value(hs@.subrange(0, i as int)),
            all_hex(hs@.subrange(0, i as int)),
        decreases 32 - i,
    {
        let c = hs.get_char(i);
        let ghost prefix = hs@.subrange(0, i as int + 1);
        assert(prefix.drop_last() =~= hs@.subrange(0, i as int));
        assert(prefix.last() == c);
        match hex_of_char(c) {
            None => {
                assert(!is_hex(hs@[i as int]));
                return None;
            },
            Some(d) => {
                proof {
                    lemma_hex_value_bound(hs@.subrange(0, i as int));
                    lemma_pow16_32();
                    lemma_pow16_le(i as nat, 31);
                    assert(pow16(32) == 16 * pow16(31));
                }
                value = value * 16 + d;
                assert(all_hex(prefix)) by {
                    assert forall|j: int| 0 <= j < prefix.len() implies is_hex(#[trigger] prefix[j]) by {
                        if j < i {
                            assert(prefix[j] == hs@.subrange(0, i as int)[j]);
                        }
                    }
                }
            },
        }
        i = i + 1;
    }
    assert(hs@.subrange(0, 32) =~= hs@);
    Some(value)
}

proof fn lemma_pow16_le(a: nat, b: nat)
    requires
        a <= b,
    ensures
        pow16(a) <= pow16(b),
    decreases b,
{
    if a < b {
        lemma_pow16_le(a, (b - 1) as nat);
        lemma_pow16_positive((b - 1) as nat);
    }
}

} // verus!
