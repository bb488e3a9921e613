use vstd::prelude::*;

verus! {

/// The ASCII code of the lowercase hex digit for a nibble.
pub open spec fn hex_digit(n: u8) -> u8
    recommends
        n < 16,
{
    if n < 10 {
        (n + 0x30) as u8
    } else {
        (n + 0x57) as u8
    }
}

/// The lowercase hex encoding of a byte sequence, as ASCII codes:
/// two digits per byte, high nibble first.
pub open spec fn hex_of(data: Seq<u8>) -> Seq<u8> {
    Seq::new(
        data.len() * 2,
        |i: int|
            if i % 2 == 0 {
                hex_digit((data[i / 2] / 16) as u8)
            } else {
                hex_digit((data[i / 2] % 16) as u8)
            },
    )
}

/// Whether an ASCII code is a hex digit, either case.
pub open spec fn is_hex_digit(c: u8) -> bool {
    (0x30 <= c <= 0x39) || (0x61 <= c <= 0x66) || (0x41 <= c <= 0x46)
}

/// The nibble value of a hex digit's ASCII code.
pub open spec fn hex_val(c: u8) -> u8
    recommends
        is_hex_digit(c),
{
    if 0x30 <= c <= 0x39 {
        (c - 0x30) as u8
    } else if 0x61 <= c {
        (c - 0x57) as u8
    } else {
        (c - 0x37) as u8
    }
}

/// Whether a byte sequence is a well-formed hex string: even length, all
/// digits.
pub open spec fn valid_hex(s: Seq<u8>) -> bool {
    s.len() % 2 == 0 && (forall|i: int| 0 <= i < s.len() ==> is_hex_digit(#[trigger] s[i]))
}

/// The bytes a well-formed hex string denotes.
pub open spec fn hex_decoded(s: Seq<u8>) -> Seq<u8> {
    Seq::new(s.len() / 2, |i: int| (hex_val(s[2 * i]) * 16 + hex_val(s[2 * i + 1])) as u8)
}

fn hex_digit_ex(n: u8) -> (r: u8)
    requires
        n < 16,
    ensures
        r == hex_digit(n),
{
    if n < 10 {
        n + 0x30
    } else {
        n + 0x57
    }
}

/// Encode bytes as lowercase hex (ASCII codes, two digits per byte).
pub fn to_hex(data: &[u8]) -> (r: Vec<u8>)
    ensures
        r@ == hex_of(data@),
{
    let mut out: Vec<u8> = Vec::new();
    let mut i: usize = 0;
    while i < data.len()
        invariant
            i <= data@.len(),
            out@ =~= hex_of(data@.take(i as int)),
        decreases data@.len() - i,
    {
        let b = data[i];
        out.push(hex_digit_ex(b / 16));
        out.push(hex_digit_ex(b % 16));
        i = i + 1;
        proof {
            assert(out@ =~= hex_of(data@.take(i as int)));
        }
    }
    proof {
        assert(data@.take(data@.len() as int) =~= data@);
    }
    out
}

/// Decode a hex string (ASCII codes, either case).  Returns `None` exactly
/// when the input is not well-formed hex.
pub fn from_hex(s: &[u8]) -> (r: Option<Vec<u8>>)
    ensures
        r is Some <==> valid_hex(s@),
        r matches Some(v) ==> v@ == hex_decoded(s@),
{
    if s.len() % 2 != 0 {
        return None;
    }
    let mut out: Vec<u8> = Vec::new();
    let mut i: usize = 0;
    while i < s.len()
        invariant
            s@.len() % 2 == 0,
            i % 2 == 0,
            i <= s@.len(),
            forall|j: int| 0 <= j < i ==> is_hex_digit(#[trigger] s@[j]),
            out@ =~= hex_decoded(s@.take(i as int)),
        decreases s@.len() - i,
    {
        let hi = s[i];
        let lo = s[i + 1];
        let hi_ok = (0x30 <= hi && hi <= 0x39) || (0x61 <= hi && hi <= 0x66) || (0x41 <= hi
            && hi <= 0x46);
        let lo_ok = (0x30 <= lo && lo <= 0x39) || (0x61 <= lo && lo <= 0x66) || (0x41 <= lo
            && lo <= 0x46);
        if !hi_ok || !lo_ok {
            return None;
        }
        let hv = if hi <= 0x39 {
            hi - 0x30
        } else if hi >= 0x61 {
            hi - 0x57
        } else {
            hi - 0x37
        };
        let lv = if lo <= 0x39 {
            lo - 0x30
        } else if lo >= 0x61 {
            lo - 0x57
        } else {
            lo - 0x37
        };
        out.push(hv * 16 + lv);
        i = i + 2;
        proof {
            assert(out@ =~= hex_decoded(s@.take(i as int)));
        }
    }
    proof {
        assert(s@.take(s@.len() as int) =~= s@);
    }
    Some(out)
}

/// Hex encodings are pure ASCII.
pub proof fn lemma_hex_is_ascii(data: Seq<u8>)
    ensures
        forall|i: int| 0 <= i < hex_of(data).len() ==> hex_of(data)[i] < 128,
{
    assert forall|i: int| 0 <= i < hex_of(data).len() implies hex_of(data)[i] < 128 by {
        assert(0 <= i / 2 < data.len());
    }
}

/// Relies on std's `String::from_utf8`: ASCII bytes convert to the string
/// whose characters are exactly those codes.
#[verifier::external_body]
pub(crate) fn string_from_ascii(v: Vec<u8>) -> (r: String)
    requires
        forall|i: int| 0 <= i < v@.len() ==> v@[i] < 128,
    ensures
        r@.len() == v@.len(),
        forall|i: int| 0 <= i < v@.len() ==> r@[i] == v@[i] as char,
{
    String::from_utf8(v).expect("ASCII is valid UTF-8")
}

/// Whether a character is a hex digit, either case.
pub open spec fn char_is_hex_digit(c: char) -> bool {
    (0x30 <= c as int <= 0x39) || (0x61 <= c as int <= 0x66) || (0x41 <= c as int <= 0x46)
}

/// The nibble value of a hex digit character.
pub open spec fn char_hex_val(c: char) -> int
    recommends
        char_is_hex_digit(c),
{
    if 0x30 <= c as int <= 0x39 {
        c as int - 0x30
    } else if 0x61 <= c as int {
        c as int - 0x57
    } else {
        c as int - 0x37
    }
}

/// Whether a character sequence is a well-formed hex string.
pub open spec fn valid_hex_chars(s: Seq<char>) -> bool {
    s.len() % 2 == 0 && (forall|i: int| 0 <= i < s.len() ==> char_is_hex_digit(#[trigger] s[i]))
}

/// The bytes a well-formed hex character sequence denotes.
pub open spec fn hex_decoded_chars(s: Seq<char>) -> Seq<u8> {
    Seq::new(s.len() / 2, |i: int| (char_hex_val(s[2 * i]) * 16 + char_hex_val(s[2 * i + 1])) as u8)
}

/// Law: reading an encoding back as characters inverts it.  Any character
/// sequence that spells the hex encoding of a byte sequence is well-formed
/// hex and decodes to exactly those bytes.
pub proof fn lemma_hex_chars_round_trip(data: Seq<u8>, s: Seq<char>)
    requires
        s.len() == hex_of(data).len(),
        forall|i: int| 0 <= i < s.len() ==> #[trigger] s[i] == hex_of(data)[i] as char,
    ensures
        valid_hex_chars(s),
        hex_decoded_chars(s) == data,
{
    lemma_hex_is_ascii(data);
    lemma_hex_round_trip(data);
    assert forall|i: int| 0 <= i < s.len() implies char_is_hex_digit(#[trigger] s[i]) by {
        assert(is_hex_digit(hex_of(data)[i]));
        assert(s[i] as int == hex_of(data)[i]);
    }
    assert(hex_decoded_chars(s) =~= data) by {
        assert forall|i: int| 0 <= i < data.len() implies hex_decoded_chars(s)[i] == data[i] by {
            assert(s[2 * i] as int == hex_of(data)[2 * i]);
            assert(s[2 * i + 1] as int == hex_of(data)[2 * i + 1]);
            assert(hex_decoded(hex_of(data))[i] == data[i]);
        }
    }
}

/// Law: decoding inverts encoding.  For every byte sequence, its hex encoding
/// is well-formed and decodes back to the same bytes.
pub proof fn lemma_hex_round_trip(data: Seq<u8>)
    ensures
        valid_hex(hex_of(data)),
        hex_decoded(hex_of(data)) == data,
{
    assert forall|i: int| 0 <= i < hex_of(data).len() implies is_hex_digit(
        #[trigger] hex_of(data)[i],
    ) by {
        assert(0 <= i / 2 < data.len());
    }
    assert(hex_decoded(hex_of(data)) =~= data) by {
        assert forall|i: int| 0 <= i < data.len() implies hex_decoded(hex_of(data))[i]
            == data[i] by {
            assert(hex_of(data)[2 * i] == hex_digit((data[i] / 16) as u8));
            assert(hex_of(data)[2 * i + 1] == hex_digit((data[i] % 16) as u8));
        }
    }
}

} // verus!
