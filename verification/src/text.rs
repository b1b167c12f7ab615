use vstd::prelude::*;

use crate::program::Enc;

verus! {

/// What `format!("{:?}", s)` renders a string as: Rust's debug quoting
/// (surrounding quotes, escapes for quotes, backslashes and control
/// characters).
pub uninterp spec fn debug_quoted(s: Seq<char>) -> Seq<char>;

/// `String::push`: appends one character.
#[verifier::external_body]
pub(crate) fn push_char(s: &mut String, c: char)
    ensures
        final(s)@ == old(s)@.push(c),
{
    s.push(c);
}

/// `String::push_str`: appends a string slice.
#[verifier::external_body]
pub(crate) fn push_str(s: &mut String, t: &str)
    ensures
        final(s)@ == old(s)@ + t@,
{
    s.push_str(t);
}

/// `format!("{:?}", s)` on a string slice.
#[verifier::external_body]
pub(crate) fn quoted(s: &str) -> (r: String)
    ensures
        r@ == debug_quoted(s@),
{
    format!("{:?}", s)
}

/// The character of a decimal digit.
pub open spec fn digit_char(d: nat) -> char {
    ((d + 48) as u8) as char
}

/// The decimal spelling of a natural number, most significant digit first.
pub open spec fn dec_chars(n: nat) -> Seq<char>
    decreases n,
{
    if n < 10 {
        seq![digit_char(n)]
    } else {
        dec_chars(n / 10).push(digit_char(n % 10))
    }
}

/// Appends the decimal spelling of `n`.
pub fn push_decimal(s: &mut String, n: u128)
    ensures
        final(s)@ == old(s)@ + dec_chars(n as nat),
    decreases n,
{
    if n >= 10 {
        push_decimal(s, n / 10);
    }
    let d: u8 = (n % 10) as u8;
    let c = (d + 48) as char;
    push_char(s, c);
    proof {
        assert(dec_chars(n as nat) == (if n < 10 { seq![digit_char(n as nat)] } else { dec_chars((n / 10) as nat).push(digit_char((n % 10) as nat)) }));
    }
}

/// Appends the decimal spelling of a signed number, `-` first if negative.
pub fn push_signed(s: &mut String, n: i128)
    ensures
        final(s)@ == old(s)@ + (if n < 0 { seq!['-'] + dec_chars((-n) as nat) } else { dec_chars(n as nat) }),
{
    if n < 0 {
        push_char(s, '-');
        let m: u128 = if n == i128::MIN { 0x8000_0000_0000_0000_0000_0000_0000_0000u128 } else { (-n) as u128 };
        push_decimal(s, m);
    } else {
        push_decimal(s, n as u128);
    }
}

/// A fresh string holding `t`.
pub fn string_of(t: &str) -> (r: String)
    ensures
        r@ == t@,
{
    let mut s = String::new();
    push_str(&mut s, t);
    proof { assert(s@ =~= t@); }
    s
}

/// Whether two string slices hold the same characters.
pub fn str_eq(a: &str, b: &str) -> (r: bool)
    ensures
        r == (a@ == b@),
{
    let x = a.as_bytes();
    let y = b.as_bytes();
    proof {
        vstd::utf8::encode_utf8_decode_utf8(a@);
        vstd::utf8::encode_utf8_decode_utf8(b@);
    }
    if x.len() != y.len() {
        return false;
    }
    let mut i: usize = 0;
    while i < x.len()
        invariant
            x@ == vstd::utf8::encode_utf8(a@),
            y@ == vstd::utf8::encode_utf8(b@),
            x@.len() == y@.len(),
            i <= x@.len(),
            forall|j: int| 0 <= j < i ==> x@[j] == y@[j],
        decreases x@.len() - i,
    {
        if x[i] != y[i] {
            return false;
        }
        i = i + 1;
    }
    proof { assert(x@ =~= y@); }
    true
}

/// The characters bytes decode to, one per byte (ASCII and Latin-1).
pub open spec fn chars_of_bytes(raw: Seq<u8>) -> Seq<char> {
    Seq::new(raw.len(), |i: int| raw[i] as char)
}

/// The text bytes decode to in an encoding, or `None` where they are not
/// valid in it.
pub open spec fn decode_spec(raw: Seq<u8>, enc: Enc) -> Option<Seq<char>> {
    match enc {
        Enc::Utf8 => if vstd::utf8::valid_utf8(raw) { Some(vstd::utf8::decode_utf8(raw)) } else { None },
        Enc::Ascii => if forall|i: int| 0 <= i < raw.len() ==> raw[i] < 0x80 { Some(chars_of_bytes(raw)) } else { None },
        Enc::Latin1 => Some(chars_of_bytes(raw)),
    }
}

/// The bytes text encodes to in an encoding, or `None` where a character
/// has no encoding in it.
pub open spec fn encode_spec(s: Seq<char>, enc: Enc) -> Option<Seq<u8>> {
    match enc {
        Enc::Utf8 => Some(vstd::utf8::encode_utf8(s)),
        Enc::Ascii => if forall|i: int| 0 <= i < s.len() ==> (s[i] as u32) < 0x80 {
            Some(Seq::new(s.len(), |i: int| s[i] as u8))
        } else {
            None
        },
        Enc::Latin1 => if forall|i: int| 0 <= i < s.len() ==> (s[i] as u32) <= 0xFF {
            Some(Seq::new(s.len(), |i: int| s[i] as u8))
        } else {
            None
        },
    }
}

/// Decoding bytes and encoding the text in the same encoding gives the
/// bytes back.
pub proof fn lemma_decode_encode(raw: Seq<u8>, enc: Enc)
    ensures
        decode_spec(raw, enc) matches Some(s) ==> encode_spec(s, enc) == Some(raw),
{
    match enc {
        Enc::Utf8 => {
            if vstd::utf8::valid_utf8(raw) {
                vstd::utf8::decode_utf8_encode_utf8(raw);
            }
        },
        Enc::Ascii | Enc::Latin1 => {
            if let Some(s) = decode_spec(raw, enc) {
                assert forall|i: int| 0 <= i < s.len() implies (s[i] as u32) <= 0xFF
                    && (enc == Enc::Ascii ==> (s[i] as u32) < 0x80) && s[i] as u8 == raw[i] by {
                    assert(s[i] == raw[i] as char);
                }
                assert(Seq::new(s.len(), |i: int| s[i] as u8) =~= raw);
            }
        },
    }
}

/// Encoding text and decoding the bytes in the same encoding gives the
/// text back.
pub proof fn lemma_encode_decode(s: Seq<char>, enc: Enc)
    ensures
        encode_spec(s, enc) matches Some(b) ==> decode_spec(b, enc) == Some(s),
{
    match enc {
        Enc::Utf8 => {
            vstd::utf8::encode_utf8_valid_utf8(s);
            vstd::utf8::encode_utf8_decode_utf8(s);
        },
        Enc::Ascii | Enc::Latin1 => {
            if let Some(b) = encode_spec(s, enc) {
                assert forall|i: int| 0 <= i < b.len() implies (enc == Enc::Ascii ==> b[i] < 0x80) && (b[i] as char) == s[i] by {
                    assert(b[i] == s[i] as u8);
                    vstd::utf8::char_u32_cast(s[i], s[i] as u32);
                }
                assert(chars_of_bytes(b) =~= s);
            }
        },
    }
}

/// `String::from_utf8`: the text of valid UTF-8, or `None`.
#[verifier::external_body]
fn utf8_string(raw: &[u8]) -> (r: Option<String>)
    ensures
        r is Some <==> vstd::utf8::valid_utf8(raw@),
        r matches Some(s) ==> s@ == vstd::utf8::decode_utf8(raw@),
{
    String::from_utf8(raw.to_vec()).ok()
}

/// Decodes bytes in an encoding.
pub fn decode(raw: &[u8], enc: Enc) -> (r: Option<String>)
    ensures
        match decode_spec(raw@, enc) {
            Some(t) => r matches Some(s) && s@ == t,
            None => r is None,
        },
{
    match enc {
        Enc::Utf8 => utf8_string(raw),
        _ => {
            let mut out = String::new();
            let mut i: usize = 0;
            while i < raw.len()
                invariant
                    i <= raw@.len(),
                    out@ == chars_of_bytes(raw@.subrange(0, i as int)),
                    enc is Ascii ==> forall|j: int| 0 <= j < i ==> raw@[j] < 0x80,
                decreases raw@.len() - i,
            {
                let b = raw[i];
                if enc == Enc::Ascii && b >= 0x80 {
                    return None;
                }
                push_char(&mut out, b as char);
                proof {
                    assert(chars_of_bytes(raw@.subrange(0, i + 1)) =~= chars_of_bytes(raw@.subrange(0, i as int)).push(b as char));
                }
                i = i + 1;
            }
            proof { assert(raw@.subrange(0, raw@.len() as int) =~= raw@); }
            Some(out)
        },
    }
}

/// Encodes text in an encoding.
pub fn encode(s: &str, enc: Enc) -> (r: Option<Vec<u8>>)
    ensures
        match encode_spec(s@, enc) {
            Some(b) => r matches Some(v) && v@ == b,
            None => r is None,
        },
{
    match enc {
        Enc::Utf8 => {
            let b = s.as_bytes();
            let mut out: Vec<u8> = Vec::new();
            let mut i: usize = 0;
            while i < b.len()
                invariant
                    i <= b@.len(),
                    out@ == b@.subrange(0, i as int),
                decreases b@.len() - i,
            {
                out.push(b[i]);
                proof { assert(out@ =~= b@.subrange(0, i + 1)); }
                i = i + 1;
            }
            proof { assert(out@ =~= b@); }
            Some(out)
        },
        _ => {
            let n = s.unicode_len();
            let limit: u32 = if enc == Enc::Ascii { 0x80 } else { 0x100 };
            let mut out: Vec<u8> = Vec::new();
            let mut i: usize = 0;
            while i < n
                invariant
                    n == s@.len(),
                    i <= n,
                    limit == (if enc is Ascii { 0x80u32 } else { 0x100u32 }),
                    !(enc is Utf8),
                    forall|j: int| 0 <= j < i ==> (s@[j] as u32) < limit,
                    out@ == Seq::new(i as nat, |j: int| s@[j] as u8),
                decreases n - i,
            {
                let c = s.get_char(i);
                let code = c as u32;
                if code >= limit {
                    return None;
                }
                out.push(code as u8);
                proof {
                    assert(out@ =~= Seq::new((i + 1) as nat, |j: int| s@[j] as u8));
                }
                i = i + 1;
            }
            Some(out)
        },
    }
}

} // verus!
