//! The content-address codec: raw fixed-size network addresses and their
//! presentable, scheme-prefixed textual form.
//!
//! `xorname_to_xorurl` is total and deterministic; `xorurl_to_xorname` is its
//! exact left inverse and rejects every other string with
//! `SafeError::AddressMalformed`.

use vstd::prelude::*;

use crate::errors::SafeError;
use crate::text::{chars_string, str_chars};

verus! {

/// A presentable address: a scheme-prefixed textual identifier.
pub type XorUrl = String;

/// The number of bytes in a raw network address.
pub const XOR_NAME_LEN: usize = 32;

/// A raw, fixed-size network address.
#[derive(Debug, Clone, PartialEq, Eq)]
pub struct XorName {
    pub bytes: Vec<u8>,
}

impl XorName {
    /// A well-formed address holds exactly `XOR_NAME_LEN` bytes.
    pub open spec fn wf(&self) -> bool {
        self.bytes@.len() == XOR_NAME_LEN
    }

    pub fn new(bytes: Vec<u8>) -> (r: XorName)
        requires
            bytes@.len() == XOR_NAME_LEN,
        ensures
            r.wf(),
            r.bytes@ == bytes@,
    {
        XorName { bytes }
    }
}

/// The character standing for one hexadecimal digit value.
pub open spec fn hex_char_of(n: u8) -> char {
    if n == 0 {
        '0'
    } else if n == 1 {
        '1'
    } else if n == 2 {
        '2'
    } else if n == 3 {
        '3'
    } else if n == 4 {
        '4'
    } else if n == 5 {
        '5'
    } else if n == 6 {
        '6'
    } else if n == 7 {
        '7'
    } else if n == 8 {
        '8'
    } else if n == 9 {
        '9'
    } else if n == 10 {
        'a'
    } else if n == 11 {
        'b'
    } else if n == 12 {
        'c'
    } else if n == 13 {
        'd'
    } else if n == 14 {
        'e'
    } else {
        'f'
    }
}

/// The digit value a character stands for, if it is a lowercase hex digit.
pub open spec fn hex_val_of(c: char) -> Option<u8> {
    if c == '0' {
        Some(0u8)
    } else if c == '1' {
        Some(1u8)
    } else if c == '2' {
        Some(2u8)
    } else if c == '3' {
        Some(3u8)
    } else if c == '4' {
        Some(4u8)
    } else if c == '5' {
        Some(5u8)
    } else if c == '6' {
        Some(6u8)
    } else if c == '7' {
        Some(7u8)
    } else if c == '8' {
        Some(8u8)
    } else if c == '9' {
        Some(9u8)
    } else if c == 'a' {
        Some(10u8)
    } else if c == 'b' {
        Some(11u8)
    } else if c == 'c' {
        Some(12u8)
    } else if c == 'd' {
        Some(13u8)
    } else if c == 'e' {
        Some(14u8)
    } else if c == 'f' {
        Some(15u8)
    } else {
        None
    }
}

/// Reading back the character of a digit value gives that value.
pub proof fn lemma_hex_digit_round(n: u8)
    requires
        n < 16,
    ensures
        hex_val_of(hex_char_of(n)) == Some(n),
{
}

/// The lowercase hex presentation of a byte sequence: two digits per byte,
/// high digit first.
pub open spec fn hex_of(b: Seq<u8>) -> Seq<char> {
    Seq::new(
        2 * b.len(),
        |i: int|
            if i % 2 == 0 {
                hex_char_of(b[i / 2] / 16)
            } else {
                hex_char_of(b[i / 2] % 16)
            },
    )
}

/// The scheme prefix of every presentable address.
pub open spec fn xorurl_prefix() -> Seq<char> {
    seq!['s', 'a', 'f', 'e', ':', '/', '/']
}

/// The presentable form of a raw address: the scheme prefix followed by the
/// hex presentation of its bytes.
pub open spec fn xorurl_of(b: Seq<u8>) -> Seq<char> {
    xorurl_prefix() + hex_of(b)
}

/// The character for a digit value.
fn hex_digit(n: u8) -> (c: char)
    requires
        n < 16,
    ensures
        c == hex_char_of(n),
{
    match n {
        0 => '0',
        1 => '1',
        2 => '2',
        3 => '3',
        4 => '4',
        5 => '5',
        6 => '6',
        7 => '7',
        8 => '8',
        9 => '9',
        10 => 'a',
        11 => 'b',
        12 => 'c',
        13 => 'd',
        14 => 'e',
        _ => 'f',
    }
}

/// The digit value of a character, if it is a lowercase hex digit.
fn hex_val(c: char) -> (r: Option<u8>)
    ensures
        r == hex_val_of(c),
{
    match c {
        '0' => Some(0u8),
        '1' => Some(1u8),
        '2' => Some(2u8),
        '3' => Some(3u8),
        '4' => Some(4u8),
        '5' => Some(5u8),
        '6' => Some(6u8),
        '7' => Some(7u8),
        '8' => Some(8u8),
        '9' => Some(9u8),
        'a' => Some(10u8),
        'b' => Some(11u8),
        'c' => Some(12u8),
        'd' => Some(13u8),
        'e' => Some(14u8),
        'f' => Some(15u8),
        _ => None,
    }
}

/// Encodes a raw address as its presentable textual form.
///
/// Total and deterministic: the same raw address always yields the same text.
pub fn xorname_to_xorurl(xorname: &XorName) -> (r: XorUrl)
    requires
        xorname.wf(),
    ensures
        r@ == xorurl_of(xorname.bytes@),
{
    let mut out: Vec<char> = Vec::new();
    out.push('s');
    out.push('a');
    out.push('f');
    out.push('e');
    out.push(':');
    out.push('/');
    out.push('/');
    proof {
        assert(out@ =~= xorurl_prefix());
    }
    let n = xorname.bytes.len();
    let mut k: usize = 0;
    while k < n
        invariant
            n == xorname.bytes@.len(),
            k <= n,
            out@ == xorurl_prefix() + hex_of(xorname.bytes@.take(k as int)),
        decreases n - k,
    {
        let b = xorname.bytes[k];
        out.push(hex_digit(b / 16));
        out.push(hex_digit(b % 16));
        proof {
            assert(out@ =~= xorurl_prefix() + hex_of(xorname.bytes@.take(k + 1))) by {
                let t0 = xorname.bytes@.take(k as int);
                let t1 = xorname.bytes@.take(k + 1);
                assert forall|i: int| 0 <= i < 2 * t1.len() implies hex_of(t1)[i] == (hex_of(t0)
                    + seq![hex_char_of(b / 16), hex_char_of(b % 16)])[i] by {
                    if i < 2 * t0.len() {
                        assert(t1[i / 2] == t0[i / 2]);
                    } else {
                        assert(i / 2 == k);
                    }
                }
                assert(hex_of(t1) =~= hex_of(t0) + seq![hex_char_of(b / 16), hex_char_of(b % 16)]);
            }
        }
        k += 1;
    }
    proof {
        assert(xorname.bytes@.take(n as int) =~= xorname.bytes@);
    }
    chars_string(&out)
}

/// Decodes a presentable address back to the raw address it was encoded
/// from; every string that `xorname_to_xorurl` does not produce is rejected
/// with `AddressMalformed`.
pub fn xorurl_to_xorname(xorurl: &str) -> (r: Result<XorName, SafeError>)
    ensures
        match r {
            Ok(n) => n.wf() && xorurl@ == xorurl_of(n.bytes@),
            Err(e) => e == SafeError::AddressMalformed && (forall|b: Seq<u8>|
                b.len() == XOR_NAME_LEN ==> xorurl@ != xorurl_of(b)),
        },
{
    let cs = str_chars(xorurl);
    if cs.len() != 7 + 2 * XOR_NAME_LEN {
        proof {
            assert forall|b: Seq<u8>| b.len() == XOR_NAME_LEN implies xorurl@ != xorurl_of(b) by {
                assert(xorurl_of(b).len() == 7 + 2 * XOR_NAME_LEN);
            }
        }
        return Err(SafeError::AddressMalformed);
    }
    let prefix_ok = cs[0] == 's' && cs[1] == 'a' && cs[2] == 'f' && cs[3] == 'e' && cs[4] == ':'
        && cs[5] == '/' && cs[6] == '/';
    if !prefix_ok {
        proof {
            assert forall|b: Seq<u8>| b.len() == XOR_NAME_LEN implies xorurl@ != xorurl_of(b) by {
                assert(xorurl_of(b)[0] == 's');
                assert(xorurl_of(b)[1] == 'a');
                assert(xorurl_of(b)[2] == 'f');
                assert(xorurl_of(b)[3] == 'e');
                assert(xorurl_of(b)[4] == ':');
                assert(xorurl_of(b)[5] == '/');
                assert(xorurl_of(b)[6] == '/');
            }
        }
        return Err(SafeError::AddressMalformed);
    }
    let mut bytes: Vec<u8> = Vec::new();
    let mut k: usize = 0;
    while k < XOR_NAME_LEN
        invariant
            cs@ == xorurl@,
            cs@.len() == 7 + 2 * XOR_NAME_LEN,
            k <= XOR_NAME_LEN,
            bytes@.len() == k,
            forall|j: int| 0 <= j < k ==> cs@[7 + 2 * j] == hex_char_of(#[trigger] bytes@[j] / 16)
                && cs@[7 + 2 * j + 1] == hex_char_of(bytes@[j] % 16),
        decreases XOR_NAME_LEN - k,
    {
        let hi = hex_val(cs[7 + 2 * k]);
        let lo = hex_val(cs[7 + 2 * k + 1]);
        match (hi, lo) {
            (Some(h), Some(l)) => {
                proof {
                    lemma_hex_digit_round(h);
                    lemma_hex_digit_round(l);
                    assert((h * 16 + l) / 16 == h as int);
                    assert((h * 16 + l) % 16 == l as int);
                }
                bytes.push(h * 16 + l);
            },
            _ => {
                proof {
                    assert forall|b: Seq<u8>| b.len() == XOR_NAME_LEN implies xorurl@ != xorurl_of(
                        b,
                    ) by {
                        if xorurl@ == xorurl_of(b) {
                            lemma_hex_digit_round(b[k as int] / 16);
                            lemma_hex_digit_round(b[k as int] % 16);
                            assert(cs@[7 + 2 * k] == hex_char_of(b[k as int] / 16));
                            assert(cs@[7 + 2 * k + 1] == hex_char_of(b[k as int] % 16));
                        }
                    }
                }
                return Err(SafeError::AddressMalformed);
            },
        }
        k += 1;
    }
    proof {
        assert forall|i: int| 0 <= i < cs@.len() implies cs@[i] == xorurl_of(bytes@)[i] by {
            if i >= 7 {
                let j = (i - 7) / 2;
                if (i - 7) % 2 == 0 {
                    assert(i == 7 + 2 * j);
                } else {
                    assert(i == 7 + 2 * j + 1);
                }
            }
        }
        assert(cs@ =~= xorurl_of(bytes@));
    }
    Ok(XorName::new(bytes))
}

/// The presentable encoding is injective on raw addresses: together with the
/// codec contracts this says that decoding the encoding of any raw address
/// gives back exactly that address.
pub proof fn lemma_address_encoding_injective(a: Seq<u8>, b: Seq<u8>)
    requires
        a.len() == XOR_NAME_LEN,
        b.len() == XOR_NAME_LEN,
        xorurl_of(a) == xorurl_of(b),
    ensures
        a == b,
{
    assert forall|k: int| 0 <= k < a.len() implies a[k] == b[k] by {
        assert(xorurl_of(a)[7 + 2 * k] == hex_char_of(a[k] / 16));
        assert(xorurl_of(b)[7 + 2 * k] == hex_char_of(b[k] / 16));
        assert(xorurl_of(a)[7 + 2 * k + 1] == hex_char_of(a[k] % 16));
        assert(xorurl_of(b)[7 + 2 * k + 1] == hex_char_of(b[k] % 16));
        lemma_hex_digit_round(a[k] / 16);
        lemma_hex_digit_round(b[k] / 16);
        lemma_hex_digit_round(a[k] % 16);
        lemma_hex_digit_round(b[k] % 16);
        assert(a[k] / 16 == b[k] / 16 && a[k] % 16 == b[k] % 16);
    }
    assert(a =~= b);
}

} // verus!
