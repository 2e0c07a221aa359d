//! Hexadecimal encoding of byte strings, and the identifiers of operations.

use vstd::prelude::*;

use vstd::utf8::encode_utf8;
use vstd::utf8::is_ascii_chars;
use vstd::utf8::is_ascii_chars_encode_utf8;
use vstd::string::StrSliceExecFns;
use vstd::string::StringExecFns;
use vstd::string::StringSliceAdditionalSpecFns;

use crate::order::ByteKeyed;

verus! {

/// The lower-case hexadecimal digit for `n`, where `n < 16`.
pub open spec fn hex_char(n: int) -> char {
    if n < 10 {
        (48 + n) as char
    } else {
        (87 + n) as char
    }
}

/// Lower-case hexadecimal text of `data`: two digits per byte, high nibble first.
pub open spec fn spec_encode_hex(data: Seq<u8>) -> Seq<char> {
    Seq::new(
        2 * data.len(),
        |i: int|
            if i % 2 == 0 {
                hex_char((data[i / 2] / 16) as int)
            } else {
                hex_char((data[i / 2] % 16) as int)
            },
    )
}

/// The value of a hexadecimal digit, in either case.
pub open spec fn hex_value(c: u8) -> Option<u8> {
    if 48 <= c <= 57 {
        Some((c - 48) as u8)
    } else if 65 <= c <= 70 {
        Some((c - 55) as u8)
    } else if 97 <= c <= 102 {
        Some((c - 87) as u8)
    } else {
        None
    }
}

/// The bytes that hexadecimal text stands for: `None` unless the text has
/// an even length and every byte of it is a hexadecimal digit.
pub open spec fn spec_decode_hex(text: Seq<u8>) -> Option<Seq<u8>> {
    if text.len() % 2 == 0 && forall|i: int| 0 <= i < text.len() ==> (#[trigger] hex_value(text[i])) is Some {
        Some(
            Seq::new(
                text.len() / 2,
                |k: int| (16 * hex_value(text[2 * k]).unwrap() + hex_value(text[2 * k + 1]).unwrap()) as u8,
            ),
        )
    } else {
        None
    }
}

/// The UTF-8 bytes of the hexadecimal text are the digits themselves.
pub proof fn lemma_encode_hex_bytes(data: Seq<u8>)
    ensures
        encode_utf8(spec_encode_hex(data)) == Seq::new(
            2 * data.len(),
            |i: int| spec_encode_hex(data)[i] as u8,
        ),
        forall|i: int|
            0 <= i < 2 * data.len() ==> {
                let c = #[trigger] spec_encode_hex(data)[i] as u8;
                &&& 48 <= c <= 57 || 97 <= c <= 102
                &&& hex_value(c) == Some(
                    (if i % 2 == 0 {
                        data[i / 2] / 16
                    } else {
                        data[i / 2] % 16
                    }) as u8,
                )
            },
{
    let t = spec_encode_hex(data);
    assert(is_ascii_chars(t));
    is_ascii_chars_encode_utf8(t);
    assert(encode_utf8(t) =~= Seq::new(2 * data.len(), |i: int| t[i] as u8));
}

/// Decoding the hexadecimal text of `data` gives back `data`.
pub proof fn lemma_decode_encode_hex(data: Seq<u8>)
    ensures
        spec_decode_hex(encode_utf8(spec_encode_hex(data))) == Some(data),
{
    lemma_encode_hex_bytes(data);
    let text = encode_utf8(spec_encode_hex(data));
    assert forall|i: int| 0 <= i < text.len() implies (#[trigger] hex_value(text[i])) is Some by {
        assert(text[i] == spec_encode_hex(data)[i] as u8);
    }
    assert forall|k: int| 0 <= k < data.len() implies (16 * hex_value(text[2 * k]).unwrap()
        + hex_value(text[2 * k + 1]).unwrap()) as u8 == data[k] by {
        assert(text[2 * k] == spec_encode_hex(data)[2 * k] as u8);
        assert(text[2 * k + 1] == spec_encode_hex(data)[2 * k + 1] as u8);
        assert((2 * k) / 2 == k);
        assert((2 * k + 1) / 2 == k);
        assert((2 * k) % 2 == 0);
        assert((2 * k + 1) % 2 == 1);
    }
    assert(spec_decode_hex(text).unwrap() =~= data);
}

/// Returns the lower-case hexadecimal text of `data`.
pub fn encode_hex(data: &[u8]) -> (res: String)
    ensures
        res@ == spec_encode_hex(data@),
{
    let digits = "0123456789abcdef";
    proof {
        reveal_strlit("0123456789abcdef");
        assert(digits.is_ascii());
        assert forall|n: int| 0 <= n < 16 implies #[trigger] digits@[n] == hex_char(n) by {
            assert(digits@ == seq!['0', '1', '2', '3', '4', '5', '6', '7', '8', '9', 'a', 'b', 'c', 'd', 'e', 'f']);
        }
    }
    let mut res = String::new();
    let mut i: usize = 0;
    while i < data.len()
        invariant
            i <= data@.len(),
            digits@.len() == 16,
            digits.is_ascii(),
            forall|n: int| 0 <= n < 16 ==> #[trigger] digits@[n] == hex_char(n),
            res@ =~= spec_encode_hex(data@.take(i as int)),
        decreases data.len() - i,
    {
        let b = data[i];
        let hi: usize = (b / 16) as usize;
        let lo: usize = (b % 16) as usize;
        res.append(digits.substring_ascii(hi, hi + 1));
        res.append(digits.substring_ascii(lo, lo + 1));
        assert(res@ =~= spec_encode_hex(data@.take(i + 1))) by {
            let t = data@.take(i + 1);
            assert forall|j: int| 0 <= j < 2 * i implies #[trigger] spec_encode_hex(t)[j] == spec_encode_hex(data@.take(i as int))[j] by {
                assert(t[j / 2] == data@[j / 2]);
            }
        }
        i = i + 1;
    }
    assert(data@.take(data.len() as int) =~= data@);
    res
}

/// Returns the value of one hexadecimal digit, in either case.
fn hex_digit_value(c: u8) -> (res: Option<u8>)
    ensures
        res == hex_value(c),
{
    if 48 <= c && c <= 57 {
        Some(c - 48)
    } else if 65 <= c && c <= 70 {
        Some(c - 55)
    } else if 97 <= c && c <= 102 {
        Some(c - 87)
    } else {
        None
    }
}

/// Decodes hexadecimal text, upper or lower case; `None` when the text has
/// an odd length or holds a byte that is not a hexadecimal digit.
pub fn decode_hex(text: &[u8]) -> (res: Option<Vec<u8>>)
    ensures
        match res {
            Some(v) => spec_decode_hex(text@) == Some(v@),
            None => spec_decode_hex(text@) is None,
        },
{
    if text.len() % 2 != 0 {
        return None;
    }
    let mut out: Vec<u8> = Vec::new();
    let mut k: usize = 0;
    let n = text.len() / 2;
    while k < n
        invariant
            n == text@.len() / 2,
            text@.len() % 2 == 0,
            k <= n,
            forall|i: int| 0 <= i < 2 * k ==> (#[trigger] hex_value(text@[i])) is Some,
            out@.len() == k,
            forall|j: int|
                0 <= j < k ==> #[trigger] out@[j] == (16 * hex_value(text@[2 * j]).unwrap()
                    + hex_value(text@[2 * j + 1]).unwrap()) as u8,
        decreases n - k,
    {
        let hi = hex_digit_value(text[2 * k]);
        let lo = hex_digit_value(text[2 * k + 1]);
        match (hi, lo) {
            (Some(h), Some(l)) => {
                out.push(16 * h + l);
            },
            _ => {
                return None;
            },
        }
        k = k + 1;
    }
    assert(out@ =~= spec_decode_hex(text@).unwrap());
    Some(out)
}

/// The identifier of an operation: the bytes of its hash.
#[derive(Clone, Debug, PartialEq, Eq, Hash)]
pub struct OperationId {
    bytes: Vec<u8>,
}

impl ByteKeyed for OperationId {
    open spec fn byte_key(&self) -> Seq<u8> {
        self.id_bytes()
    }

    fn key_bytes(&self) -> (res: &[u8]) {
        self.bytes.as_slice()
    }
}

impl OperationId {
    /// The bytes of the identifier.
    pub closed spec fn id_bytes(&self) -> Seq<u8> {
        self.bytes@
    }

    /// Creates an identifier from its bytes.
    pub fn new(bytes: Vec<u8>) -> (res: Self)
        ensures
            res.id_bytes() == bytes@,
    {
        OperationId { bytes }
    }

    /// Creates an identifier from hexadecimal text, which must be valid.
    pub fn from_hex(hex: &str) -> (res: Self)
        requires
            spec_decode_hex(hex.spec_bytes()) is Some,
        ensures
            Some(res.id_bytes()) == spec_decode_hex(hex.spec_bytes()),
    {
        match decode_hex(hex.as_bytes()) {
            Some(bytes) => OperationId { bytes },
            None => {
                proof {
                    assert(false);
                }
                OperationId { bytes: Vec::new() }
            },
        }
    }

    /// Returns the bytes of the identifier.
    pub fn as_bytes(&self) -> (res: &[u8])
        ensures
            res@ == self.id_bytes(),
    {
        self.bytes.as_slice()
    }

    /// Returns the lower-case hexadecimal text of the identifier.
    pub fn hex(&self) -> (res: String)
        ensures
            res@ == spec_encode_hex(self.id_bytes()),
    {
        encode_hex(self.bytes.as_slice())
    }
}

/// Two identifiers are equal when their bytes are.
pub fn operation_ids_equal(a: &OperationId, b: &OperationId) -> (res: bool)
    ensures
        res == (a.id_bytes() == b.id_bytes()),
{
    crate::path::bytes_equal(a.as_bytes(), b.as_bytes())
}

/// `c` is the ASCII digit of the nibble `n`: `'0'` to `'9'` for values
/// below ten, then `'a'` to `'f'`, or `'A'` to `'F'`.
pub open spec fn is_hex_digit_of(c: u8, n: int) -> bool {
    ||| 0 <= n < 10 && c as int == '0' as int + n
    ||| 10 <= n < 16 && c as int == 'a' as int + (n - 10)
    ||| 10 <= n < 16 && c as int == 'A' as int + (n - 10)
}

/// Each byte is written as two digits, high nibble first, and the digit of
/// a nibble `n` is `'0' + n` below ten and `'a' + (n - 10)` from ten on.
pub proof fn lemma_encode_hex_digits(data: Seq<u8>)
    ensures
        spec_encode_hex(data).len() == 2 * data.len(),
        forall|k: int|
            0 <= k < data.len() ==> {
                let hi = (#[trigger] data[k]) / 16;
                let lo = data[k] % 16;
                &&& spec_encode_hex(data)[2 * k] as int == if hi < 10 {
                    '0' as int + hi
                } else {
                    'a' as int + (hi - 10)
                }
                &&& spec_encode_hex(data)[2 * k + 1] as int == if lo < 10 {
                    '0' as int + lo
                } else {
                    'a' as int + (lo - 10)
                }
            },
{
    assert forall|k: int| 0 <= k < data.len() implies {
        let hi = (#[trigger] data[k]) / 16;
        let lo = data[k] % 16;
        &&& spec_encode_hex(data)[2 * k] as int == if hi < 10 {
            '0' as int + hi
        } else {
            'a' as int + (hi - 10)
        }
        &&& spec_encode_hex(data)[2 * k + 1] as int == if lo < 10 {
            '0' as int + lo
        } else {
            'a' as int + (lo - 10)
        }
    } by {
        assert((2 * k) / 2 == k);
        assert((2 * k + 1) / 2 == k);
        assert((2 * k) % 2 == 0);
        assert((2 * k + 1) % 2 == 1);
    }
}

/// Every digit, in either case, has the value of its nibble: `'0' + n` and,
/// from ten on, `'a' + (n - 10)` and `'A' + (n - 10)` stand for `n`.
pub proof fn lemma_hex_value_digits(c: u8, n: int)
    requires
        is_hex_digit_of(c, n),
    ensures
        hex_value(c) == Some(n as u8),
{
}

/// Text whose `2k`-th and `2k+1`-th bytes are digits, in either case, of the
/// high and low nibble of `data[k]` decodes to `data`.
pub proof fn lemma_decode_hex_digits(text: Seq<u8>, data: Seq<u8>)
    requires
        text.len() == 2 * data.len(),
        forall|k: int|
            0 <= k < data.len() ==> is_hex_digit_of(text[2 * k], ((#[trigger] data[k]) / 16) as int)
                && is_hex_digit_of(text[2 * k + 1], (data[k] % 16) as int),
    ensures
        spec_decode_hex(text) == Some(data),
{
    assert forall|i: int| 0 <= i < text.len() implies (#[trigger] hex_value(text[i])) is Some by {
        let k = i / 2;
        assert(0 <= k < data.len());
        assert(data[k] == data[k]);
        if i % 2 == 0 {
            assert(i == 2 * k);
            lemma_hex_value_digits(text[2 * k], (data[k] / 16) as int);
        } else {
            assert(i == 2 * k + 1);
            lemma_hex_value_digits(text[2 * k + 1], (data[k] % 16) as int);
        }
    }
    assert(text.len() % 2 == 0);
    assert forall|k: int| 0 <= k < data.len() implies (16 * hex_value(text[2 * k]).unwrap()
        + hex_value(text[2 * k + 1]).unwrap()) as u8 == data[k] by {
        assert(data[k] == data[k]);
        lemma_hex_value_digits(text[2 * k], (data[k] / 16) as int);
        lemma_hex_value_digits(text[2 * k + 1], (data[k] % 16) as int);
    }
    assert(spec_decode_hex(text).unwrap() =~= data);
}

} // verus!
