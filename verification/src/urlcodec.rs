//! Percent-encoding of URL components, byte by byte: unreserved bytes
//! pass through, every other byte becomes `%` followed by two uppercase
//! hexadecimal digits.  Decoding reverses this and also maps `+` to a
//! space.

use crate::error::FlowError;
use vstd::prelude::*;

verus! {

use vstd::utf8::decode_utf8;
use vstd::utf8::encode_utf8;
use vstd::utf8::valid_utf8;
use vstd::string::StringSliceAdditionalSpecFns;

/// Bytes that encode to themselves: ASCII letters, digits, and `-_.~`.
pub open spec fn is_unreserved(b: u8) -> bool {
    ||| 65 <= b <= 90
    ||| 97 <= b <= 122
    ||| 48 <= b <= 57
    ||| b == 45
    ||| b == 95
    ||| b == 46
    ||| b == 126
}

/// The uppercase hexadecimal digit for a value below sixteen.
pub open spec fn hex_digit(n: u8) -> u8 {
    if n < 10 {
        (48 + n) as u8
    } else {
        (55 + n) as u8
    }
}

/// The encoding of one byte.
pub open spec fn enc_byte(b: u8) -> Seq<u8> {
    if is_unreserved(b) {
        seq![b]
    } else {
        seq![37u8, hex_digit(b / 16), hex_digit(b % 16)]
    }
}

/// The encoding of a byte sequence.
pub open spec fn enc_bytes(s: Seq<u8>) -> Seq<u8>
    decreases s.len(),
{
    if s.len() == 0 {
        Seq::empty()
    } else {
        enc_byte(s[0]) + enc_bytes(s.subrange(1, s.len() as int))
    }
}

/// The value of a hexadecimal digit byte, if it is one.
pub open spec fn hex_val(b: u8) -> Option<u8> {
    if 48 <= b <= 57 {
        Some((b - 48) as u8)
    } else if 65 <= b <= 70 {
        Some((b - 55) as u8)
    } else if 97 <= b <= 102 {
        Some((b - 87) as u8)
    } else {
        None
    }
}

/// The decoding of a byte sequence: a percent sign must be followed by
/// two hexadecimal digits, a plus decodes to a space, and every other
/// byte passes through.
pub open spec fn dec_bytes(s: Seq<u8>) -> Option<Seq<u8>>
    decreases s.len(),
{
    if s.len() == 0 {
        Some(Seq::empty())
    } else if s[0] == 37 {
        if s.len() >= 3 {
            match (hex_val(s[1]), hex_val(s[2])) {
                (Some(hi), Some(lo)) => {
                    match dec_bytes(s.subrange(3, s.len() as int)) {
                        Some(t) => Some(seq![(hi * 16 + lo) as u8] + t),
                        None => None,
                    }
                },
                _ => None,
            }
        } else {
            None
        }
    } else {
        let b: u8 = if s[0] == 43 {
            32
        } else {
            s[0]
        };
        match dec_bytes(s.subrange(1, s.len() as int)) {
            Some(t) => Some(seq![b] + t),
            None => None,
        }
    }
}

/// Relies on String::from_utf8: it succeeds exactly on valid UTF-8 and
/// yields the string those bytes encode.
#[verifier::external_body]
fn string_from_utf8(bytes: Vec<u8>) -> (r: Option<String>)
    ensures
        valid_utf8(bytes@) ==> r is Some && r->0@ == decode_utf8(bytes@),
        !valid_utf8(bytes@) ==> r is None,
{
    String::from_utf8(bytes).ok()
}

/// An all-ASCII byte sequence is valid UTF-8.
proof fn lemma_ascii_bytes_valid(s: Seq<u8>)
    requires
        forall|i: int| 0 <= i < s.len() ==> #[trigger] s[i] < 128,
    ensures
        valid_utf8(s),
{
    assert(vstd::utf8::partial_valid_utf8(s, 0)) by {
        assert(s.subrange(0, 0).len() == 0);
    }
    assert(forall|i: int|
        0 <= i < s.len() ==> vstd::utf8::is_leading_byte_width_1(#[trigger] s[i]));
    vstd::utf8::partial_valid_utf8_extend_ascii_block(s, 0, s.len() as int);
    assert(s.subrange(0, s.len() as int) =~= s);
}

fn push_hex(out: &mut Vec<u8>, b: u8)
    ensures
        final(out)@ == old(out)@ + enc_byte(b),
{
    if b >= 65 && b <= 90 || b >= 97 && b <= 122 || b >= 48 && b <= 57 || b == 45 || b == 95
        || b == 46 || b == 126 {
        out.push(b);
        proof {
            assert(final(out)@ =~= old(out)@ + enc_byte(b));
        }
    } else {
        out.push(37);
        let hi = b / 16;
        let lo = b % 16;
        out.push(
            if hi < 10 {
                48 + hi
            } else {
                55 + hi
            },
        );
        out.push(
            if lo < 10 {
                48 + lo
            } else {
                55 + lo
            },
        );
        proof {
            assert(final(out)@ =~= old(out)@ + enc_byte(b));
        }
    }
}

/// Percent-encode the UTF-8 bytes of `input`.  The result is ASCII, and
/// its bytes are exactly the encoding of the input's bytes.
pub fn encode(input: &str) -> (r: String)
    ensures
        encode_utf8(r@) == enc_bytes(input.spec_bytes()),
{
    broadcast use vstd::utf8::decode_utf8_encode_utf8;

    let bytes = input.as_bytes_vec();
    let n = bytes.len();
    let mut out: Vec<u8> = Vec::new();
    let mut i: usize = 0;
    proof {
        assert(bytes@.subrange(0, 0).len() == 0);
        assert(out@ =~= enc_bytes(bytes@.subrange(0, 0)));
    }
    while i < n
        invariant
            i <= n,
            n == bytes@.len(),
            bytes@ == input.spec_bytes(),
            out@ == enc_bytes(bytes@.subrange(0, i as int)),
            forall|j: int| 0 <= j < out@.len() ==> #[trigger] out@[j] < 128,
        decreases n - i,
    {
        let ghost pre = out@;
        push_hex(&mut out, bytes[i]);
        proof {
            lemma_enc_bytes_snoc(bytes@, i as int);
            assert(out@ =~= enc_bytes(bytes@.subrange(0, i + 1)));
            assert(forall|j: int|
                0 <= j < enc_byte(bytes@[i as int]).len() ==> #[trigger] enc_byte(
                    bytes@[i as int],
                )[j] < 128);
        }
        i = i + 1;
    }
    proof {
        assert(bytes@.subrange(0, n as int) =~= bytes@);
        lemma_ascii_bytes_valid(out@);
    }
    let ghost out_bytes = out@;
    match string_from_utf8(out) {
        Some(s) => {
            proof {
                assert(encode_utf8(s@) == out_bytes);
            }
            s
        },
        None => vstd::pervasive::unreached(),
    }
}

/// Encoding one more byte appends its encoding.
proof fn lemma_enc_bytes_snoc(s: Seq<u8>, i: int)
    requires
        0 <= i < s.len(),
    ensures
        enc_bytes(s.subrange(0, i + 1)) == enc_bytes(s.subrange(0, i)) + enc_byte(s[i]),
    decreases i,
{
    if i == 0 {
        assert(s.subrange(0, 1) =~= seq![s[0]]);
        assert(enc_bytes(seq![s[0]]) == enc_byte(s[0]) + enc_bytes(
            seq![s[0]].subrange(1, 1),
        ));
        assert(seq![s[0]].subrange(1, 1).len() == 0);
        assert(enc_bytes(s.subrange(0, 0)).len() == 0);
        assert(enc_bytes(s.subrange(0, 1)) =~= enc_bytes(s.subrange(0, 0)) + enc_byte(
            s[0],
        ));
    } else {
        let t = s.subrange(1, s.len() as int);
        lemma_enc_bytes_snoc(t, i - 1);
        assert(s.subrange(0, i + 1).subrange(1, i + 1) =~= t.subrange(0, i));
        assert(s.subrange(0, i).subrange(1, i) =~= t.subrange(0, i - 1));
        assert(enc_bytes(s.subrange(0, i + 1)) == enc_byte(s[0]) + enc_bytes(
            t.subrange(0, i),
        ));
        assert(enc_bytes(s.subrange(0, i)) == enc_byte(s[0]) + enc_bytes(
            t.subrange(0, i - 1),
        ));
        assert(t[i - 1] == s[i]);
        assert(enc_byte(s[0]) + (enc_bytes(t.subrange(0, i - 1)) + enc_byte(s[i]))
            =~= (enc_byte(s[0]) + enc_bytes(t.subrange(0, i - 1))) + enc_byte(s[i]));
    }
}

/// Decode a percent-encoded string.  Fails on a dangling or malformed
/// percent escape, and when the decoded bytes are not valid UTF-8.
pub fn decode(input: &str) -> (r: Result<String, FlowError>)
    ensures
        match r {
            Ok(t) => {
                &&& dec_bytes(input.spec_bytes()) is Some
                &&& valid_utf8(dec_bytes(input.spec_bytes())->0)
                &&& encode_utf8(t@) == dec_bytes(input.spec_bytes())->0
            },
            Err(_) => dec_bytes(input.spec_bytes()) is None || (dec_bytes(
                input.spec_bytes(),
            ) matches Some(t) && !valid_utf8(t)),
        },
{
    broadcast use vstd::utf8::decode_utf8_encode_utf8;

    let bytes = input.as_bytes_vec();
    let n = bytes.len();
    let mut out: Vec<u8> = Vec::new();
    let mut i: usize = 0;
    proof {
        assert(bytes@.subrange(0, n as int) =~= bytes@);
        if dec_bytes(bytes@) is Some {
            assert(Seq::<u8>::empty() + dec_bytes(bytes@)->0 =~= dec_bytes(bytes@)->0);
        }
    }
    while i < n
        invariant
            i <= n,
            n == bytes@.len(),
            bytes@ == input.spec_bytes(),
            match dec_bytes(bytes@.subrange(i as int, n as int)) {
                Some(t) => dec_bytes(bytes@) == Some(out@ + t),
                None => dec_bytes(bytes@) is None,
            },
        decreases n - i,
    {
        let ghost rest = bytes@.subrange(i as int, n as int);
        let b = bytes[i];
        if b == 37 {
            if n - i < 3 {
                proof {
                    assert(rest[0] == 37);
                    assert(rest.len() < 3);
                    assert(dec_bytes(rest) is None);
                }
                return Err(FlowError::InvalidBytecode);
            }
            let h1 = hex_value(bytes[i + 1]);
            let h2 = hex_value(bytes[i + 2]);
            proof {
                assert(rest[0] == 37);
                assert(rest[1] == bytes@[i + 1]);
                assert(rest[2] == bytes@[i + 2]);
            }
            match (h1, h2) {
                (Some(hi), Some(lo)) => {
                    let ghost pre = out@;
                    out.push(hi * 16 + lo);
                    proof {
                        assert(rest.subrange(3, rest.len() as int) =~= bytes@.subrange(
                            i + 3,
                            n as int,
                        ));
                        if dec_bytes(bytes@.subrange(i + 3, n as int)) is Some {
                            let t = dec_bytes(bytes@.subrange(i + 3, n as int))->0;
                            assert(dec_bytes(rest) == Some(seq![(hi * 16 + lo) as u8] + t));
                            assert(pre + (seq![(hi * 16 + lo) as u8] + t) =~= out@ + t);
                        } else {
                            assert(dec_bytes(rest) is None);
                        }
                    }
                    i = i + 3;
                },
                _ => {
                    proof {
                        assert(dec_bytes(rest) is None);
                    }
                    return Err(FlowError::InvalidBytecode);
                },
            }
        } else {
            let decoded: u8 = if b == 43 {
                32
            } else {
                b
            };
            let ghost pre = out@;
            out.push(decoded);
            proof {
                assert(rest[0] == b);
                assert(rest[0] != 37);
                assert(rest.subrange(1, rest.len() as int) =~= bytes@.subrange(
                    i + 1,
                    n as int,
                ));
                if dec_bytes(bytes@.subrange(i + 1, n as int)) is Some {
                    let t = dec_bytes(bytes@.subrange(i + 1, n as int))->0;
                    assert(dec_bytes(rest) == Some(seq![decoded] + t));
                    assert(pre + (seq![decoded] + t) =~= out@ + t);
                } else {
                    assert(dec_bytes(rest) is None);
                }
            }
            i = i + 1;
        }
    }
    proof {
        let empty = bytes@.subrange(n as int, n as int);
        assert(empty.len() == 0);
        assert(dec_bytes(empty) == Some(Seq::<u8>::empty()));
        assert(out@ + Seq::<u8>::empty() =~= out@);
        assert(dec_bytes(bytes@) == Some(out@));
    }
    let ghost out_bytes = out@;
    match string_from_utf8(out) {
        Some(s) => {
            proof {
                assert(encode_utf8(s@) == out_bytes);
            }
            Ok(s)
        },
        None => Err(FlowError::InvalidBytecode),
    }
}

/// The value of a hexadecimal digit byte.
fn hex_value(b: u8) -> (r: Option<u8>)
    ensures
        r == hex_val(b),
{
    if b >= 48 && b <= 57 {
        Some(b - 48)
    } else if b >= 65 && b <= 70 {
        Some(b - 55)
    } else if b >= 97 && b <= 102 {
        Some(b - 87)
    } else {
        None
    }
}

} // verus!
