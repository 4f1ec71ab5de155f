//! Byte-level helpers for building strings with exact contracts.
//!
//! Diagnostic messages and the persisted-state codec are assembled as UTF-8
//! byte vectors and converted to `String` at the end, so every contract can
//! speak about the precise character sequence that comes out.

use vstd::prelude::*;
use vstd::string::StringSliceAdditionalSpecFns;
use vstd::utf8::encode_utf8;
use vstd::utf8::encode_utf8_decode_utf8;
use vstd::utf8::encode_utf8_valid_utf8;
use vstd::utf8::valid_utf8;

verus! {

/// Decimal digit bytes of `n`, most significant digit first, no leading zeros.
pub open spec fn dec_rep(n: nat) -> Seq<u8>
    decreases n,
{
    if n < 10 {
        seq![(0x30 + n) as u8]
    } else {
        dec_rep(n / 10) + seq![(0x30 + n % 10) as u8]
    }
}

/// UTF-8 encoding distributes over concatenation of character sequences.
pub proof fn lemma_encode_concat(a: Seq<char>, b: Seq<char>)
    ensures
        encode_utf8(a + b) == encode_utf8(a) + encode_utf8(b),
    decreases a.len(),
{
    if a.len() == 0 {
        assert(a + b =~= b);
        assert(encode_utf8(a) + encode_utf8(b) =~= encode_utf8(b));
    } else {
        assert((a + b).drop_first() =~= a.drop_first() + b);
        lemma_encode_concat(a.drop_first(), b);
        assert((a + b)[0] == a[0]);
        assert(encode_utf8(a + b) =~= encode_utf8(a) + encode_utf8(b));
    }
}

/// UTF-8 encoding is injective on character sequences.
pub proof fn lemma_encode_injective(a: Seq<char>, b: Seq<char>)
    requires
        encode_utf8(a) == encode_utf8(b),
    ensures
        a == b,
{
    encode_utf8_decode_utf8(a);
    encode_utf8_decode_utf8(b);
}

/// Appends all bytes of `s` to `out`.
pub fn append_bytes(out: &mut Vec<u8>, s: &[u8])
    ensures
        final(out)@ == old(out)@ + s@,
{
    let n: usize = s.len();
    let mut i: usize = 0;
    while i < n
        invariant
            i <= n,
            n == s@.len(),
            out@ == old(out)@ + s@.take(i as int),
        decreases n - i,
    {
        out.push(s[i]);
        i = i + 1;
        proof {
            assert(old(out)@ + s@.take(i as int) =~= out@);
        }
    }
    proof {
        assert(s@.take(n as int) =~= s@);
    }
}

/// Appends the UTF-8 bytes of `s` to `out`.
pub fn append_str(out: &mut Vec<u8>, s: &str)
    ensures
        final(out)@ == old(out)@ + encode_utf8(s@),
{
    append_bytes(out, s.as_bytes());
}

/// Appends the decimal digits of `n` to `out`.
pub fn append_u64(out: &mut Vec<u8>, n: u64)
    ensures
        final(out)@ == old(out)@ + dec_rep(n as nat),
    decreases n,
{
    if n < 10 {
        out.push(0x30u8 + (n as u8));
        proof {
            assert(old(out)@ + dec_rep(n as nat) =~= out@);
        }
    } else {
        append_u64(out, n / 10);
        out.push(0x30u8 + ((n % 10) as u8));
        proof {
            assert(old(out)@ + dec_rep(n as nat) =~= out@);
        }
    }
}

/// Relies on `String::from_utf8`: it returns `Ok` exactly when the bytes are
/// valid UTF-8, and the returned string's UTF-8 encoding is those bytes.
#[verifier::external_body]
pub(crate) fn bytes_into_string(v: Vec<u8>) -> (r: Option<String>)
    ensures
        r is Some <==> valid_utf8(v@),
        r matches Some(s) ==> encode_utf8(s@) == v@,
{
    String::from_utf8(v).ok()
}

/// Converts known-valid UTF-8 bytes into the string they encode.
pub fn string_of_bytes(v: Vec<u8>) -> (r: String)
    requires
        valid_utf8(v@),
    ensures
        encode_utf8(r@) == v@,
{
    match bytes_into_string(v) {
        Some(s) => s,
        None => vstd::pervasive::unreached(),
    }
}

/// Concatenation of two character sequences, realised on strings.
pub fn concat2(a: &str, b: &str) -> (r: String)
    ensures
        r@ == a@ + b@,
{
    let mut out: Vec<u8> = Vec::new();
    append_str(&mut out, a);
    append_str(&mut out, b);
    proof {
        lemma_encode_concat(a@, b@);
        encode_utf8_valid_utf8(a@ + b@);
        assert(out@ =~= encode_utf8(a@ + b@));
    }
    let r = string_of_bytes(out);
    proof {
        lemma_encode_injective(r@, a@ + b@);
    }
    r
}

/// Concatenation of three character sequences, realised on strings.
pub fn concat3(a: &str, b: &str, c: &str) -> (r: String)
    ensures
        r@ == a@ + b@ + c@,
{
    let mut out: Vec<u8> = Vec::new();
    append_str(&mut out, a);
    append_str(&mut out, b);
    append_str(&mut out, c);
    proof {
        lemma_encode_concat(a@, b@);
        lemma_encode_concat(a@ + b@, c@);
        encode_utf8_valid_utf8(a@ + b@ + c@);
        assert(out@ =~= encode_utf8(a@ + b@ + c@));
    }
    let r = string_of_bytes(out);
    proof {
        lemma_encode_injective(r@, a@ + b@ + c@);
    }
    r
}

/// The views of a sequence of strings.
pub open spec fn string_views(s: Seq<String>) -> Seq<Seq<char>> {
    s.map_values(|x: String| x@)
}

/// `xs` joined with `sep` between neighbours.
pub open spec fn spec_join_with(sep: Seq<char>, xs: Seq<Seq<char>>) -> Seq<char>
    decreases xs.len(),
{
    if xs.len() == 0 {
        Seq::empty()
    } else if xs.len() == 1 {
        xs[0]
    } else {
        spec_join_with(sep, xs.drop_last()) + sep + xs.last()
    }
}

/// Joins the strings with `sep` between neighbours.
pub fn join_with(sep: &str, v: &Vec<String>) -> (r: String)
    ensures
        r@ == spec_join_with(sep@, string_views(v@)),
{
    let n: usize = v.len();
    let mut out: Vec<u8> = Vec::new();
    let mut i: usize = 0;
    while i < n
        invariant
            i <= n,
            n == v@.len(),
            out@ == encode_utf8(spec_join_with(sep@, string_views(v@.take(i as int)))),
        decreases n - i,
    {
        if i > 0 {
            append_str(&mut out, sep);
        }
        append_str(&mut out, v[i].as_str());
        i = i + 1;
        proof {
            let prev = string_views(v@.take(i - 1));
            let now = string_views(v@.take(i as int));
            assert(now.drop_last() =~= prev);
            assert(now.last() == v@[i - 1]@);
            if i == 1 {
                assert(spec_join_with(sep@, now) == v@[0]@);
                assert(out@ =~= encode_utf8(spec_join_with(sep@, now)));
            } else {
                lemma_encode_concat(spec_join_with(sep@, prev), sep@);
                lemma_encode_concat(spec_join_with(sep@, prev) + sep@, v@[i - 1]@);
                assert(out@ =~= encode_utf8(spec_join_with(sep@, now)));
            }
        }
    }
    proof {
        assert(v@.take(n as int) =~= v@);
        encode_utf8_valid_utf8(spec_join_with(sep@, string_views(v@)));
    }
    let r = string_of_bytes(out);
    proof {
        lemma_encode_injective(r@, spec_join_with(sep@, string_views(v@)));
    }
    r
}

/// Decimal digit characters of `n`, most significant digit first.
pub open spec fn dec_chars(n: nat) -> Seq<char>
    decreases n,
{
    if n < 10 {
        seq![((0x30 + n) as u8) as char]
    } else {
        dec_chars(n / 10) + seq![((0x30 + n % 10) as u8) as char]
    }
}

/// A 7-bit byte cast to `char` encodes back to exactly that byte.
proof fn lemma_ascii_char_encode(b: u8)
    requires
        b < 0x80,
    ensures
        encode_utf8(seq![b as char]) == seq![b],
{
    let c = b as char;
    let s: u32 = c as u32;
    assert(s == b as u32);
    assert(s & 0x7F == s) by (bit_vector)
        requires
            s < 0x80,
    ;
    assert(seq![c].drop_first() =~= Seq::<char>::empty());
    assert(vstd::utf8::has_width_1_encoding(s));
    assert(vstd::utf8::encode_scalar(s) == seq![(s & 0x7F) as u8]);
    assert((s & 0x7F) as u8 == b);
    assert(encode_utf8(seq![c]) == vstd::utf8::encode_scalar(c as u32) + encode_utf8(
        seq![c].drop_first(),
    ));
    assert(encode_utf8(seq![c]) =~= seq![b]);
}

/// The digit characters encode to the digit bytes.
pub proof fn lemma_dec_chars_bytes(n: nat)
    ensures
        encode_utf8(dec_chars(n)) == dec_rep(n),
    decreases n,
{
    if n < 10 {
        lemma_ascii_char_encode((0x30 + n) as u8);
        assert(dec_chars(n) =~= seq![((0x30 + n) as u8) as char]);
        assert(encode_utf8(dec_chars(n)) =~= dec_rep(n));
    } else {
        lemma_dec_chars_bytes(n / 10);
        lemma_ascii_char_encode((0x30 + n % 10) as u8);
        let c = ((0x30 + n % 10) as u8) as char;
        lemma_encode_concat(dec_chars(n / 10), seq![c]);
        assert(encode_utf8(dec_chars(n)) =~= dec_rep(n));
    }
}

/// True when `name` occurs among the strings.
pub fn contains_string(v: &Vec<String>, name: &str) -> (r: bool)
    ensures
        r == string_views(v@).contains(name@),
{
    let name_s: String = name.to_owned();
    let n: usize = v.len();
    let mut i: usize = 0;
    while i < n
        invariant
            i <= n,
            n == v@.len(),
            name_s@ == name@,
            forall|k: int| 0 <= k < i ==> string_views(v@)[k] != name@,
        decreases n - i,
    {
        if v[i] == name_s {
            proof {
                assert(string_views(v@)[i as int] == name@);
            }
            return true;
        }
        i = i + 1;
    }
    proof {
        assert(!string_views(v@).contains(name@));
    }
    false
}

/// Clones each string; the sequence of values carries over exactly.
pub fn clone_string_vec(v: &Vec<String>) -> (r: Vec<String>)
    ensures
        r@ == v@,
{
    let n: usize = v.len();
    let mut out: Vec<String> = Vec::new();
    let mut i: usize = 0;
    while i < n
        invariant
            i <= n,
            n == v@.len(),
            out@ == v@.take(i as int),
        decreases n - i,
    {
        out.push(v[i].clone());
        proof {
            assert(out@ =~= v@.take(i + 1));
        }
        i = i + 1;
    }
    proof {
        assert(v@.take(n as int) =~= v@);
    }
    out
}

} // verus!
