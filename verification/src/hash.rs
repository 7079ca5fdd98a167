//! Content-addressed scope tokens: a 64-bit hash of the stylesheet's text,
//! rendered in base 62 behind a fixed `sc_` prefix.

use crate::chars::{append_str, string_from_chars};
use vstd::arithmetic::div_mod::lemma_div_is_strictly_smaller;
use vstd::prelude::*;

verus! {

/// The 64-bit content hash of a string, as xxHash's XXH3 computes it over
/// the string's UTF-8 bytes.
pub uninterp spec fn xxh3_of(s: Seq<char>) -> u64;

/// Relies on `xxhash_rust::xxh3::xxh3_64`: a pure, unseeded function of its
/// input bytes alone, so byte-identical strings hash identically in every
/// process and on every machine.
#[verifier::external_body]
fn xxh3_of_str(s: &str) -> (r: u64)
    ensures
        r == xxh3_of(s@),
{
    xxhash_rust::xxh3::xxh3_64(s.as_bytes())
}

/// The base-62 digit for `d`: `0`-`9`, then `a`-`z`, then `A`-`Z`.
pub open spec fn b62_digit(d: int) -> char {
    if d < 10 {
        ((48 + d) as u8) as char  // '0' is 48
    } else if d < 36 {
        ((87 + d) as u8) as char  // 'a' is 97, reached at d == 10
    } else {
        ((29 + d) as u8) as char  // 'A' is 65, reached at d == 36
    }
}

/// The base-62 digits of `n`, most significant first; empty for zero.
pub open spec fn b62_spec(n: nat) -> Seq<char>
    decreases n,
    via b62_dec
{
    if n == 0 {
        Seq::empty()
    } else {
        b62_spec(n / 62) + seq![b62_digit((n % 62) as int)]
    }
}

#[via_fn]
proof fn b62_dec(n: nat) {
    if n > 0 {
        lemma_div_is_strictly_smaller(n as int, 62);
    }
}

/// The base-62 rendering of `n`, zero written as the single digit `0`.
pub open spec fn base62_spec(n: nat) -> Seq<char> {
    if n == 0 {
        seq!['0']
    } else {
        b62_spec(n)
    }
}

/// The text whose hash names a stylesheet: the origin when present, a `::`
/// separator, then the content.
pub open spec fn hash_input(content: Seq<char>, origin: Option<Seq<char>>) -> Seq<char> {
    match origin {
        Some(p) => p + seq![':', ':'] + content,
        None => content,
    }
}

/// The scope token of a stylesheet: `sc_` plus the base-62 hash digits.
pub open spec fn token_spec(content: Seq<char>, origin: Option<Seq<char>>) -> Seq<char> {
    seq!['s', 'c', '_'] + base62_spec(xxh3_of(hash_input(content, origin)) as nat)
}

fn digit_char(d: u64) -> (c: char)
    requires
        d < 62,
    ensures
        c == b62_digit(d as int),
{
    if d < 10 {
        (48 + d as u8) as char
    } else if d < 36 {
        (87 + d as u8) as char
    } else {
        (29 + d as u8) as char
    }
}

/// Writes `num` in base 62 with the digits `0-9a-zA-Z`, most significant
/// first; zero becomes `"0"`.
pub fn encode_base62(num: u64) -> (r: String)
    ensures
        r@ == base62_spec(num as nat),
{
    if num == 0 {
        let mut v: Vec<char> = Vec::new();
        v.push('0');
        proof {
            assert(v@ =~= seq!['0']);
        }
        return string_from_chars(&v);
    }
    let mut digits: Vec<char> = Vec::new();
    let mut x: u64 = num;
    while x > 0
        invariant
            b62_spec(num as nat) == b62_spec(x as nat) + digits@,
        decreases x,
    {
        let ghost x0 = x as nat;
        let ghost prev = digits@;
        let d = x % 62;
        let ch = digit_char(d);
        digits.insert(0, ch);
        x = x / 62;
        proof {
            lemma_div_is_strictly_smaller(x0 as int, 62);
            assert(digits@ =~= seq![ch] + prev);
            assert(b62_spec(x0) == b62_spec(x0 / 62) + seq![b62_digit((x0 % 62) as int)]);
            assert(b62_spec(x as nat) + digits@ =~= b62_spec(x0) + prev);
        }
    }
    proof {
        assert(b62_spec(0nat) + digits@ =~= digits@);
    }
    string_from_chars(&digits)
}

/// Derives the deterministic scope token for `content`, mixing in
/// `file_path` when one is given.
pub fn generate_hash(content: &str, file_path: Option<&str>) -> (r: String)
    ensures
        r@ == token_spec(
            content@,
            match file_path {
                Some(p) => Some(p@),
                None => None::<Seq<char>>,
            },
        ),
{
    let mut input: Vec<char> = Vec::new();
    match file_path {
        Some(p) => {
            append_str(&mut input, p);
            append_str(&mut input, "::");
            append_str(&mut input, content);
        },
        None => {
            append_str(&mut input, content);
        },
    }
    proof {
        reveal_strlit("::");
        match file_path {
            Some(p) => {
                assert("::"@ =~= seq![':', ':']);
                assert(input@ =~= hash_input(
                    content@,
                    match file_path {
                        Some(p2) => Some(p2@),
                        None => None::<Seq<char>>,
                    },
                ));
            },
            None => {
                assert(input@ =~= content@);
            },
        }
    }
    let input_s = string_from_chars(&input);
    let h = xxh3_of_str(input_s.as_str());
    let enc = encode_base62(h);
    let mut out: Vec<char> = Vec::new();
    append_str(&mut out, "sc_");
    append_str(&mut out, enc.as_str());
    proof {
        reveal_strlit("sc_");
        assert("sc_"@ =~= seq!['s', 'c', '_']);
        assert(out@ =~= token_spec(
            content@,
            match file_path {
                Some(p) => Some(p@),
                None => None::<Seq<char>>,
            },
        ));
    }
    string_from_chars(&out)
}

} // verus!
