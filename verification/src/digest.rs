//! SHA-1 digests and their hexadecimal form.
use vstd::prelude::*;

verus! {

/// The SHA-1 digest of `data`, as `sha1::Sha1` computes it.
pub uninterp spec fn sha1_digest(data: Seq<u8>) -> Seq<u8>;

/// `<sha1::Sha1 as sha1::Digest>::digest`: the digest depends on the data alone
/// and is 20 bytes long.
#[verifier::external_body]
pub(crate) fn sha1(data: &[u8]) -> (d: Vec<u8>)
    ensures
        d@ == sha1_digest(data@),
        d@.len() == 20,
{
    <sha1::Sha1 as sha1::Digest>::digest(data).to_vec()
}

/// The hexadecimal digit of value `d`, in lower case.
pub open spec fn hex_digit(d: nat) -> char {
    if d < 10 {
        (48 + d) as char
    } else {
        (87 + d) as char
    }
}

/// Whether `c` is a lower case hexadecimal digit.
pub open spec fn is_hex(c: char) -> bool {
    '0' <= c <= '9' || 'a' <= c <= 'f'
}

/// Two lower case hexadecimal digits for each byte, high half first.
pub open spec fn hex(bytes: Seq<u8>) -> Seq<char> {
    Seq::new(
        2 * bytes.len(),
        |i: int|
            if i % 2 == 0 {
                hex_digit(bytes[i / 2] as nat / 16)
            } else {
                hex_digit(bytes[i / 2] as nat % 16)
            },
    )
}

fn hex_char(d: u8) -> (c: char)
    requires
        d < 16,
    ensures
        c == hex_digit(d as nat),
{
    if d < 10 {
        (48u8 + d) as char
    } else {
        (87u8 + d) as char
    }
}

/// Two lower case hexadecimal digits for each of the first `n` bytes.
fn hex_of_first(bytes: &[u8], n: usize) -> (s: String)
    requires
        n <= bytes@.len(),
    ensures
        s@ == hex(bytes@.take(n as int)),
{
    let mut s: String = String::new();
    let mut i: usize = 0;
    while i < n
        invariant
            i <= n <= bytes@.len(),
            s@ == hex(bytes@.take(i as int)),
        decreases n - i,
    {
        let b = bytes[i];
        s.push(hex_char(b / 16));
        s.push(hex_char(b % 16));
        proof {
            assert(s@ =~= hex(bytes@.take(i + 1)));
        }
        i = i + 1;
    }
    s
}

/// Two lower case hexadecimal digits for each byte.
pub fn hex_encode(bytes: &[u8]) -> (s: String)
    ensures
        s@ == hex(bytes@),
{
    proof {
        assert(bytes@.take(bytes@.len() as int) == bytes@);
    }
    hex_of_first(bytes, bytes.len())
}

/// The SHA-1 digest of the UTF-8 bytes of `s`, in hexadecimal.
pub open spec fn sha1_hex(s: Seq<char>) -> Seq<char> {
    hex(sha1_digest(vstd::utf8::encode_utf8(s)))
}

/// The first `n` bytes of the SHA-1 digest of the UTF-8 bytes of `s`, in
/// hexadecimal.
pub open spec fn short_hash(s: Seq<char>, n: int) -> Seq<char> {
    hex(sha1_digest(vstd::utf8::encode_utf8(s)).take(n))
}

/// The SHA-1 digest of the UTF-8 bytes of `s`, in 40 hexadecimal digits.
pub fn sha1_text(s: &str) -> (r: String)
    ensures
        r@ == sha1_hex(s@),
        r@.len() == 40,
{
    let d = sha1(s.as_bytes());
    hex_encode(d.as_slice())
}

/// The first `n` bytes of the SHA-1 digest of the UTF-8 bytes of `s`, in
/// hexadecimal.
pub(crate) fn short_hash_text(s: &str, n: usize) -> (r: String)
    requires
        n <= 20,
    ensures
        r@ == short_hash(s@, n as int),
        sha1_digest(vstd::utf8::encode_utf8(s@)).len() == 20,
        r@.len() == 2 * n,
{
    let d = sha1(s.as_bytes());
    hex_of_first(d.as_slice(), n)
}

/// Each byte is written as two digits, the sixteens before the ones.
pub proof fn law_hex_of_bytes(bytes: Seq<u8>, i: int)
    requires
        0 <= i < bytes.len(),
    ensures
        hex(bytes).len() == 2 * bytes.len(),
        hex(bytes)[2 * i] == "0123456789abcdef"@[bytes[i] as int / 16],
        hex(bytes)[2 * i + 1] == "0123456789abcdef"@[bytes[i] as int % 16],
{
    reveal_strlit("0123456789abcdef");
    let b = bytes[i] as int;
    assert((2 * i + 1) / 2 == i && (2 * i) / 2 == i);
    lemma_hex_digit(b as nat / 16);
    lemma_hex_digit(b as nat % 16);
}

proof fn lemma_hex_digit(d: nat)
    requires
        d < 16,
    ensures
        hex_digit(d) == "0123456789abcdef"@[d as int],
{
    reveal_strlit("0123456789abcdef");
    assert(d == 0 || d == 1 || d == 2 || d == 3 || d == 4 || d == 5 || d == 6 || d == 7 || d == 8
        || d == 9 || d == 10 || d == 11 || d == 12 || d == 13 || d == 14 || d == 15);
}

/// A short hash is the start of the whole one.
pub proof fn law_short_hash_starts_the_whole(s: Seq<char>, n: int)
    requires
        0 <= n <= sha1_digest(vstd::utf8::encode_utf8(s)).len(),
    ensures
        short_hash(s, n) == hex(sha1_digest(vstd::utf8::encode_utf8(s))).take(2 * n),
        short_hash(s, n).is_prefix_of(sha1_hex(s)),
{
    let d = sha1_digest(vstd::utf8::encode_utf8(s));
    assert(hex(d.take(n)) =~= hex(d).take(2 * n));
}

} // verus!
