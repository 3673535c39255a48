//! SHA-256 digests written as lowercase hexadecimal text.
use sha2::Digest;
use vstd::prelude::*;

verus! {

/// The SHA-256 digest of a byte sequence.
pub uninterp spec fn sha256_of(data: Seq<u8>) -> Seq<u8>;

/// The lowercase hexadecimal digit for a value below sixteen.
pub open spec fn hex_digit(n: u8) -> char {
    if n == 0 {
        '0'
    } else if n == 1 {
        '1'
    } else if n == 2 {
        '2'
    } else if n == 3 {
        '3'
    } else if n == 4 {
        '4'
    } else if n == 5 {
        '5'
    } else if n == 6 {
        '6'
    } else if n == 7 {
        '7'
    } else if n == 8 {
        '8'
    } else if n == 9 {
        '9'
    } else if n == 10 {
        'a'
    } else if n == 11 {
        'b'
    } else if n == 12 {
        'c'
    } else if n == 13 {
        'd'
    } else if n == 14 {
        'e'
    } else {
        'f'
    }
}

/// Two lowercase hex digits per byte, high nibble first.
pub open spec fn hex_of(data: Seq<u8>) -> Seq<char>
    decreases data.len(),
{
    if data.len() == 0 {
        Seq::empty()
    } else {
        let b = data.last();
        hex_of(data.drop_last()) + seq![hex_digit(b / 16), hex_digit(b % 16)]
    }
}

/// The hex text of the SHA-256 digest of `data`.
pub open spec fn digest_hex(data: Seq<u8>) -> Seq<char> {
    hex_of(sha256_of(data))
}

/// Relies on sha2::Sha256::digest: the 32-byte SHA-256 digest of the input.
#[verifier::external_body]
fn sha256(data: &[u8]) -> (r: Vec<u8>)
    ensures
        r@ == sha256_of(data@),
        r@.len() == 32,
{
    sha2::Sha256::digest(data).to_vec()
}

/// Relies on hex::encode: each byte becomes two lowercase hex digits, in order.
#[verifier::external_body]
fn to_hex(data: &[u8]) -> (r: String)
    ensures
        r@ == hex_of(data@),
{
    hex::encode(data)
}

/// Hex-encoded SHA-256 digest of `data`.
pub fn sha256_hex(data: &[u8]) -> (r: String)
    ensures
        r@ == digest_hex(data@),
        r@.len() == 64,
        is_lower_hex(r@),
{
    let d = sha256(data);
    proof {
        lemma_hex_len(d@);
        lemma_hex_digits(d@);
    }
    to_hex(d.as_slice())
}

/// Every character is one of `0-9a-f`.
pub open spec fn is_lower_hex(s: Seq<char>) -> bool {
    forall|i: int| 0 <= i < s.len() ==> ('0' <= #[trigger] s[i] <= '9' || 'a' <= s[i] <= 'f')
}

/// Hex text holds only lowercase hex digits.
pub proof fn lemma_hex_digits(a: Seq<u8>)
    ensures
        is_lower_hex(hex_of(a)),
    decreases a.len(),
{
    if a.len() > 0 {
        lemma_hex_digits(a.drop_last());
        let b = a.last();
        let t = hex_of(a.drop_last());
        let p = seq![hex_digit(b / 16), hex_digit(b % 16)];
        assert(hex_of(a) == t + p);
        assert forall|i: int| 0 <= i < hex_of(a).len() implies ('0' <= #[trigger] hex_of(a)[i] <= '9'
            || 'a' <= hex_of(a)[i] <= 'f') by {
            if i < t.len() {
                assert(hex_of(a)[i] == t[i]);
            } else {
                assert(hex_of(a)[i] == p[i - t.len()]);
            }
        }
    }
}

/// Distinct byte sequences have distinct hex texts.
pub proof fn lemma_hex_injective(a: Seq<u8>, b: Seq<u8>)
    requires
        hex_of(a) == hex_of(b),
    ensures
        a == b,
    decreases a.len(),
{
    lemma_hex_len(a);
    lemma_hex_len(b);
    if a.len() > 0 {
        let ha = hex_of(a.drop_last());
        let hb = hex_of(b.drop_last());
        lemma_hex_len(a.drop_last());
        lemma_hex_len(b.drop_last());
        let n = ha.len() as int;
        let x = a.last();
        let y = b.last();
        let pa = seq![hex_digit(x / 16), hex_digit(x % 16)];
        let pb = seq![hex_digit(y / 16), hex_digit(y % 16)];
        assert(hex_of(a) == ha + pa);
        assert(hex_of(b) == hb + pb);
        assert((ha + pa)[n] == pa[0]);
        assert((hb + pb)[n] == pb[0]);
        assert((ha + pa)[n + 1] == pa[1]);
        assert((hb + pb)[n + 1] == pb[1]);
        assert(x / 16 == y / 16 && x % 16 == y % 16);
        assert(ha =~= hex_of(a).subrange(0, n));
        assert(hb =~= hex_of(b).subrange(0, n));
        lemma_hex_injective(a.drop_last(), b.drop_last());
        assert(a =~= a.drop_last().push(x));
        assert(b =~= b.drop_last().push(y));
    }
}

/// The hex text is twice as long as its bytes.
pub proof fn lemma_hex_len(a: Seq<u8>)
    ensures
        hex_of(a).len() == 2 * a.len(),
    decreases a.len(),
{
    if a.len() > 0 {
        lemma_hex_len(a.drop_last());
    }
}

} // verus!
