//! Content hashes: SHA-256 digests written as lower-case hexadecimal.
use vstd::prelude::*;
use crate::text::string_from_chars;

verus! {

/// The SHA-256 digest of `data`.
pub uninterp spec fn sha256(data: Seq<u8>) -> Seq<u8>;

/// The SHA-256 digest of `data` (`sha2::Sha256::digest`). Claimed: the
/// digest is the one that `data` determines, and it is 32 bytes long, the
/// output size of SHA-256.
#[verifier::external_body]
fn sha256_digest(data: &[u8]) -> (d: Vec<u8>)
    ensures
        d@ == sha256(data@),
        d@.len() == 32,
{
    <sha2::Sha256 as sha2::Digest>::digest(data).to_vec()
}

/// The lower-case hexadecimal digit for `n < 16`.
pub open spec fn hex_digit(n: nat) -> char {
    if n < 10 {
        ((48 + n) as u8) as char
    } else {
        ((87 + n) as u8) as char
    }
}

/// `bytes` written as lower-case hexadecimal, two digits per byte.
pub open spec fn hex_lower(bytes: Seq<u8>) -> Seq<char>
    decreases bytes.len(),
{
    if bytes.len() == 0 {
        Seq::<char>::empty()
    } else {
        seq![hex_digit((bytes[0] / 16) as nat), hex_digit((bytes[0] % 16) as nat)] + hex_lower(
            bytes.drop_first(),
        )
    }
}

/// The digit for the nibble `n`.
fn hex_char(n: u8) -> (c: char)
    requires
        n < 16,
    ensures
        c == hex_digit(n as nat),
{
    if n < 10 {
        (48u8 + n) as char
    } else {
        (87u8 + n) as char
    }
}

/// `hex_lower` of a sequence extended by one byte.
proof fn lemma_hex_lower_push(bytes: Seq<u8>, b: u8)
    ensures
        hex_lower(bytes.push(b)) == hex_lower(bytes) + seq![
            hex_digit((b / 16) as nat),
            hex_digit((b % 16) as nat),
        ],
    decreases bytes.len(),
{
    if bytes.len() == 0 {
        assert(bytes.push(b).drop_first() =~= Seq::<u8>::empty());
        assert(hex_lower(Seq::<u8>::empty()) =~= Seq::<char>::empty());
        assert(hex_lower(bytes.push(b)) =~= seq![
            hex_digit((b / 16) as nat),
            hex_digit((b % 16) as nat),
        ]);
    } else {
        lemma_hex_lower_push(bytes.drop_first(), b);
        assert(bytes.push(b).drop_first() =~= bytes.drop_first().push(b));
        assert(hex_lower(bytes.push(b)) =~= hex_lower(bytes) + seq![
            hex_digit((b / 16) as nat),
            hex_digit((b % 16) as nat),
        ]);
    }
}

/// `bytes` written as lower-case hexadecimal.
pub fn to_hex_lower(bytes: &[u8]) -> (s: String)
    ensures
        s@ == hex_lower(bytes@),
{
    let mut out: Vec<char> = Vec::new();
    let mut i: usize = 0;
    assert(bytes@.take(0) =~= Seq::<u8>::empty());
    while i < bytes.len()
        invariant
            0 <= i <= bytes@.len(),
            out@ == hex_lower(bytes@.take(i as int)),
        decreases bytes@.len() - i,
    {
        let b = bytes[i];
        out.push(hex_char(b / 16));
        out.push(hex_char(b % 16));
        proof {
            lemma_hex_lower_push(bytes@.take(i as int), b);
            assert(bytes@.take(i + 1) =~= bytes@.take(i as int).push(b));
        }
        i = i + 1;
    }
    assert(bytes@.take(i as int) =~= bytes@);
    string_from_chars(&out)
}

/// The SHA-256 digest of `data`, in lower-case hexadecimal.
pub fn sha256_hex(data: &[u8]) -> (s: String)
    ensures
        s@ == hex_lower(sha256(data@)),
        s@.len() == 64,
{
    let d = sha256_digest(data);
    let s = to_hex_lower(d.as_slice());
    proof {
        law_hex_length(d@);
    }
    s
}

/// Hexadecimal takes two digits per byte.
pub proof fn law_hex_length(bytes: Seq<u8>)
    ensures
        hex_lower(bytes).len() == 2 * bytes.len(),
    decreases bytes.len(),
{
    if bytes.len() > 0 {
        law_hex_length(bytes.drop_first());
    }
}

/// Distinct nibbles have distinct digits.
proof fn lemma_hex_digit_injective(a: nat, b: nat)
    requires
        a < 16,
        b < 16,
        hex_digit(a) == hex_digit(b),
    ensures
        a == b,
{
    assert(hex_digit(a) as u32 == (if a < 10 { 48 + a } else { 87 + a }));
    assert(hex_digit(b) as u32 == (if b < 10 { 48 + b } else { 87 + b }));
}

/// Hexadecimal is one-to-one: two byte strings with the same hexadecimal
/// are the same, so distinct contents keep distinct hashes' texts apart.
pub proof fn law_hex_injective(a: Seq<u8>, b: Seq<u8>)
    requires
        hex_lower(a) == hex_lower(b),
    ensures
        a == b,
    decreases a.len(),
{
    law_hex_length(a);
    law_hex_length(b);
    if a.len() > 0 {
        let ha = hex_lower(a);
        let hb = hex_lower(b);
        assert(ha[0] == hex_digit((a[0] / 16) as nat));
        assert(hb[0] == hex_digit((b[0] / 16) as nat));
        assert(ha[1] == hex_digit((a[0] % 16) as nat));
        assert(hb[1] == hex_digit((b[0] % 16) as nat));
        lemma_hex_digit_injective((a[0] / 16) as nat, (b[0] / 16) as nat);
        lemma_hex_digit_injective((a[0] % 16) as nat, (b[0] % 16) as nat);
        assert(a[0] == b[0]);
        assert(ha.skip(2) =~= hex_lower(a.drop_first()));
        assert(hb.skip(2) =~= hex_lower(b.drop_first()));
        law_hex_injective(a.drop_first(), b.drop_first());
        assert forall|i: int| 0 <= i < a.len() implies a[i] == b[i] by {
            if i > 0 {
                assert(a[i] == a.drop_first()[i - 1]);
                assert(b[i] == b.drop_first()[i - 1]);
            }
        }
        assert(a =~= b);
    } else {
        assert(a =~= b);
    }
}

/// A lower-case hexadecimal digit: `0` to `9` or `a` to `f`.
pub open spec fn is_hex_lower_digit(c: char) -> bool {
    ('0' <= c <= '9') || ('a' <= c <= 'f')
}

/// The value of a lower-case hexadecimal digit.
pub open spec fn hex_value(c: char) -> int {
    if '0' <= c <= '9' {
        c as int - '0' as int
    } else {
        c as int - 'a' as int + 10
    }
}

/// The digit for a nibble is a lower-case hexadecimal digit of that value.
proof fn lemma_hex_digit_value(n: nat)
    requires
        n < 16,
    ensures
        is_hex_lower_digit(hex_digit(n)),
        hex_value(hex_digit(n)) == n,
{
    assert(hex_digit(n) as u32 == (if n < 10 { 48 + n } else { 87 + n }));
}

/// Hexadecimal writes byte `i` as the lower-case digits `2 i` and `2 i + 1`,
/// the high nibble first: their values give the byte back.
pub proof fn law_hex_reads_back(bytes: Seq<u8>)
    ensures
        forall|i: int|
            0 <= i < bytes.len() ==> {
                &&& is_hex_lower_digit(#[trigger] hex_lower(bytes)[2 * i])
                &&& is_hex_lower_digit(hex_lower(bytes)[2 * i + 1])
                &&& hex_value(hex_lower(bytes)[2 * i]) * 16 + hex_value(hex_lower(bytes)[2 * i + 1])
                    == bytes[i]
            },
    decreases bytes.len(),
{
    law_hex_length(bytes);
    if bytes.len() > 0 {
        let h = hex_lower(bytes);
        let rest = bytes.drop_first();
        law_hex_reads_back(rest);
        law_hex_length(rest);
        lemma_hex_digit_value((bytes[0] / 16) as nat);
        lemma_hex_digit_value((bytes[0] % 16) as nat);
        assert forall|i: int| 0 <= i < bytes.len() implies {
            &&& is_hex_lower_digit(#[trigger] h[2 * i])
            &&& is_hex_lower_digit(h[2 * i + 1])
            &&& hex_value(h[2 * i]) * 16 + hex_value(h[2 * i + 1]) == bytes[i]
        } by {
            if i == 0 {
                assert(h[0] == hex_digit((bytes[0] / 16) as nat));
                assert(h[1] == hex_digit((bytes[0] % 16) as nat));
            } else {
                assert(h[2 * i] == hex_lower(rest)[2 * (i - 1)]);
                assert(h[2 * i + 1] == hex_lower(rest)[2 * (i - 1) + 1]);
                assert(bytes[i] == rest[i - 1]);
            }
        }
    }
}

} // verus!
