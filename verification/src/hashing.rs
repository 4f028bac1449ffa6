//! Content hashes: SHA-256 digests written as lowercase hexadecimal.
use sha2::Digest;
use vstd::prelude::*;

verus! {

/// The SHA-256 digest of a byte string.
pub uninterp spec fn spec_sha256(data: Seq<u8>) -> Seq<u8>;

/// Calls `sha2::Sha256::digest`. Trusted: the result is the digest that the crate
/// computes for `data` (named [`spec_sha256`]), and it is 32 bytes long, the output
/// size that `Sha256` declares.
#[verifier::external_body]
fn sha256_digest(data: &[u8]) -> (r: Vec<u8>)
    ensures
        r@ == spec_sha256(data@),
        r@.len() == 32,
{
    sha2::Sha256::digest(data).to_vec()
}

/// The lowercase hexadecimal digits.
pub open spec fn hex_digits() -> Seq<char> {
    seq!['0', '1', '2', '3', '4', '5', '6', '7', '8', '9', 'a', 'b', 'c', 'd', 'e', 'f']
}

/// Two lowercase hexadecimal digits per byte, high half first.
pub open spec fn lower_hex(bytes: Seq<u8>) -> Seq<char> {
    Seq::new(
        2 * bytes.len(),
        |i: int|
            if i % 2 == 0 {
                hex_digits()[(bytes[i / 2] / 16) as int]
            } else {
                hex_digits()[(bytes[i / 2] % 16) as int]
            },
    )
}

/// The SHA-256 digest of `data` in lowercase hexadecimal.
pub open spec fn spec_sha256_hex(data: Seq<u8>) -> Seq<char> {
    lower_hex(spec_sha256(data))
}

fn hex_digit(n: u8) -> (r: &'static str)
    requires
        n < 16,
    ensures
        r@ == seq![hex_digits()[n as int]],
{
    proof {
        reveal_strlit("0");
        reveal_strlit("1");
        reveal_strlit("2");
        reveal_strlit("3");
        reveal_strlit("4");
        reveal_strlit("5");
        reveal_strlit("6");
        reveal_strlit("7");
        reveal_strlit("8");
        reveal_strlit("9");
        reveal_strlit("a");
        reveal_strlit("b");
        reveal_strlit("c");
        reveal_strlit("d");
        reveal_strlit("e");
        reveal_strlit("f");
    }
    let r = match n {
        0 => "0",
        1 => "1",
        2 => "2",
        3 => "3",
        4 => "4",
        5 => "5",
        6 => "6",
        7 => "7",
        8 => "8",
        9 => "9",
        10 => "a",
        11 => "b",
        12 => "c",
        13 => "d",
        14 => "e",
        _ => "f",
    };
    assert(r@ =~= seq![hex_digits()[n as int]]);
    r
}

/// `bytes` in lowercase hexadecimal, two digits per byte.
pub fn to_lower_hex(bytes: &[u8]) -> (r: String)
    ensures
        r@ == lower_hex(bytes@),
{
    let mut r = String::new();
    let mut i: usize = 0;
    while i < bytes.len()
        invariant
            i <= bytes@.len(),
            r@ == lower_hex(bytes@.take(i as int)),
        decreases bytes@.len() - i,
    {
        let b = bytes[i];
        r.append(hex_digit(b / 16));
        r.append(hex_digit(b % 16));
        i = i + 1;
        assert(r@ =~= lower_hex(bytes@.take(i as int)));
    }
    assert(bytes@.take(bytes@.len() as int) =~= bytes@);
    r
}

/// The SHA-256 hash of file contents, in lowercase hexadecimal.
pub fn hash_file_contents(data: &[u8]) -> (r: String)
    ensures
        r@ == spec_sha256_hex(data@),
        r@.len() == 64,
{
    let digest = sha256_digest(data);
    to_lower_hex(digest.as_slice())
}

} // verus!
