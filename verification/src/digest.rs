//! SHA-256 through the `sha2` crate, and the hex rendering of digests.

use vstd::prelude::*;
use vstd::string::*;
use sha2::Digest;
use crate::text::hex_char;

verus! {

/// The SHA-256 digest of a byte string, as the `sha2` crate computes it.
pub uninterp spec fn sha256(data: Seq<u8>) -> Seq<u8>;

/// `sha2::Sha256::digest`: the digest is a function of the bytes alone and
/// is 32 bytes long. What the 32 bytes are is not stated here: the library
/// only hashes and compares, and never depends on a particular value.
#[verifier::external_body]
pub(crate) fn sha256_digest(data: &[u8]) -> (r: Vec<u8>)
    ensures
        r@ == sha256(data@),
        r@.len() == 32,
{
    sha2::Sha256::digest(data).to_vec()
}

/// One byte as two lower-case hex digits (`{:02x}`).
pub open spec fn hex_byte(b: u8) -> Seq<char> {
    seq![hex_char((b / 16) as nat), hex_char((b % 16) as nat)]
}

/// Bytes as lower-case hex, two digits each.
pub open spec fn hex(bytes: Seq<u8>) -> Seq<char>
    decreases bytes.len(),
{
    if bytes.len() == 0 {
        Seq::empty()
    } else {
        hex(bytes.drop_last()) + hex_byte(bytes.last())
    }
}

fn hex_digit(d: u8) -> (r: &'static str)
    requires
        d < 16,
    ensures
        r@ == seq![hex_char(d as nat)],
{
    proof {
        reveal_strlit("0123456789abcdef");
    }
    let r = "0123456789abcdef".substring_char(d as usize, d as usize + 1);
    proof {
        assert(r@[0] == "0123456789abcdef"@[d as int]);
        assert(r@ =~= seq![hex_char(d as nat)]);
    }
    r
}

/// The first `n` bytes of `bytes` in hex.
pub fn hex_prefix(bytes: &[u8], n: usize) -> (r: String)
    requires
        n <= bytes@.len(),
    ensures
        r@ == hex(bytes@.take(n as int)),
{
    let mut out = String::new();
    let mut i: usize = 0;
    proof {
        assert(bytes@.take(0) =~= Seq::<u8>::empty());
    }
    while i < n
        invariant
            i <= n <= bytes@.len(),
            out@ == hex(bytes@.take(i as int)),
        decreases n - i,
    {
        let b = bytes[i];
        out.append(hex_digit(b / 16));
        out.append(hex_digit(b % 16));
        proof {
            assert(bytes@.take(i + 1).drop_last() =~= bytes@.take(i as int));
            assert(bytes@.take(i + 1).last() == b);
            assert(out@ =~= hex(bytes@.take(i as int)) + hex_byte(b));
        }
        i += 1;
    }
    out
}

/// Hex sha256 of arbitrary bytes.
pub fn sha256_hex(bytes: &[u8]) -> (r: String)
    ensures
        r@ == hex(sha256(bytes@)),
{
    let d = sha256_digest(bytes);
    let r = hex_prefix(d.as_slice(), d.len());
    proof {
        assert(d@.take(d@.len() as int) =~= d@);
    }
    r
}

} // verus!
