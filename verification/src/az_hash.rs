use vstd::prelude::*;
use vstd::arithmetic::div_mod::lemma_div_denominator;
use sha2::Digest;
use crate::activity::Activity;
use crate::day::{Blocker, Day};

verus! {

/// Number of base-26 digits needed to cover every u64 value.
pub const U64_MAX_AZ_HASH_LEN: usize = 14;

pub uninterp spec fn sha256_of(data: Seq<u8>) -> Seq<u8>;

/// Relies on sha2::Sha256::digest: the 32-byte digest is a function of the
/// input bytes alone.
#[verifier::external_body]
fn sha256_digest(data: &Vec<u8>) -> (r: Vec<u8>)
    ensures
        r@ == sha256_of(data@),
        r@.len() == 32,
{
    sha2::Sha256::digest(data.as_slice()).to_vec()
}

pub open spec fn pow256(n: nat) -> int
    decreases n,
{
    if n == 0 {
        1
    } else {
        256 * pow256((n - 1) as nat)
    }
}

proof fn lemma_pow256_monotone(a: nat, b: nat)
    requires
        a <= b,
    ensures
        1 <= pow256(a) <= pow256(b),
    decreases b,
{
    if b > 0 {
        if a == b {
            lemma_pow256_monotone(0, (b - 1) as nat);
        } else {
            lemma_pow256_monotone(a, (b - 1) as nat);
        }
    }
}

/// The letter standing for one base-26 digit.
pub open spec fn az_digit(d: int) -> char
    recommends
        0 <= d < 26,
{
    ((97 + d) as u8) as char
}

/// The base-26 digits of `n`, least significant first, as letters.
pub open spec fn az_of_u64(n: int, count: nat) -> Seq<char>
    decreases count,
{
    if count == 0 {
        Seq::empty()
    } else {
        seq![az_digit(n % 26)] + az_of_u64(n / 26, (count - 1) as nat)
    }
}

/// The little-endian value of a byte string.
pub open spec fn le_value(bytes: Seq<u8>) -> int
    decreases bytes.len(),
{
    if bytes.len() == 0 {
        0
    } else {
        bytes[0] + 256 * le_value(bytes.drop_first())
    }
}

/// The letters encoding of a byte string: each group of up to eight bytes
/// becomes the fourteen base-26 digits of its little-endian value.
pub open spec fn az_encode(bytes: Seq<u8>) -> Seq<char>
    decreases bytes.len(),
{
    if bytes.len() == 0 {
        Seq::empty()
    } else {
        let c: int = if bytes.len() < 8 {
            bytes.len() as int
        } else {
            8
        };
        az_of_u64(le_value(bytes.take(c)), U64_MAX_AZ_HASH_LEN as nat) + az_encode(
            bytes.skip(c))
    }
}

proof fn lemma_pow256_values()
    ensures
        pow256(7) == 0x100_0000_0000_0000,
        pow256(8) == 0x1_0000_0000_0000_0000,
{
    assert(pow256(0) == 1);
    assert(pow256(1) == 256);
    assert(pow256(2) == 0x10000);
    assert(pow256(3) == 0x100_0000);
    assert(pow256(4) == 0x1_0000_0000);
    assert(pow256(5) == 0x100_0000_0000);
    assert(pow256(6) == 0x1_0000_0000_0000);
    assert(pow256(7) == 0x100_0000_0000_0000);
    assert(pow256(8) == 0x1_0000_0000_0000_0000);
}

/// Encode bytes as letters a-z, group by group.
pub fn az_encode_bytes(bytes: &Vec<u8>) -> (r: String)
    ensures
        r@ == az_encode(bytes@),
{
    let mut result = String::new();
    let mut i: usize = 0;
    proof {
        assert(bytes@.skip(0) =~= bytes@);
        assert(result@ + az_encode(bytes@) =~= az_encode(bytes@));
    }
    while i < bytes.len()
        invariant
            0 <= i <= bytes@.len(),
            az_encode(bytes@) =~= result@ + az_encode(bytes@.skip(i as int)),
        decreases bytes@.len() - i,
    {
        let ghost r0 = result@;
        let group_end: usize = if bytes.len() - i < 8 {
            bytes.len()
        } else {
            i + 8
        };
        let ghost chunk = bytes@.skip(i as int).take(group_end - i);
        proof {
            assert(chunk =~= bytes@.subrange(i as int, group_end as int));
            assert(bytes@.subrange(group_end as int, group_end as int)
                =~= Seq::<u8>::empty());
        }
        let mut n: u64 = 0;
        let mut j: usize = group_end;
        while j > i
            invariant
                i <= j <= group_end <= bytes@.len(),
                group_end - i <= 8,
                n == le_value(bytes@.subrange(j as int, group_end as int)),
                n < pow256((group_end - j) as nat),
            decreases j,
        {
            j = j - 1;
            proof {
                lemma_pow256_values();
                lemma_pow256_monotone((group_end - j - 1) as nat, 7);
                let sub = bytes@.subrange(j as int, group_end as int);
                assert(sub.drop_first() =~= bytes@.subrange(j + 1, group_end as int));
                assert(sub[0] == bytes@[j as int]);
            }
            n = n * 256 + bytes[j] as u64;
        }
        proof {
            assert(bytes@.subrange(i as int, group_end as int) == chunk);
        }
        let ghost n0: int = n as int;
        let mut k: usize = 0;
        while k < U64_MAX_AZ_HASH_LEN
            invariant
                0 <= k <= U64_MAX_AZ_HASH_LEN,
                result@.len() == r0.len() + k,
                result@.take(r0.len() as int) =~= r0,
                az_of_u64(n0, U64_MAX_AZ_HASH_LEN as nat) =~= result@.skip(r0.len() as int)
                    + az_of_u64(n as int, (U64_MAX_AZ_HASH_LEN - k) as nat),
                n >= 0,
            decreases U64_MAX_AZ_HASH_LEN - k,
        {
            let ghost pre = result@;
            let d: u8 = (n % 26) as u8;
            result.push((97 + d) as char);
            proof {
                assert(result@ =~= pre.push(az_digit(n as int % 26)));
                assert(result@.take(r0.len() as int) =~= r0);
                assert(result@.skip(r0.len() as int)
                    =~= pre.skip(r0.len() as int).push(az_digit(n as int % 26)));
                assert(az_of_u64(n as int, (U64_MAX_AZ_HASH_LEN - k) as nat)
                    =~= seq![az_digit(n as int % 26)]
                        + az_of_u64(n as int / 26, (U64_MAX_AZ_HASH_LEN - k - 1) as nat));
                assert(pre.skip(r0.len() as int).push(az_digit(n as int % 26))
                        + az_of_u64(n as int / 26, (U64_MAX_AZ_HASH_LEN - k - 1) as nat)
                    =~= pre.skip(r0.len() as int) + az_of_u64(n as int,
                        (U64_MAX_AZ_HASH_LEN - k) as nat));
            }
            n = n / 26;
            k = k + 1;
        }
        proof {
            assert(az_of_u64(n as int, 0) =~= Seq::<char>::empty());
            assert(result@.skip(r0.len() as int)
                =~= az_of_u64(n0, U64_MAX_AZ_HASH_LEN as nat));
            assert(result@ =~= r0 + az_of_u64(n0, U64_MAX_AZ_HASH_LEN as nat));
            // One chunk consumed: the tail encoding splits off this group.
            let tail = bytes@.skip(i as int);
            assert(tail.len() > 0);
            let c: int = if tail.len() < 8 { tail.len() as int } else { 8 };
            assert(c == group_end - i);
            assert(tail.take(c) =~= chunk);
            assert(tail.skip(c) =~= bytes@.skip(group_end as int));
            assert(az_encode(tail) =~= az_of_u64(le_value(chunk),
                U64_MAX_AZ_HASH_LEN as nat) + az_encode(bytes@.skip(group_end as int)));
            assert(az_encode(bytes@) =~= result@ + az_encode(bytes@.skip(group_end as int)));
        }
        i = group_end;
    }
    proof {
        assert(bytes@.skip(bytes@.len() as int) =~= Seq::<u8>::empty());
        assert(az_encode(bytes@) =~= result@);
    }
    result
}

/// Every character of the encoding is a letter a-z, and every group of
/// up to eight bytes yields exactly fourteen of them.
proof fn lemma_az_of_u64_shape(n: int, count: nat)
    requires
        n >= 0,
    ensures
        az_of_u64(n, count).len() == count,
        forall|i: int| 0 <= i < count
            ==> 97 <= (#[trigger] az_of_u64(n, count)[i]) as u32 <= 122,
    decreases count,
{
    if count > 0 {
        lemma_az_of_u64_shape(n / 26, (count - 1) as nat);
        assert(0 <= n % 26 < 26);
        assert(az_of_u64(n, count)[0] == az_digit(n % 26));
        assert forall|i: int| 0 <= i < count
            implies 97 <= (#[trigger] az_of_u64(n, count)[i]) as u32 <= 122 by {
            if i > 0 {
                assert(az_of_u64(n, count)[i] == az_of_u64(n / 26, (count - 1) as nat)[
                    i - 1]);
            }
        }
    }
}

/// The encoding's overall shape: fourteen letters for each begun group of
/// eight bytes, letters a-z throughout.
pub proof fn lemma_az_encode_shape(bytes: Seq<u8>)
    ensures
        az_encode(bytes).len() == 14 * ((bytes.len() + 7) / 8),
        forall|i: int| 0 <= i < az_encode(bytes).len()
            ==> 97 <= (#[trigger] az_encode(bytes)[i]) as u32 <= 122,
    decreases bytes.len(),
{
    if bytes.len() > 0 {
        let c: int = if bytes.len() < 8 { bytes.len() as int } else { 8 };
        lemma_le_value_nonneg(bytes.take(c));
        lemma_az_of_u64_shape(le_value(bytes.take(c)), U64_MAX_AZ_HASH_LEN as nat);
        lemma_az_encode_shape(bytes.skip(c));
        assert forall|i: int| 0 <= i < az_encode(bytes).len()
            implies 97 <= (#[trigger] az_encode(bytes)[i]) as u32 <= 122 by {
            let head = az_of_u64(le_value(bytes.take(c)), U64_MAX_AZ_HASH_LEN as nat);
            if i < head.len() {
                assert(az_encode(bytes)[i] == head[i]);
            } else {
                assert(az_encode(bytes)[i] == az_encode(bytes.skip(c))[i - head.len()]);
            }
        }
    }
}

proof fn lemma_le_value_nonneg(bytes: Seq<u8>)
    ensures
        le_value(bytes) >= 0,
    decreases bytes.len(),
{
    if bytes.len() > 0 {
        lemma_le_value_nonneg(bytes.drop_first());
    }
}

/// Hash arbitrary bytes to a string of letters a-z: the SHA-256 digest,
/// base-26 encoded.
pub fn az_hash_bytes(data: &Vec<u8>) -> (r: String)
    ensures
        r@ == az_encode(sha256_of(data@)),
        r@.len() == 56,
        forall|i: int| 0 <= i < r@.len() ==> 97 <= (#[trigger] r@[i]) as u32 <= 122,
{
    let digest = sha256_digest(data);
    let r = az_encode_bytes(&digest);
    proof {
        lemma_az_encode_shape(digest@);
    }
    r
}

/// The sixteen big-endian bytes of a 128-bit id.
pub open spec fn be_bytes_16(v: u128) -> Seq<u8> {
    Seq::new(16, |i: int| ((v as int / pow256((15 - i) as nat)) % 256) as u8)
}

/// The big-endian byte form of an id.
pub fn id_to_bytes(id: u128) -> (r: Vec<u8>)
    ensures
        r@ == be_bytes_16(id),
{
    let mut out: Vec<u8> = Vec::new();
    let mut v: u128 = id;
    let mut j: usize = 0;
    while j < 16
        invariant
            0 <= j <= 16,
            out@.len() == j,
            v == id as int / pow256(j as nat),
            forall|p: int| 0 <= p < j ==> out@[p]
                == ((id as int / pow256((j - 1 - p) as nat)) % 256) as u8,
        decreases 16 - j,
    {
        let ghost old_out = out@;
        let b: u8 = (v % 256) as u8;
        out.insert(0, b);
        proof {
            assert(out@ =~= old_out.insert(0, b));
            assert forall|p: int| 0 <= p < j + 1 implies out@[p]
                == ((id as int / pow256((j - p) as nat)) % 256) as u8 by {
                if p == 0 {
                    assert(out@[0] == b);
                } else {
                    assert(out@[p] == old_out[p - 1]);
                }
            }
            lemma_pow256_monotone(j as nat, j as nat);
            lemma_div_denominator(id as int, pow256(j as nat), 256);
        }
        v = v / 256;
        j = j + 1;
    }
    proof {
        assert(out@ =~= be_bytes_16(id));
    }
    out
}

/// Allows hashing an object to a short tag of letters a-z.
pub trait AZHash {
    /// Hashes the object to a string with chars a-z.
    fn az_hash(&self) -> String;
}

impl AZHash for Activity {
    fn az_hash(&self) -> String {
        az_hash_bytes(&id_to_bytes(self.id))
    }
}

impl AZHash for Blocker {
    fn az_hash(&self) -> String {
        az_hash_bytes(&id_to_bytes(self.id))
    }
}

impl AZHash for Day {
    fn az_hash(&self) -> String {
        let text = crate::render::format_date(self.date);
        let bytes = vstd::slice::slice_to_vec(text.as_str().as_bytes());
        az_hash_bytes(&bytes)
    }
}

} // verus!
