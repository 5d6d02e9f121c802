//! Mining advent coins: the lowest number whose MD5 hash, appended to a
//! secret key, starts with enough zero half-bytes.

use vstd::prelude::*;

use crate::year_2015::day_10::{digits_of, push_digits};

verus! {

/// The 16-byte MD5 digest of the input; a function of the input alone.
pub uninterp spec fn md5_of(input: Seq<u8>) -> Seq<u8>;

/// Relies on crypto's `Md5` through its `Digest` interface (`new`, `input`,
/// `result`): one hash of the whole input, sixteen bytes out.
#[verifier::external_body]
fn md5_digest(input: &Vec<u8>) -> (r: [u8; 16])
    ensures
        r@ == md5_of(input@),
{
    let mut hasher = crypto::md5::Md5::new();
    crypto::digest::Digest::input(&mut hasher, input.as_slice());
    let mut output = [0u8; 16];
    crypto::digest::Digest::result(&mut hasher, &mut output);
    output
}

/// How many leading digest bytes a zero-count of `lz` half-bytes reads, at
/// most the digest's sixteen.
pub open spec fn bytes_read(lz: int) -> int {
    let lb = if lz % 2 == 0 {
        lz / 2
    } else {
        lz / 2 + 1
    };
    if lb <= 16 {
        lb
    } else {
        16
    }
}

/// Byte `b` of the digest is as zero as the count asks: fully zero, or for
/// an odd count's last byte, zero in its high half.
pub open spec fn nibble_ok(d: Seq<u8>, lz: int, b: int) -> bool {
    if lz % 2 == 1 && b == bytes_read(lz) - 1 {
        d[b] >> 4 == 0
    } else {
        d[b] == 0
    }
}

/// The digest of `key` followed by the decimal digits of `n` starts with
/// `lz` zero half-bytes.
pub open spec fn digest_matches(key: Seq<u8>, n: int, lz: int) -> bool {
    let d = md5_of(key + digits_of(n));
    forall|b: int| 0 <= b < bytes_read(lz) ==> #[trigger] nibble_ok(d, lz, b)
}

/// Finds the lowest number that, appended to the provided key, has an MD5
/// hash with the provided number of leading zero half-bytes. Counts above
/// 128 are rejected outright.
pub fn find_number(key: &[u8], leading_zeroes: u8) -> (r: Option<u64>)
    requires
        key@.len() + 20 <= usize::MAX,
    ensures
        match r {
            Some(n) => leading_zeroes <= 128 && digest_matches(
                key@,
                n as int,
                leading_zeroes as int,
            ) && forall|m: int| 0 <= m < n ==> !digest_matches(key@, m, leading_zeroes as int),
            None => leading_zeroes > 128 || forall|m: int|
                0 <= m < u64::MAX ==> !digest_matches(key@, m, leading_zeroes as int),
        },
{
    if leading_zeroes > 128 {
        return None;
    }
    let lz = leading_zeroes;
    let lb_raw: u8 = if lz % 2 == 0 {
        lz / 2
    } else {
        lz / 2 + 1
    };
    let lb: u8 = if lb_raw <= 16 {
        lb_raw
    } else {
        16
    };
    proof {
        assert(lb == bytes_read(leading_zeroes as int));
    }
    let mut i: u64 = 0;
    while i < u64::MAX
        invariant
            lz == leading_zeroes,
            lz <= 128,
            lb == bytes_read(leading_zeroes as int),
            key@.len() + 20 <= usize::MAX,
            forall|m: int| 0 <= m < i ==> !digest_matches(key@, m, leading_zeroes as int),
        decreases u64::MAX - i,
    {
        let mut message: Vec<u8> = Vec::new();
        message.extend_from_slice(key);
        proof {
            assert(message@ =~= key@);
        }
        push_digits(&mut message, i);
        proof {
            assert(message@ == key@ + digits_of(i as int));
        }
        let digest = md5_digest(&message);
        let ghost d = md5_of(key@ + digits_of(i as int));
        let mut all_zero = true;
        let mut b: usize = 0;
        while b < lb as usize
            invariant
                lz == leading_zeroes,
                lb <= 16,
                b <= lb,
                digest@ == d,
                lz <= 128,
                lb == bytes_read(leading_zeroes as int),
                all_zero == (forall|k: int| 0 <= k < b ==> #[trigger] nibble_ok(d, leading_zeroes as int, k)),
            decreases lb - b,
        {
            let byte = digest[b];
            let ok = if lz % 2 == 1 && b == lb as usize - 1 {
                byte >> 4 == 0
            } else {
                byte == 0
            };
            proof {
                assert(ok == nibble_ok(d, leading_zeroes as int, b as int));
            }
            if !ok {
                all_zero = false;
            }
            b = b + 1;
        }
        if all_zero {
            proof {
                assert(forall|k: int|
                    0 <= k < bytes_read(leading_zeroes as int) ==> #[trigger] nibble_ok(d, leading_zeroes as int, k));
                assert(digest_matches(key@, i as int, leading_zeroes as int));
                assert(forall|m: int| 0 <= m < i ==> !digest_matches(key@, m, leading_zeroes as int));
            }
            return Some(i);
        }
        i = i + 1;
    }
    None
}

} // verus!
