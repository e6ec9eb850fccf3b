//! Variable-length integers: seven payload bits per byte, least significant
//! group first, with the high bit set on every byte but the last.

use vstd::prelude::*;

verus! {

/// The number of bytes that the encoding of `n` takes.
pub open spec fn encoded_len(n: nat) -> nat
    decreases n,
{
    if n < 128 {
        1
    } else {
        1 + encoded_len(n / 128)
    }
}

/// The encoding of `n`.
pub open spec fn encode(n: nat) -> Seq<u8>
    decreases n,
{
    if n < 128 {
        seq![n as u8]
    } else {
        seq![(n % 128 + 128) as u8] + encode(n / 128)
    }
}

/// The value and the length of the encoding that `s` starts with. Where `s`
/// ends before a byte without the continuation bit, the bytes that are there
/// are decoded.
pub open spec fn decode(s: Seq<u8>) -> (nat, nat)
    decreases s.len(),
{
    if s.len() == 0 {
        (0, 0)
    } else if s[0] < 128 {
        (s[0] as nat, 1)
    } else {
        let rest = decode(s.skip(1));
        ((s[0] - 128 + 128 * rest.0) as nat, rest.1 + 1)
    }
}

/// `s` starts with the encoding of `n`.
pub open spec fn starts_with(s: Seq<u8>, n: nat) -> bool {
    encoded_len(n) <= s.len() && s.take(encoded_len(n) as int) == encode(n)
}

/// `s` holds a byte without the continuation bit.
pub open spec fn is_terminated(s: Seq<u8>) -> bool
    decreases s.len(),
{
    s.len() > 0 && (s[0] < 128 || is_terminated(s.skip(1)))
}

/// `s` starts with bytes up to one without the continuation bit that stand for
/// an integer that fits in `usize`.
pub open spec fn is_readable(s: Seq<u8>) -> bool {
    is_terminated(s) && decode(s).0 <= usize::MAX
}

/// An encoding is as long as `encoded_len` says, and at most ten bytes for an
/// integer below 2^64.
pub proof fn lemma_encode_len(n: nat)
    ensures
        encode(n).len() == encoded_len(n),
        encoded_len(n) >= 1,
        n <= u64::MAX ==> encoded_len(n) <= 10,
    decreases n,
{
    if n >= 128 {
        lemma_encode_len(n / 128);
        if n <= u64::MAX {
            lemma_len_bound(n);
        }
    }
}

proof fn lemma_len_bound(n: nat)
    requires
        n <= u64::MAX,
    ensures
        encoded_len(n) <= 10,
{
    reveal_with_fuel(encoded_len, 11);
    let n1 = n / 128;
    let n2 = n1 / 128;
    let n3 = n2 / 128;
    let n4 = n3 / 128;
    let n5 = n4 / 128;
    let n6 = n5 / 128;
    let n7 = n6 / 128;
    let n8 = n7 / 128;
    let n9 = n8 / 128;
    assert(n9 < 128);
}

/// Decoding what `encode` wrote gives the integer back, and the number of bytes
/// that `encoded_len` tells, whatever follows the encoding.
pub proof fn lemma_round_trip(n: nat, s: Seq<u8>)
    requires
        starts_with(s, n),
    ensures
        decode(s) == (n, encoded_len(n)),
    decreases n,
{
    lemma_encode_len(n);
    let k = encoded_len(n) as int;
    assert(s[0] == s.take(k)[0]);
    if n >= 128 {
        let m = n / 128;
        lemma_encode_len(m);
        let t = s.skip(1);
        assert(t.take(k - 1) =~= s.take(k).skip(1));
        assert(encode(n).skip(1) =~= encode(m));
        lemma_round_trip(m, t);
    }
}

/// What starts with the encoding of an integer that fits in `usize` can be
/// read.
pub proof fn lemma_encoding_is_readable(n: nat, s: Seq<u8>)
    requires
        n <= usize::MAX,
        starts_with(s, n),
    ensures
        is_readable(s),
{
    lemma_round_trip(n, s);
    lemma_terminated(n, s);
}

proof fn lemma_terminated(n: nat, s: Seq<u8>)
    requires
        starts_with(s, n),
    ensures
        is_terminated(s),
    decreases n,
{
    lemma_encode_len(n);
    let k = encoded_len(n) as int;
    assert(s[0] == s.take(k)[0]);
    if n >= 128 {
        let m = n / 128;
        lemma_encode_len(m);
        assert(s.skip(1).take(k - 1) =~= s.take(k).skip(1));
        assert(encode(n).skip(1) =~= encode(m));
        lemma_terminated(m, s.skip(1));
    }
}

/// The plain form of the law: decoding the encoding of `n` gives `n` and its
/// encoded length.
pub proof fn lemma_decode_encode(n: nat)
    ensures
        decode(encode(n)) == (n, encoded_len(n)),
{
    lemma_encode_len(n);
    assert(encode(n).take(encoded_len(n) as int) =~= encode(n));
    lemma_round_trip(n, encode(n));
}

/// The number of bytes that `write_vint` needs for `n`.
pub fn vint_len(n: usize) -> (len: usize)
    ensures
        len == encoded_len(n as nat),
        1 <= len <= 10,
{
    proof {
        lemma_encode_len(n as nat);
    }
    let mut len: usize = 1;
    let mut rest: usize = n;
    while rest >= 128
        invariant
            1 <= len,
            len + encoded_len(rest as nat) == 1 + encoded_len(n as nat),
            encoded_len(n as nat) <= 10,
            encoded_len(rest as nat) >= 1,
        decreases rest,
    {
        proof {
            lemma_encode_len((rest / 128) as nat);
        }
        rest = rest / 128;
        len = len + 1;
    }
    len
}

/// Writes the encoding of `n` into `buffer`, which is exactly as long as the
/// encoding.
pub fn write_vint(buffer: &mut [u8], n: usize)
    requires
        old(buffer)@.len() == encoded_len(n as nat),
    ensures
        final(buffer)@ == encode(n as nat),
{
    let mut i: usize = 0;
    let mut rest: usize = n;
    proof {
        lemma_encode_len(n as nat);
        assert(buffer@.take(0) + encode(n as nat) =~= encode(n as nat));
    }
    while rest >= 128
        invariant
            buffer@.len() == encoded_len(n as nat),
            i + encoded_len(rest as nat) == encoded_len(n as nat),
            buffer@.take(i as int) + encode(rest as nat) == encode(n as nat),
        decreases rest,
    {
        let ghost before = buffer@;
        proof {
            lemma_encode_len((rest / 128) as nat);
        }
        buffer[i] = (rest % 128 + 128) as u8;
        proof {
            assert(buffer@.take(i + 1) =~= before.take(i as int).push((rest % 128 + 128) as u8));
            assert(before.take(i as int).push((rest % 128 + 128) as u8) + encode((rest / 128) as nat)
                =~= before.take(i as int) + encode(rest as nat));
        }
        rest = rest / 128;
        i = i + 1;
    }
    let ghost before = buffer@;
    buffer[i] = rest as u8;
    proof {
        assert(buffer@ =~= before.take(i as int) + encode(rest as nat));
    }
}

/// Reads the integer that `buffer` starts with, up to the first byte without
/// the continuation bit: the integer, and the number of bytes read.
pub fn read_vint(buffer: &[u8]) -> (r: (usize, usize))
    requires
        is_readable(buffer@),
    ensures
        (r.0 as nat, r.1 as nat) == decode(buffer@),
        1 <= r.1 <= buffer@.len(),
{
    let ghost total = decode(buffer@).0;
    let ghost len = decode(buffer@).1;
    let n = buffer.len();
    let mut value: usize = 0;
    // The weight of the next group of bits, as long as it fits.
    let mut scale: usize = 1;
    let mut fits: bool = true;
    let mut i: usize = 0;
    let ghost mut weight: nat = 1;
    proof {
        assert(buffer@.skip(0) =~= buffer@);
    }
    loop
        invariant_except_break
            i < n,
            is_terminated(buffer@.skip(i as int)),
            total == value + weight * decode(buffer@.skip(i as int)).0,
            len == i + decode(buffer@.skip(i as int)).1,
            weight >= 1,
            fits ==> scale == weight,
            !fits ==> weight > usize::MAX,
        invariant
            n == buffer@.len(),
            total <= usize::MAX,
        ensures
            value == total,
            i == len,
            1 <= i <= n,
        decreases n - i,
    {
        let ghost rest = buffer@.skip(i as int);
        let ghost after = decode(buffer@.skip(i + 1));
        proof {
            assert(rest[0] == buffer@[i as int]);
            assert(rest.skip(1) =~= buffer@.skip(i + 1));
        }
        let b: u8 = buffer[i];
        let payload: usize = if b < 128 {
            b as usize
        } else {
            (b - 128) as usize
        };
        proof {
            let here = decode(rest).0;
            assert(here >= payload);
            assert(weight * payload <= weight * here) by (nonlinear_arith)
                requires
                    here >= payload,
            ;
            assert(weight * here <= total);
            if payload != 0 {
                assert(weight * payload >= weight) by (nonlinear_arith)
                    requires
                        payload >= 1,
                ;
            }
            assert(payload * scale == weight * payload || payload == 0) by (nonlinear_arith)
                requires
                    payload != 0 ==> scale == weight,
            ;
            assert(payload == 0 ==> weight * payload == 0) by (nonlinear_arith);
            if b < 128 {
                assert(here == payload);
                assert(len == i + 1);
            } else {
                assert(is_terminated(rest.skip(1)));
                assert(buffer@.skip(i + 1).len() > 0);
            }
        }
        if payload != 0 {
            value = value + payload * scale;
        }
        i = i + 1;
        if b < 128 {
            break;
        }
        proof {
            let here = decode(rest).0;
            assert(here == payload + 128 * after.0);
            assert(weight * here == weight * payload + (weight * 128) * after.0) by (nonlinear_arith)
                requires
                    here == payload + 128 * after.0,
            ;
            if fits && scale > usize::MAX / 128 {
                assert(weight * 128 > usize::MAX);
            }
            if !fits {
                assert(weight * 128 > usize::MAX);
            }
            weight = weight * 128;
        }
        if fits && scale <= usize::MAX / 128 {
            scale = scale * 128;
        } else {
            fits = false;
        }
    }
    (value, i)
}

} // verus!
