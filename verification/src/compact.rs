//! The compact encoding of unsigned integers: the low two bits of the first
//! byte select one of four modes, and the value occupies the fewest bytes
//! that can hold it.

use vstd::prelude::*;
use crate::error::EventsDecodingError;

verus! {

/// 256 to the power of `n`.
pub open spec fn pow256(n: nat) -> nat
    decreases n,
{
    if n == 0 {
        1
    } else {
        256 * pow256((n - 1) as nat)
    }
}

/// The number that `bytes` spell in little-endian order.
pub open spec fn le_value(bytes: Seq<u8>) -> nat
    decreases bytes.len(),
{
    if bytes.len() == 0 {
        0
    } else {
        bytes[0] as nat + 256 * le_value(bytes.drop_first())
    }
}

/// The `n` low bytes of `v` in little-endian order.
pub open spec fn le_bytes(v: nat, n: nat) -> Seq<u8>
    decreases n,
{
    if n == 0 {
        Seq::empty()
    } else {
        seq![(v % 256) as u8] + le_bytes(v / 256, (n - 1) as nat)
    }
}

/// The least number of bytes, at least one, that can hold `v`.
pub open spec fn byte_width(v: nat) -> nat
    decreases v,
{
    if v < 256 {
        1
    } else {
        1 + byte_width(v / 256)
    }
}

/// The compact encoding of `v`.
pub open spec fn compact_encoding(v: nat) -> Seq<u8> {
    if v < 0x40 {
        le_bytes(4 * v, 1)
    } else if v < 0x4000 {
        le_bytes(4 * v + 1, 2)
    } else if v < 0x4000_0000 {
        le_bytes(4 * v + 2, 4)
    } else {
        seq![(4 * (byte_width(v) - 4) + 3) as u8] + le_bytes(v, byte_width(v))
    }
}

/// What reading one compact integer from the front of `input` gives: the
/// value and the number of bytes it occupied.
pub open spec fn compact_decoding(input: Seq<u8>) -> Result<(nat, nat), EventsDecodingError> {
    if input.len() == 0 {
        Err(EventsDecodingError::UnexpectedEof)
    } else if input[0] % 4 == 0 {
        Ok(((input[0] / 4) as nat, 1))
    } else if input[0] % 4 == 1 {
        if input.len() < 2 {
            Err(EventsDecodingError::UnexpectedEof)
        } else if le_value(input.subrange(0, 2)) / 4 < 0x40 {
            Err(EventsDecodingError::NonCanonicalCompact)
        } else {
            Ok((le_value(input.subrange(0, 2)) / 4, 2))
        }
    } else if input[0] % 4 == 2 {
        if input.len() < 4 {
            Err(EventsDecodingError::UnexpectedEof)
        } else if le_value(input.subrange(0, 4)) / 4 < 0x4000 {
            Err(EventsDecodingError::NonCanonicalCompact)
        } else {
            Ok((le_value(input.subrange(0, 4)) / 4, 4))
        }
    } else {
        let n = (input[0] / 4 + 4) as nat;
        if n > 16 {
            Err(EventsDecodingError::CompactTooWide)
        } else if input.len() < 1 + n {
            Err(EventsDecodingError::UnexpectedEof)
        } else if le_value(input.subrange(1, 1 + n as int)) < big_mode_floor(n) {
            Err(EventsDecodingError::NonCanonicalCompact)
        } else {
            Ok((le_value(input.subrange(1, 1 + n as int)), 1 + n))
        }
    }
}

/// The least value that the mode with `n` value bytes is the shortest for.
pub open spec fn big_mode_floor(n: nat) -> nat {
    if n <= 4 {
        0x4000_0000
    } else {
        pow256((n - 1) as nat)
    }
}


/// Powers of 256 are positive and grow with the exponent.
pub proof fn lemma_pow256_grows(a: nat, b: nat)
    requires
        a <= b,
    ensures
        0 < pow256(a) <= pow256(b),
    decreases b,
{
    if b == 0 {
    } else if a == b {
        lemma_pow256_grows(0, (b - 1) as nat);
    } else {
        lemma_pow256_grows(a, (b - 1) as nat);
    }
}

/// The powers of 256 that the four modes turn on.
pub proof fn lemma_pow256_values()
    ensures
        pow256(0) == 1,
        pow256(1) == 0x100,
        pow256(2) == 0x1_0000,
        pow256(3) == 0x100_0000,
        pow256(4) == 0x1_0000_0000,
        pow256(8) == 0x1_0000_0000_0000_0000,
        pow256(15) == 0x100_0000_0000_0000_0000_0000_0000_0000,
        pow256(16) == 0x1_0000_0000_0000_0000_0000_0000_0000_0000,
{
    reveal_with_fuel(pow256, 17);
}

/// A little-endian number of `n` bytes is below 256 to the `n`.
pub proof fn lemma_le_value_bound(bytes: Seq<u8>)
    ensures
        le_value(bytes) < pow256(bytes.len()),
    decreases bytes.len(),
{
    if bytes.len() > 0 {
        lemma_le_value_bound(bytes.drop_first());
    }
}

/// `le_bytes(v, n)` has `n` bytes.
pub proof fn lemma_le_bytes_len(v: nat, n: nat)
    ensures
        le_bytes(v, n).len() == n,
    decreases n,
{
    if n > 0 {
        lemma_le_bytes_len(v / 256, (n - 1) as nat);
    }
}

/// Writing a number that fits in `n` bytes and reading it back gives the number.
pub proof fn lemma_le_value_of_le_bytes(v: nat, n: nat)
    requires
        v < pow256(n),
    ensures
        le_value(le_bytes(v, n)) == v,
    decreases n,
{
    if n > 0 {
        let rest = le_bytes(v / 256, (n - 1) as nat);
        lemma_le_value_of_le_bytes(v / 256, (n - 1) as nat);
        assert(le_bytes(v, n).drop_first() =~= rest);
    }
}

/// Reading bytes as a number and writing it back in as many bytes gives the bytes.
pub proof fn lemma_le_bytes_of_le_value(bytes: Seq<u8>)
    ensures
        le_bytes(le_value(bytes), bytes.len()) == bytes,
    decreases bytes.len(),
{
    if bytes.len() > 0 {
        lemma_le_bytes_of_le_value(bytes.drop_first());
        assert(le_bytes(le_value(bytes), bytes.len()) =~= bytes);
    } else {
        assert(le_bytes(le_value(bytes), bytes.len()) =~= bytes);
    }
}

/// `byte_width(v)` bytes hold `v`, and one byte fewer would not.
pub proof fn lemma_byte_width_bounds(v: nat)
    ensures
        byte_width(v) >= 1,
        v < pow256(byte_width(v)),
        byte_width(v) > 1 ==> v >= pow256((byte_width(v) - 1) as nat),
    decreases v,
{
    reveal_with_fuel(pow256, 2);
    if v >= 256 {
        lemma_byte_width_bounds(v / 256);
    }
}

/// The only width whose range holds `v` is `byte_width(v)`.
pub proof fn lemma_byte_width_unique(v: nat, n: nat)
    requires
        n >= 1,
        v < pow256(n),
        n > 1 ==> v >= pow256((n - 1) as nat),
    ensures
        byte_width(v) == n,
    decreases n,
{
    reveal_with_fuel(pow256, 2);
    if n > 1 {
        lemma_pow256_grows(1, (n - 1) as nat);
        lemma_byte_width_unique(v / 256, (n - 1) as nat);
    }
}

/// A value that fits in `n` bytes has a width of at most `n`.
pub proof fn lemma_byte_width_at_most(v: nat, n: nat)
    requires
        n >= 1,
        v < pow256(n),
    ensures
        byte_width(v) <= n,
{
    lemma_byte_width_bounds(v);
    if byte_width(v) > n {
        lemma_pow256_grows(n, (byte_width(v) - 1) as nat);
    }
}


/// Appends the `n` low bytes of `v` to `out`, lowest first.
pub fn push_le(out: &mut Vec<u8>, v: u128, n: usize)
    ensures
        final(out)@ == old(out)@ + le_bytes(v as nat, n as nat),
{
    let mut rest: u128 = v;
    let mut i: usize = 0;
    while i < n
        invariant
            i <= n,
            out@ + le_bytes(rest as nat, (n - i) as nat) == old(out)@ + le_bytes(
                v as nat,
                n as nat,
            ),
        decreases n - i,
    {
        let ghost before = out@;
        out.push((rest % 256) as u8);
        proof {
            let tail = le_bytes((rest / 256) as nat, (n - i - 1) as nat);
            assert(out@ + tail =~= before + le_bytes(rest as nat, (n - i) as nat));
        }
        rest = rest / 256;
        i = i + 1;
    }
    proof {
        assert(out@ + le_bytes(rest as nat, 0) =~= out@);
    }
}

/// The number that the `n` bytes of `input` from `start` on spell in
/// little-endian order.
pub(crate) fn read_le(input: &[u8], start: usize, n: usize) -> (r: u128)
    requires
        n <= 16,
        start + n <= input@.len(),
    ensures
        r == le_value(input@.subrange(start as int, start + n)),
{
    let mut acc: u128 = 0;
    let mut i: usize = n;
    let len = input.len();
    while i > 0
        invariant
            i <= n <= 16,
            start + n <= len == input@.len(),
            acc == le_value(input@.subrange(start + i, start + n)),
        decreases i,
    {
        let ghost tail = input@.subrange(start + i, start + n);
        let ghost whole = input@.subrange(start + i - 1, start + n);
        proof {
            lemma_pow256_values();
            lemma_le_value_bound(tail);
            lemma_le_value_bound(whole);
            lemma_pow256_grows(whole.len(), 16);
            assert(whole.drop_first() =~= tail);
        }
        i = i - 1;
        acc = acc * 256 + input[start + i] as u128;
    }
    acc
}

/// The least number of bytes, at least one, that can hold `v`.
pub fn width_of(v: u128) -> (r: usize)
    ensures
        r == byte_width(v as nat),
        1 <= r <= 16,
{
    let mut rest: u128 = v;
    let mut w: usize = 1;
    proof {
        lemma_pow256_values();
        lemma_byte_width_at_most(v as nat, 16);
        lemma_byte_width_bounds(v as nat);
    }
    while rest >= 256
        invariant
            w >= 1,
            byte_width(v as nat) == w - 1 + byte_width(rest as nat),
            byte_width(v as nat) <= 16,
        decreases rest,
    {
        proof {
            lemma_byte_width_bounds((rest / 256) as nat);
        }
        rest = rest / 256;
        w = w + 1;
    }
    w
}

/// The compact encoding of `v`.
pub fn encode_compact(v: u128) -> (r: Vec<u8>)
    ensures
        r@ == compact_encoding(v as nat),
{
    let mut out: Vec<u8> = Vec::new();
    if v < 0x40 {
        push_le(&mut out, 4 * v, 1);
    } else if v < 0x4000 {
        push_le(&mut out, 4 * v + 1, 2);
    } else if v < 0x4000_0000 {
        push_le(&mut out, 4 * v + 2, 4);
    } else {
        let w = width_of(v);
        proof {
            lemma_pow256_values();
            if w < 4 {
                lemma_byte_width_bounds(v as nat);
                lemma_pow256_grows(w as nat, 3);
            }
        }
        out.push((4 * (w - 4) + 3) as u8);
        push_le(&mut out, v, w);
    }
    proof {
        assert(out@ =~= compact_encoding(v as nat));
    }
    out
}

/// The least value that the mode with `n` value bytes is the shortest for.
fn floor_of(n: usize) -> (r: u128)
    requires
        4 <= n <= 16,
    ensures
        r == big_mode_floor(n as nat),
{
    if n == 4 {
        0x4000_0000
    } else {
        let mut p: u128 = 1;
        let mut i: usize = 0;
        proof {
            lemma_pow256_values();
        }
        while i < n - 1
            invariant
                i <= n - 1,
                n <= 16,
                p == pow256(i as nat),
            decreases n - 1 - i,
        {
            proof {
                lemma_pow256_values();
                lemma_pow256_grows((i + 1) as nat, 15);
            }
            p = p * 256;
            i = i + 1;
        }
        p
    }
}

/// Reads one compact integer from the front of `input`: its value and the
/// number of bytes it occupied.
pub fn decode_compact(input: &[u8]) -> (r: Result<(u128, usize), EventsDecodingError>)
    ensures
        match r {
            Ok((v, n)) => compact_decoding(input@) == Ok::<(nat, nat), EventsDecodingError>(
                (v as nat, n as nat),
            ),
            Err(e) => compact_decoding(input@) == Err::<(nat, nat), EventsDecodingError>(e),
        },
{
    if input.len() == 0 {
        return Err(EventsDecodingError::UnexpectedEof);
    }
    let first = input[0];
    let mode = first % 4;
    if mode == 0 {
        Ok(((first / 4) as u128, 1))
    } else if mode == 1 {
        if input.len() < 2 {
            return Err(EventsDecodingError::UnexpectedEof);
        }
        let x = read_le(input, 0, 2) / 4;
        if x < 0x40 {
            Err(EventsDecodingError::NonCanonicalCompact)
        } else {
            Ok((x, 2))
        }
    } else if mode == 2 {
        if input.len() < 4 {
            return Err(EventsDecodingError::UnexpectedEof);
        }
        let x = read_le(input, 0, 4) / 4;
        if x < 0x4000 {
            Err(EventsDecodingError::NonCanonicalCompact)
        } else {
            Ok((x, 4))
        }
    } else {
        let n: usize = (first / 4) as usize + 4;
        if n > 16 {
            return Err(EventsDecodingError::CompactTooWide);
        }
        if input.len() - 1 < n {
            return Err(EventsDecodingError::UnexpectedEof);
        }
        let x = read_le(input, 1, n);
        if x < floor_of(n) {
            Err(EventsDecodingError::NonCanonicalCompact)
        } else {
            Ok((x, 1 + n))
        }
    }
}


/// Whether a compact form of `len` bytes in all has room for `v`: one byte
/// holds six bits, two hold fourteen, four hold thirty, and a form of five
/// to seventeen bytes holds `len - 1` whole bytes.
pub open spec fn form_holds(len: nat, v: nat) -> bool {
    ||| len == 1 && v < 0x40
    ||| len == 2 && v < 0x4000
    ||| len == 4 && v < 0x4000_0000
    ||| 5 <= len <= 17 && v < pow256((len - 1) as nat)
}

/// The length of the compact encoding of `v`.
pub proof fn lemma_compact_encoding_len(v: nat)
    ensures
        compact_encoding(v).len() == (if v < 0x40 {
            1
        } else if v < 0x4000 {
            2
        } else if v < 0x4000_0000 {
            4
        } else {
            1 + byte_width(v)
        }),
{
    lemma_le_bytes_len(4 * v, 1);
    lemma_le_bytes_len(4 * v + 1, 2);
    lemma_le_bytes_len(4 * v + 2, 4);
    lemma_le_bytes_len(v, byte_width(v));
}

/// Decoding the encoding of a value gives the value back, whatever bytes
/// follow the encoding, and consumes the encoding exactly.
pub proof fn lemma_compact_round_trip(v: nat, rest: Seq<u8>)
    requires
        v <= u128::MAX,
    ensures
        compact_decoding(compact_encoding(v) + rest) == Ok::<(nat, nat), EventsDecodingError>(
            (v, compact_encoding(v).len()),
        ),
{
    let enc = compact_encoding(v);
    let input = enc + rest;
    lemma_pow256_values();
    lemma_compact_encoding_len(v);
    if v < 0x40 {
        reveal_with_fuel(le_bytes, 2);
        assert(input[0] == enc[0]);
    } else if v < 0x4000 {
        let x = 4 * v + 1;
        reveal_with_fuel(le_bytes, 3);
        assert(input[0] == enc[0]);
        assert(input.subrange(0, 2) =~= enc);
        lemma_le_value_of_le_bytes(x, 2);
    } else if v < 0x4000_0000 {
        let x = 4 * v + 2;
        reveal_with_fuel(le_bytes, 2);
        assert(input[0] == enc[0]);
        assert(input.subrange(0, 4) =~= enc);
        lemma_le_value_of_le_bytes(x, 4);
    } else {
        let w = byte_width(v);
        lemma_byte_width_bounds(v);
        lemma_byte_width_at_most(v, 16);
        if w < 4 {
            lemma_pow256_grows(w, 3);
        }
        lemma_le_bytes_len(v, w);
        assert(input[0] == enc[0]);
        assert(input.subrange(1, 1 + w as int) =~= le_bytes(v, w));
        lemma_le_value_of_le_bytes(v, w);
        if w > 4 {
            lemma_pow256_grows(4, (w - 1) as nat);
        }
    }
}

/// What decoding accepts is the encoding of the value it returns: the bytes
/// it consumed are the canonical bytes of that value, and the value fits in
/// 128 bits.
pub proof fn lemma_compact_canonical(input: Seq<u8>)
    requires
        compact_decoding(input) is Ok,
    ensures
        ({
            let (v, n) = compact_decoding(input)->Ok_0;
            &&& v <= u128::MAX
            &&& 1 <= n <= input.len()
            &&& compact_encoding(v) == input.subrange(0, n as int)
        }),
{
    let (v, n) = compact_decoding(input)->Ok_0;
    let used = input.subrange(0, n as int);
    lemma_pow256_values();
    if input[0] % 4 == 0 {
        reveal_with_fuel(le_bytes, 2);
        assert(compact_encoding(v) =~= used);
    } else if input[0] % 4 == 1 {
        reveal_with_fuel(le_value, 3);
        lemma_le_value_bound(used);
        lemma_le_bytes_of_le_value(used);
        assert(le_value(used) == 4 * v + 1);
    } else if input[0] % 4 == 2 {
        reveal_with_fuel(le_value, 2);
        lemma_le_value_bound(used);
        lemma_le_bytes_of_le_value(used);
        assert(le_value(used) == 4 * v + 2);
    } else {
        let w = (n - 1) as nat;
        let body = input.subrange(1, n as int);
        lemma_le_value_bound(body);
        lemma_le_bytes_of_le_value(body);
        lemma_pow256_grows(w, 16);
        if w > 4 {
            lemma_pow256_grows(4, (w - 1) as nat);
        } else {
            lemma_pow256_grows(3, (w - 1) as nat);
        }
        lemma_byte_width_unique(v, w);
        assert(compact_encoding(v) =~= used);
    }
}

/// The encoding is the shortest form that has room for the value: its own
/// length has room, and no form with room is shorter.
pub proof fn lemma_compact_minimal(v: nat, len: nat)
    requires
        v <= u128::MAX,
    ensures
        form_holds(compact_encoding(v).len(), v),
        form_holds(len, v) ==> compact_encoding(v).len() <= len,
{
    lemma_pow256_values();
    lemma_compact_encoding_len(v);
    if v >= 0x4000_0000 {
        lemma_byte_width_bounds(v);
        lemma_byte_width_at_most(v, 16);
        if byte_width(v) < 4 {
            lemma_pow256_grows(byte_width(v), 3);
        }
        if form_holds(len, v) {
            if len <= 4 {
            } else {
                lemma_byte_width_at_most(v, (len - 1) as nat);
            }
        }
    }
}

/// Decoding reads only the bytes it consumes: on a prefix of the input that
/// still holds them all it gives the same result, and on a shorter prefix it
/// reports that the input ended.
pub proof fn lemma_compact_prefix(input: Seq<u8>, k: int)
    requires
        0 <= k <= input.len(),
        compact_decoding(input) is Ok,
    ensures
        compact_decoding(input.subrange(0, k)) == (if (compact_decoding(input)->Ok_0).1 <= k {
            compact_decoding(input)
        } else {
            Err(EventsDecodingError::UnexpectedEof)
        }),
{
    let short = input.subrange(0, k);
    let (v, n) = compact_decoding(input)->Ok_0;
    if k > 0 {
        assert(short[0] == input[0]);
        if n <= k {
            assert(short.subrange(0, n as int) =~= input.subrange(0, n as int));
            if input[0] % 4 == 3 {
                assert(short.subrange(1, n as int) =~= input.subrange(1, n as int));
            }
        }
    }
}

} // verus!
