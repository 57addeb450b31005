//! Variable-length integers: seven bits per byte, least significant group
//! first, high bit set on every byte but the last.
use vstd::prelude::*;

verus! {

/// Largest number of bytes a 32-bit variable-length integer may occupy.
pub const VARINT_MAX_BYTES: usize = 5;

/// Why no integer could be read at the front of a byte sequence.
#[derive(Clone, Copy, Debug, PartialEq, Eq)]
pub enum VarIntError {
    /// Every byte present carries a continuation bit: more bytes are needed.
    Incomplete,
    /// The first five bytes all carry a continuation bit.
    TooLong,
}

pub open spec fn pow128(n: nat) -> nat
    decreases n,
{
    if n == 0 {
        1
    } else {
        128 * pow128((n - 1) as nat)
    }
}

/// Reads at most `budget` bytes of `s`: on success the number of bytes read
/// and the unsigned value they carry.
pub open spec fn parse_groups(s: Seq<u8>, budget: nat) -> Result<(nat, nat), VarIntError>
    decreases budget,
{
    if budget == 0 {
        Err(VarIntError::TooLong)
    } else if s.len() == 0 {
        Err(VarIntError::Incomplete)
    } else if s[0] < 128 {
        Ok((1, s[0] as nat))
    } else {
        match parse_groups(s.skip(1), (budget - 1) as nat) {
            Ok((k, v)) => Ok((k + 1, ((s[0] - 128) + 128 * v) as nat)),
            Err(e) => Err(e),
        }
    }
}

/// The signed 32-bit integer whose two's-complement bits are the low 32 bits of `u`.
pub open spec fn wrap_i32(u: nat) -> i32 {
    let m = u % 0x1_0000_0000;
    if m < 0x8000_0000 {
        m as i32
    } else {
        (m - 0x1_0000_0000) as i32
    }
}

/// The unsigned 32-bit pattern of `v`.
pub open spec fn raw_u32(v: i32) -> nat {
    if v >= 0 {
        v as nat
    } else {
        (v + 0x1_0000_0000) as nat
    }
}

/// What reading a variable-length integer at the front of `s` yields: the
/// value and the number of bytes it occupies.
pub open spec fn varint_read(s: Seq<u8>) -> Result<(i32, nat), VarIntError> {
    match parse_groups(s, VARINT_MAX_BYTES as nat) {
        Ok((k, v)) => Ok((wrap_i32(v), k)),
        Err(e) => Err(e),
    }
}

/// The shortest encoding of the unsigned value `u`.
pub open spec fn groups_of(u: nat) -> Seq<u8>
    decreases u,
{
    if u < 128 {
        seq![u as u8]
    } else {
        seq![(u % 128 + 128) as u8] + groups_of(u / 128)
    }
}

/// The shortest encoding of `v`, negative values by their 32-bit pattern.
pub open spec fn varint_bytes(v: i32) -> Seq<u8> {
    groups_of(raw_u32(v))
}

proof fn lemma_parse_bounded(s: Seq<u8>, budget: nat)
    ensures
        parse_groups(s, budget) matches Ok((k, v)) ==> 1 <= k <= budget && k <= s.len() && v
            < pow128(k),
    decreases budget,
{
    assert(pow128(1) == 128) by {
        reveal_with_fuel(pow128, 2);
    }
    if budget > 0 && s.len() > 0 && s[0] >= 128 {
        lemma_parse_bounded(s.skip(1), (budget - 1) as nat);
        if let Ok((k, v)) = parse_groups(s.skip(1), (budget - 1) as nat) {
            assert(pow128(k + 1) == 128 * pow128(k));
            assert((s[0] - 128) + 128 * v < 128 * pow128(k)) by (nonlinear_arith)
                requires
                    s[0] - 128 < 128,
                    v < pow128(k),
            ;
        }
    }
}

/// A varint read from `s` occupies between one and five of its bytes.
pub proof fn lemma_varint_read_len(s: Seq<u8>)
    ensures
        varint_read(s) matches Ok((v, k)) ==> 1 <= k <= s.len() && k <= VARINT_MAX_BYTES,
{
    lemma_parse_bounded(s, VARINT_MAX_BYTES as nat);
}

proof fn lemma_groups_len(u: nat, n: nat)
    requires
        u < pow128(n),
        n >= 1,
    ensures
        1 <= groups_of(u).len() <= n,
    decreases u,
{
    if u >= 128 {
        assert(n > 1) by {
            reveal_with_fuel(pow128, 2);
        }
        let m = (n - 1) as nat;
        assert(u / 128 < pow128(m)) by {
            assert(pow128(n) == 128 * pow128(m));
            assert(u / 128 < pow128(m)) by (nonlinear_arith)
                requires
                    u < 128 * pow128(m),
            ;
        }
        lemma_groups_len(u / 128, m);
    }
}

/// Any value below `128^budget` reads back from its shortest encoding, whatever follows it.
proof fn lemma_groups_parse(u: nat, rest: Seq<u8>, budget: nat)
    requires
        u < pow128(budget),
        budget >= 1,
    ensures
        parse_groups(groups_of(u) + rest, budget) == Ok::<(nat, nat), VarIntError>(
            (groups_of(u).len(), u),
        ),
    decreases u,
{
    let s = groups_of(u) + rest;
    if u < 128 {
        assert(s[0] == u as u8);
    } else {
        let m = (budget - 1) as nat;
        assert(m > 0) by {
            reveal_with_fuel(pow128, 2);
        }
        assert(u / 128 < pow128(m)) by {
            assert(pow128(budget) == 128 * pow128(m));
            assert(u / 128 < pow128(m)) by (nonlinear_arith)
                requires
                    u < 128 * pow128(m),
            ;
        }
        lemma_groups_parse(u / 128, rest, m);
        assert(s.skip(1) =~= groups_of(u / 128) + rest);
        assert(s[0] == (u % 128 + 128) as u8);
        assert(u % 128 + 128 * (u / 128) == u) by (nonlinear_arith);
    }
}

/// Reading back the shortest encoding of `v` gives `v` and the encoding's length.
pub proof fn lemma_varint_round_trip(v: i32, rest: Seq<u8>)
    ensures
        varint_read(varint_bytes(v) + rest) == Ok::<(i32, nat), VarIntError>(
            (v, varint_bytes(v).len()),
        ),
        1 <= varint_bytes(v).len() <= VARINT_MAX_BYTES,
{
    let u = raw_u32(v);
    lemma_pow128_values();
    lemma_groups_parse(u, rest, 5);
    lemma_groups_len(u, 5);
}

proof fn lemma_groups_prefix_incomplete(u: nat, i: nat, budget: nat)
    requires
        i < groups_of(u).len(),
        budget >= groups_of(u).len(),
    ensures
        parse_groups(groups_of(u).take(i as int), budget) == Err::<(nat, nat), VarIntError>(
            VarIntError::Incomplete,
        ),
    decreases u,
{
    let s = groups_of(u).take(i as int);
    if i > 0 {
        assert(u >= 128);
        assert(s[0] == (u % 128 + 128) as u8);
        assert(s.skip(1) =~= groups_of(u / 128).take(i - 1));
        lemma_groups_prefix_incomplete(u / 128, (i - 1) as nat, (budget - 1) as nat);
    }
}

/// A strict prefix of an encoding reads as incomplete.
pub proof fn lemma_varint_prefix_incomplete(v: i32, i: nat)
    requires
        i < varint_bytes(v).len(),
    ensures
        varint_read(varint_bytes(v).take(i as int)) == Err::<(i32, nat), VarIntError>(
            VarIntError::Incomplete,
        ),
{
    lemma_pow128_values();
    lemma_groups_len(raw_u32(v), 5);
    lemma_groups_prefix_incomplete(raw_u32(v), i, 5);
}

fn parse_groups_from(s: &[u8], i: usize, budget: usize) -> (r: Result<(usize, u64), VarIntError>)
    requires
        i <= s@.len(),
        budget <= VARINT_MAX_BYTES,
    ensures
        match parse_groups(s@.skip(i as int), budget as nat) {
            Ok((k, v)) => r == Ok::<(usize, u64), VarIntError>((k as usize, v as u64)),
            Err(e) => r == Err::<(usize, u64), VarIntError>(e),
        },
    decreases budget,
{
    proof {
        lemma_parse_bounded(s@.skip(i as int), budget as nat);
        lemma_pow128_values();
    }
    if budget == 0 {
        Err(VarIntError::TooLong)
    } else if i >= s.len() {
        Err(VarIntError::Incomplete)
    } else if s[i] < 128 {
        Ok((1, s[i] as u64))
    } else {
        let b = s[i];
        proof {
            assert(s@.skip(i as int).skip(1) =~= s@.skip(i + 1));
            lemma_parse_bounded(s@.skip(i + 1), (budget - 1) as nat);
        }
        match parse_groups_from(s, i + 1, budget - 1) {
            Ok((k, v)) => {
                proof {
                    assert(pow128(k as nat) <= pow128(4)) by {
                        lemma_pow128_mono(k as nat, 4);
                    }
                    lemma_pow128_values();
                }
                Ok((k + 1, (b - 128) as u64 + 128 * v))
            },
            Err(e) => Err(e),
        }
    }
}

proof fn lemma_pow128_values()
    ensures
        pow128(4) == 0x1000_0000,
        pow128(5) == 0x8_0000_0000,
{
    reveal_with_fuel(pow128, 6);
}

proof fn lemma_pow128_mono(a: nat, b: nat)
    requires
        a <= b,
    ensures
        pow128(a) <= pow128(b),
    decreases b,
{
    if a < b {
        lemma_pow128_mono(a, (b - 1) as nat);
    }
}

/// Reads a variable-length integer at the front of `s`, tolerating encodings
/// longer than the shortest one up to five bytes.
pub fn read_varint(s: &[u8]) -> (r: Result<(i32, usize), VarIntError>)
    ensures
        match varint_read(s@) {
            Ok((v, k)) => r == Ok::<(i32, usize), VarIntError>((v, k as usize)),
            Err(e) => r == Err::<(i32, usize), VarIntError>(e),
        },
{
    proof {
        assert(s@.skip(0) =~= s@);
    }
    read_varint_at(s, 0)
}

/// Reads a variable-length integer starting at byte `pos` of `s`.
pub fn read_varint_at(s: &[u8], pos: usize) -> (r: Result<(i32, usize), VarIntError>)
    requires
        pos <= s@.len(),
    ensures
        match varint_read(s@.skip(pos as int)) {
            Ok((v, k)) => r == Ok::<(i32, usize), VarIntError>((v, k as usize)),
            Err(e) => r == Err::<(i32, usize), VarIntError>(e),
        },
        r matches Ok((v, k)) ==> 1 <= k <= VARINT_MAX_BYTES && pos + k <= s@.len(),
{
    proof {
        lemma_parse_bounded(s@.skip(pos as int), 5);
        lemma_pow128_values();
        if let Ok((k, v)) = parse_groups(s@.skip(pos as int), 5) {
            lemma_pow128_mono(k, 5);
        }
    }
    match parse_groups_from(s, pos, VARINT_MAX_BYTES) {
        Ok((k, v)) => {
            let m: u64 = v % 0x1_0000_0000;
            let value: i32 = if m < 0x8000_0000 {
                m as i32
            } else {
                (m as i64 - 0x1_0000_0000) as i32
            };
            Ok((value, k))
        },
        Err(e) => Err(e),
    }
}

/// Appends the shortest encoding of `v` to `out`.
pub fn write_varint(v: i32, out: &mut Vec<u8>)
    ensures
        final(out)@ == old(out)@ + varint_bytes(v),
{
    let mut u: u32 = if v >= 0 {
        v as u32
    } else {
        (v as i64 + 0x1_0000_0000) as u32
    };
    let ghost start = old(out)@;
    assert(u as nat == raw_u32(v));
    while u >= 128
        invariant
            out@ + groups_of(u as nat) == start + varint_bytes(v),
        decreases u,
    {
        let ghost before = out@;
        out.push((u % 128 + 128) as u8);
        assert(out@ + groups_of((u / 128) as nat) =~= before + groups_of(u as nat));
        u = u / 128;
    }
    out.push(u as u8);
    assert(out@ =~= start + varint_bytes(v));
}

} // verus!
