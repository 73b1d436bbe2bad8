//! The content hasher: a deterministic function from byte content to a
//! fixed-form printable identifier. Object identity, deduplication and the
//! Merkle property all rest on the assumption that it is collision-resistant;
//! that assumption is a documented precondition of the laws that need it, not
//! something this module can establish.
use vstd::prelude::*;

verus! {

/// Offset basis of the 64-bit FNV-1a hash.
pub const FNV_OFFSET: u64 = 0xcbf29ce484222325;

/// Prime multiplier of the 64-bit FNV-1a hash.
pub const FNV_PRIME: u64 = 0x100000001b3;

/// One step of the hash: fold the next byte into the accumulator.
pub open spec fn fnv_step(acc: u64, byte: u8) -> u64 {
    (((acc ^ (byte as u64)) as int * FNV_PRIME as int) % 0x10000000000000000) as u64
}

/// The hash of a byte sequence: the FNV-1a fold over all its bytes.
pub open spec fn content_hash(data: Seq<u8>) -> u64
    decreases data.len(),
{
    if data.len() == 0 {
        FNV_OFFSET
    } else {
        fnv_step(content_hash(data.drop_last()), data.last())
    }
}

/// A content hash: a distinct value type, never confused with file names or
/// arbitrary text. Equal content always yields equal hashes; the converse is
/// the collision-resistance assumption.
#[derive(Clone, Copy, Debug, PartialEq, Eq, Structural)]
pub struct ObjectHash {
    pub value: u64,
}

impl View for ObjectHash {
    type V = u64;

    open spec fn view(&self) -> u64 {
        self.value
    }
}

impl ObjectHash {
    /// The printable fixed-form rendering: sixteen hex digits.
    pub fn to_hex(&self) -> (r: Vec<u8>)
        ensures
            r@ == hex_of_u64(self.value),
    {
        u64_to_hex(self.value)
    }
}

/// Computes the content hash of `data`.
pub fn calc_hash(data: &Vec<u8>) -> (r: ObjectHash)
    ensures
        r@ == content_hash(data@),
{
    let mut acc: u64 = FNV_OFFSET;
    let mut i: usize = 0;
    while i < data.len()
        invariant
            0 <= i <= data@.len(),
            acc == content_hash(data@.take(i as int)),
        decreases data@.len() - i,
    {
        proof {
            assert(data@.take(i + 1).drop_last() =~= data@.take(i as int));
            assert(data@.take(i + 1).last() == data@[i as int]);
        }
        acc = (acc ^ (data[i] as u64)).wrapping_mul(FNV_PRIME);
        i = i + 1;
    }
    proof {
        assert(data@.take(data@.len() as int) =~= data@);
    }
    ObjectHash { value: acc }
}

/// The ASCII hex digit for a value below sixteen.
pub open spec fn hex_digit(n: int) -> u8 {
    if n < 10 {
        (0x30 + n) as u8
    } else {
        (0x57 + n) as u8
    }
}

/// Whether a byte is an ASCII hex digit as this module writes them.
pub open spec fn is_hex_digit(b: u8) -> bool {
    (0x30 <= b && b <= 0x39) || (0x61 <= b && b <= 0x66)
}

/// The value of an ASCII hex digit.
pub open spec fn hex_value(b: u8) -> int {
    if b <= 0x39 {
        b - 0x30
    } else {
        b - 0x57
    }
}

/// `n` hex digits of `v`, least significant first.
pub open spec fn hex_digits(v: int, n: nat) -> Seq<u8>
    decreases n,
{
    if n == 0 {
        Seq::empty()
    } else {
        seq![hex_digit(v % 16)] + hex_digits(v / 16, (n - 1) as nat)
    }
}

/// The sixteen-digit rendering of a 64-bit hash value.
pub open spec fn hex_of_u64(v: u64) -> Seq<u8> {
    hex_digits(v as int, 16)
}

/// The value read back from a sequence of hex digits, least significant first.
pub open spec fn hex_to_int(s: Seq<u8>) -> int
    decreases s.len(),
{
    if s.len() == 0 {
        0
    } else {
        hex_value(s[0]) + 16 * hex_to_int(s.skip(1))
    }
}

/// Whether every byte of `s` is a hex digit.
pub open spec fn all_hex(s: Seq<u8>) -> bool {
    forall|i: int| 0 <= i < s.len() ==> is_hex_digit(#[trigger] s[i])
}

proof fn lemma_hex_digit_value(n: int)
    requires
        0 <= n < 16,
    ensures
        is_hex_digit(hex_digit(n)),
        hex_value(hex_digit(n)) == n,
{
}

/// Rendering and reading back are inverse: the digits of `v % 16^n` decode to
/// `v % 16^n`, and every digit produced is a hex digit.
proof fn lemma_hex_digits_round_trip(v: int, n: nat)
    requires
        0 <= v,
    ensures
        all_hex(hex_digits(v, n)),
        hex_digits(v, n).len() == n,
        hex_to_int(hex_digits(v, n)) == v % pow16(n),
    decreases n,
{
    if n == 0 {
        assert(v % 1 == 0) by (nonlinear_arith)
            requires 0 <= v;
    } else {
        let d = hex_digit(v % 16);
        let rest = hex_digits(v / 16, (n - 1) as nat);
        assert(0 <= v % 16 < 16) by (nonlinear_arith)
            requires 0 <= v;
        assert(0 <= v / 16) by (nonlinear_arith)
            requires 0 <= v;
        lemma_hex_digit_value(v % 16);
        lemma_hex_digits_round_trip(v / 16, (n - 1) as nat);
        lemma_pow16_pos((n - 1) as nat);
        let s = hex_digits(v, n);
        assert(s == seq![d] + rest);
        assert(s.skip(1) =~= rest);
        assert(forall|i: int| 0 <= i < s.len() ==> is_hex_digit(#[trigger] s[i]));
        assert(hex_to_int(s) == (v % 16) + 16 * ((v / 16) % pow16((n - 1) as nat)));
        lemma_div_mod_16(v, pow16((n - 1) as nat));
        assert(pow16(n) == 16 * pow16((n - 1) as nat));
    }
}

/// Sixteen to the `n`th power.
pub open spec fn pow16(n: nat) -> int
    decreases n,
{
    if n == 0 {
        1
    } else {
        16 * pow16((n - 1) as nat)
    }
}

proof fn lemma_pow16_pos(n: nat)
    ensures
        pow16(n) >= 1,
    decreases n,
{
    if n > 0 {
        lemma_pow16_pos((n - 1) as nat);
    }
}

proof fn lemma_div_mod_16(v: int, p: int)
    requires
        0 <= v,
        1 <= p,
    ensures
        (v % 16) + 16 * ((v / 16) % p) == v % (16 * p),
{
    assert((v % 16) + 16 * ((v / 16) % p) == v % (16 * p)) by (nonlinear_arith)
        requires 0 <= v, 1 <= p;
}

/// The sixteen digits of a hash value decode back to that value, and all of
/// them are hex digits.
pub proof fn lemma_hex_of_u64_round_trip(v: u64)
    ensures
        all_hex(hex_of_u64(v)),
        hex_of_u64(v).len() == 16,
        hex_to_int(hex_of_u64(v)) == v,
{
    lemma_hex_digits_round_trip(v as int, 16);
    assert(pow16(16) == 0x10000000000000000) by {
        reveal_with_fuel(pow16, 17);
    }
    assert(v as int % 0x10000000000000000 == v as int) by (nonlinear_arith)
        requires 0 <= v < 0x10000000000000000;
}

/// Renders a hash value as sixteen hex digits, least significant first.
pub fn u64_to_hex(v: u64) -> (r: Vec<u8>)
    ensures
        r@ == hex_of_u64(v),
{
    let mut out: Vec<u8> = Vec::new();
    let mut x: u64 = v;
    let mut n: usize = 0;
    while n < 16
        invariant
            0 <= n <= 16,
            out@.len() == n,
            hex_digits(v as int, 16) =~= out@ + hex_digits(x as int, (16 - n) as nat),
        decreases 16 - n,
    {
        let d: u64 = x % 16;
        let b: u8 = if d < 10 {
            0x30 + (d as u8)
        } else {
            0x57 + (d as u8)
        };
        proof {
            assert(b == hex_digit(x as int % 16));
            assert(hex_digits(x as int, (16 - n) as nat) == seq![hex_digit(x as int % 16)]
                + hex_digits(x as int / 16, (16 - n - 1) as nat));
            assert(out@.push(b) + hex_digits(x as int / 16, (16 - n - 1) as nat) =~= out@
                + hex_digits(x as int, (16 - n) as nat));
        }
        out.push(b);
        x = x / 16;
        n = n + 1;
    }
    proof {
        assert(hex_digits(x as int, 0) =~= Seq::<u8>::empty());
        assert(out@ + Seq::<u8>::empty() =~= out@);
    }
    out
}

/// Reads a hash value back from sixteen hex digits taken from `s` starting at
/// `pos`.
pub fn hex16_to_u64(s: &Vec<u8>, pos: usize) -> (r: u64)
    requires
        pos + 16 <= s@.len(),
        all_hex(s@.subrange(pos as int, pos + 16)),
        0 <= hex_to_int(s@.subrange(pos as int, pos + 16)) < 0x10000000000000000,
    ensures
        r == hex_to_int(s@.subrange(pos as int, pos + 16)),
{
    let ghost whole = s@.subrange(pos as int, pos + 16);
    let s_len: usize = s.len();
    let mut acc: u64 = 0;
    let mut k: usize = 16;
    while k > 0
        invariant
            0 <= k <= 16,
            s_len == s@.len(),
            pos + 16 <= s@.len(),
            whole == s@.subrange(pos as int, pos + 16),
            all_hex(whole),
            0 <= hex_to_int(whole) < 0x10000000000000000,
            acc == hex_to_int(whole.skip(k as int)),
            0 <= acc,
        decreases k,
    {
        proof {
            lemma_hex_suffix_bound(whole, k - 1);
            lemma_hex_to_int_bound(whole.skip(k - 1));
            assert(whole.skip(k - 1).skip(1) =~= whole.skip(k as int));
            assert(whole.skip(k - 1)[0] == whole[k - 1]);
            assert(whole[k - 1] == s@[pos + k - 1]);
            assert(is_hex_digit(whole[k - 1]));
        }
        let b: u8 = s[pos + (k - 1)];
        let d: u64 = if b <= 0x39 {
            (b - 0x30) as u64
        } else {
            (b - 0x57) as u64
        };
        acc = d + 16 * acc;
        k = k - 1;
    }
    proof {
        assert(whole.skip(0) =~= whole);
    }
    acc
}

/// `hex_to_int` of a suffix of the whole is bounded by the whole: used to show
/// the accumulator never overflows.
proof fn lemma_hex_suffix_bound(s: Seq<u8>, k: int)
    requires
        0 <= k <= s.len(),
        all_hex(s),
        0 <= hex_to_int(s) < 0x10000000000000000,
    ensures
        0 <= hex_to_int(s.skip(k)) < 0x10000000000000000,
    decreases k,
{
    if k == 0 {
        assert(s.skip(0) =~= s);
    } else {
        lemma_hex_suffix_bound(s, k - 1);
        let t = s.skip(k - 1);
        assert(t.skip(1) =~= s.skip(k));
        assert(t.len() > 0);
        assert(t[0] == s[k - 1]);
        assert(is_hex_digit(t[0]));
        assert(hex_to_int(t) == hex_value(t[0]) + 16 * hex_to_int(t.skip(1)));
        lemma_hex_to_int_bound(s.skip(k));
        assert(0 <= hex_value(t[0]));
        assert(16 * hex_to_int(s.skip(k)) <= hex_to_int(t));
    }
}

/// Sixteen hex digits decode to a value a 64-bit hash can hold.
pub proof fn lemma_hex_to_int_in_range(s: Seq<u8>)
    requires
        all_hex(s),
        s.len() == 16,
    ensures
        0 <= hex_to_int(s) < 0x10000000000000000,
{
    lemma_hex_to_int_upper(s);
    assert(pow16(16) == 0x10000000000000000) by {
        reveal_with_fuel(pow16, 17);
    }
}

/// A decoded hex sequence is below sixteen to the power of its length.
proof fn lemma_hex_to_int_upper(s: Seq<u8>)
    requires
        all_hex(s),
    ensures
        0 <= hex_to_int(s) < pow16(s.len()),
    decreases s.len(),
{
    if s.len() == 0 {
    } else {
        assert(all_hex(s.skip(1))) by {
            assert(forall|i: int| 0 <= i < s.skip(1).len() ==> s.skip(1)[i] == s[i + 1]);
        }
        lemma_hex_to_int_upper(s.skip(1));
        assert(is_hex_digit(s[0]));
        assert(0 <= hex_value(s[0]) < 16);
        let rest = hex_to_int(s.skip(1));
        let p = pow16(s.skip(1).len());
        assert(16 * rest <= 16 * (p - 1)) by (nonlinear_arith)
            requires rest <= p - 1;
        assert(pow16(s.len()) == 16 * p);
    }
}

/// A decoded hex sequence is non-negative when all its bytes are hex digits.
proof fn lemma_hex_to_int_bound(s: Seq<u8>)
    requires
        all_hex(s),
    ensures
        0 <= hex_to_int(s),
    decreases s.len(),
{
    if s.len() > 0 {
        assert(all_hex(s.skip(1))) by {
            assert(forall|i: int| 0 <= i < s.skip(1).len() ==> s.skip(1)[i] == s[i + 1]);
        }
        lemma_hex_to_int_bound(s.skip(1));
        assert(is_hex_digit(s[0]));
    }
}

} // verus!
