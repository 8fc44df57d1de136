//! Checksum primitives: the weak rolling checksum and the strong digest.
//!
//! The weak checksum is Adler-32. It is cheap, collision-prone, and — the
//! property everything here depends on — it can be updated in O(1) when the
//! window it covers slides by one byte. [`RollingChecksum`] maintains that
//! state and is verified against the mathematical definition
//! [`adler32_of`]. The strong checksum is a 16-byte MD4 digest, used only to
//! confirm candidates that the weak checksum proposes.

use vstd::arithmetic::div_mod::{
    lemma_add_mod_noop, lemma_add_mod_noop_right, lemma_mod_add_multiples_vanish,
    lemma_mod_division_less_than_divisor, lemma_mul_mod_noop_left, lemma_small_mod,
    lemma_sub_mod_noop,
};
use vstd::prelude::*;
use vstd::string::StringExecFns;

use md4::{Digest, Md4};
use simd_adler32::Adler32;

verus! {

/// The modulus of the Adler-32 checksum: the largest prime below `2^16`.
pub const ADLER_MOD: u32 = 65521;

/// The sum of the bytes of `s`.
pub open spec fn sum_bytes(s: Seq<u8>) -> int
    decreases s.len(),
{
    if s.len() == 0 {
        0
    } else {
        sum_bytes(s.drop_last()) + s.last()
    }
}

/// The position-weighted sum of the bytes of `s`: byte `i` counts
/// `s.len() - i` times, so the first byte weighs the most.
pub open spec fn weighted_sum_bytes(s: Seq<u8>) -> int
    decreases s.len(),
{
    if s.len() == 0 {
        0
    } else {
        weighted_sum_bytes(s.drop_last()) + sum_bytes(s)
    }
}

/// The low half of the Adler-32 checksum of `s`.
pub open spec fn adler_a(s: Seq<u8>) -> int {
    (1 + sum_bytes(s)) % (ADLER_MOD as int)
}

/// The high half of the Adler-32 checksum of `s`.
pub open spec fn adler_b(s: Seq<u8>) -> int {
    (s.len() + weighted_sum_bytes(s)) % (ADLER_MOD as int)
}

/// The Adler-32 checksum of `s`: the weak checksum of this library.
pub open spec fn adler32_of(s: Seq<u8>) -> u32 {
    (adler_b(s) * 0x10000 + adler_a(s)) as u32
}

pub proof fn lemma_sum_bytes_nonneg(s: Seq<u8>)
    ensures
        sum_bytes(s) >= 0,
    decreases s.len(),
{
    if s.len() > 0 {
        lemma_sum_bytes_nonneg(s.drop_last());
    }
}

pub proof fn lemma_weighted_sum_bytes_nonneg(s: Seq<u8>)
    ensures
        weighted_sum_bytes(s) >= 0,
    decreases s.len(),
{
    if s.len() > 0 {
        lemma_weighted_sum_bytes_nonneg(s.drop_last());
        lemma_sum_bytes_nonneg(s);
    }
}

/// Both halves of the checksum are reduced modulo [`ADLER_MOD`].
pub proof fn lemma_adler_halves_bounded(s: Seq<u8>)
    ensures
        0 <= adler_a(s) < ADLER_MOD,
        0 <= adler_b(s) < ADLER_MOD,
{
    lemma_sum_bytes_nonneg(s);
    lemma_weighted_sum_bytes_nonneg(s);
    lemma_mod_division_less_than_divisor(1 + sum_bytes(s), ADLER_MOD as int);
    lemma_mod_division_less_than_divisor(s.len() + weighted_sum_bytes(s), ADLER_MOD as int);
}

pub proof fn lemma_sum_bytes_push(s: Seq<u8>, x: u8)
    ensures
        sum_bytes(s.push(x)) == sum_bytes(s) + x,
{
    assert(s.push(x).drop_last() =~= s);
    assert(s.push(x).last() == x);
}

pub proof fn lemma_weighted_sum_bytes_push(s: Seq<u8>, x: u8)
    ensures
        weighted_sum_bytes(s.push(x)) == weighted_sum_bytes(s) + sum_bytes(s) + x,
{
    assert(s.push(x).drop_last() =~= s);
    lemma_sum_bytes_push(s, x);
}

pub proof fn lemma_sum_bytes_drop_first(s: Seq<u8>)
    requires
        s.len() >= 1,
    ensures
        sum_bytes(s.drop_first()) == sum_bytes(s) - s[0],
    decreases s.len(),
{
    if s.len() == 1 {
        assert(s.drop_first() =~= Seq::<u8>::empty());
        assert(s.drop_last() =~= Seq::<u8>::empty());
    } else {
        let d = s.drop_first();
        lemma_sum_bytes_drop_first(s.drop_last());
        assert(d.drop_last() =~= s.drop_last().drop_first());
        assert(d.last() == s.last());
    }
}

pub proof fn lemma_weighted_sum_bytes_drop_first(s: Seq<u8>)
    requires
        s.len() >= 1,
    ensures
        weighted_sum_bytes(s.drop_first()) == weighted_sum_bytes(s) - s.len() * s[0],
    decreases s.len(),
{
    if s.len() == 1 {
        assert(s.drop_first() =~= Seq::<u8>::empty());
        assert(s.drop_last() =~= Seq::<u8>::empty());
        assert(s.last() == s[0]);
        assert(sum_bytes(Seq::<u8>::empty()) == 0);
        assert(weighted_sum_bytes(Seq::<u8>::empty()) == 0);
        assert(sum_bytes(s) == s[0]);
        assert(weighted_sum_bytes(s) == s[0]);
        assert(s.len() * s[0] == s[0]) by (nonlinear_arith)
            requires s.len() == 1;
    } else {
        let d = s.drop_first();
        let n = s.len() as int;
        lemma_weighted_sum_bytes_drop_first(s.drop_last());
        lemma_sum_bytes_drop_first(s);
        assert(d.drop_last() =~= s.drop_last().drop_first());
        assert(d.last() == s.last());
        assert(s.drop_last()[0] == s[0]);
        assert(weighted_sum_bytes(d) == weighted_sum_bytes(d.drop_last()) + sum_bytes(d));
        assert(weighted_sum_bytes(d) == weighted_sum_bytes(s.drop_last()) - (n - 1) * s[0]
            + sum_bytes(s) - s[0]);
        assert(weighted_sum_bytes(s) == weighted_sum_bytes(s.drop_last()) + sum_bytes(s));
        assert((n - 1) * s[0] + s[0] == n * s[0]) by (nonlinear_arith);
    }
}

/// The weak checksum of a byte window, maintained incrementally.
///
/// The struct carries the two Adler-32 accumulators together with the length
/// of the window and, as ghost state, the window itself. Every operation is
/// O(1): sliding the window forward re-derives the checksum from the byte
/// that leaves and the byte that enters instead of re-reading the window.
pub struct RollingChecksum {
    a: u32,
    b: u32,
    len: usize,
    win: Ghost<Seq<u8>>,
}

impl RollingChecksum {
    /// The byte window this checksum currently covers.
    pub closed spec fn window(&self) -> Seq<u8> {
        self.win@
    }

    /// The accumulators agree with the Adler-32 definition on the window.
    pub closed spec fn wf(&self) -> bool {
        &&& self.len == self.win@.len()
        &&& self.a as int == adler_a(self.win@)
        &&& self.b as int == adler_b(self.win@)
    }

    /// A checksum over the empty window.
    pub fn new() -> (r: Self)
        ensures
            r.wf(),
            r.window() == Seq::<u8>::empty(),
    {
        let r = RollingChecksum { a: 1, b: 0, len: 0, win: Ghost(Seq::empty()) };
        proof {
            lemma_small_mod(1nat, ADLER_MOD as nat);
            lemma_small_mod(0nat, ADLER_MOD as nat);
        }
        r
    }

    /// Extends the window by one byte at its right edge.
    pub fn push(&mut self, x: u8)
        requires
            old(self).wf(),
            old(self).window().len() < usize::MAX,
        ensures
            final(self).wf(),
            final(self).window() == old(self).window().push(x),
    {
        proof {
            lemma_adler_halves_bounded(self.win@);
        }
        let ghost w0 = self.win@;
        self.a = (self.a + (x as u32)) % ADLER_MOD;
        self.b = (self.b + self.a) % ADLER_MOD;
        self.len = self.len + 1;
        proof {
            let m = ADLER_MOD as int;
            self.win@ = w0.push(x);
            lemma_sum_bytes_push(w0, x);
            lemma_weighted_sum_bytes_push(w0, x);
            // a' == (1 + sum(w0) + x) % m
            lemma_small_mod(x as nat, ADLER_MOD as nat);
            lemma_add_mod_noop(1 + sum_bytes(w0), x as int, m);
            // b' == (len + 1 + wsum(w0) + sum(w0) + x) % m
            lemma_add_mod_noop(w0.len() + weighted_sum_bytes(w0), 1 + sum_bytes(w0) + x, m);
        }
    }

    /// Slides the window one byte to the right: `outgoing` (its current first
    /// byte) leaves, `incoming` enters at the right edge.
    pub fn roll(&mut self, outgoing: u8, incoming: u8)
        requires
            old(self).wf(),
            old(self).window().len() >= 1,
            old(self).window()[0] == outgoing,
        ensures
            final(self).wf(),
            final(self).window() == old(self).window().drop_first().push(incoming),
    {
        proof {
            lemma_adler_halves_bounded(self.win@);
        }
        let ghost w0 = self.win@;
        let ghost m = ADLER_MOD as int;
        let ghost n = w0.len() as int;
        let a1 = (self.a + (ADLER_MOD - (outgoing as u32)) + (incoming as u32)) % ADLER_MOD;
        proof {
            lemma_mod_division_less_than_divisor(self.len as int, ADLER_MOD as int);
        }
        let lm: u32 = (self.len % (ADLER_MOD as usize)) as u32;
        proof {
            assert((lm as int) * (outgoing as int) <= 65520 * 255) by (nonlinear_arith)
                requires
                    lm <= 65520,
                    outgoing <= 255,
            ;
        }
        let t = (lm * (outgoing as u32)) % ADLER_MOD;
        let b1 = (self.b + a1) % ADLER_MOD;
        let b2 = (b1 + (ADLER_MOD - t)) % ADLER_MOD;
        let b3 = (b2 + (ADLER_MOD - 1)) % ADLER_MOD;
        self.a = a1;
        self.b = b3;
        proof {
            self.win@ = w0.drop_first().push(incoming);
            let w1 = w0.drop_first().push(incoming);
            let o = outgoing as int;
            let c = incoming as int;
            let s0 = sum_bytes(w0);
            let ws0 = weighted_sum_bytes(w0);
            lemma_sum_bytes_drop_first(w0);
            lemma_weighted_sum_bytes_drop_first(w0);
            lemma_sum_bytes_push(w0.drop_first(), incoming);
            lemma_weighted_sum_bytes_push(w0.drop_first(), incoming);
            assert(sum_bytes(w1) == s0 - o + c);
            assert(weighted_sum_bytes(w1) == ws0 - n * o + s0 - o + c);
            // a1 == (1 + s0 - o + c) % m == adler_a(w1)
            lemma_add_mod_noop_right(m - o + c, 1 + s0, m);
            lemma_mod_add_multiples_vanish(1 + s0 - o + c, m);
            assert(a1 as int == adler_a(w1));
            // t == (n * o) % m
            lemma_mul_mod_noop_left(n, o, m);
            assert(t as int == (n * o) % m);
            // b1 == (n + ws0 + 1 + s0 - o + c) % m
            lemma_add_mod_noop(n + ws0, 1 + s0 - o + c, m);
            assert(b1 as int == (n + ws0 + 1 + s0 - o + c) % m);
            // b2 == (b1 - n * o) % m
            lemma_mod_add_multiples_vanish(b1 as int - t, m);
            lemma_sub_mod_noop(n + ws0 + 1 + s0 - o + c, n * o, m);
            assert(b2 as int == (n + ws0 + 1 + s0 - o + c - n * o) % m);
            // b3 == (b2 - 1) % m == adler_b(w1)
            lemma_mod_add_multiples_vanish(b2 as int - 1, m);
            lemma_small_mod(1nat, ADLER_MOD as nat);
            lemma_sub_mod_noop(n + ws0 + 1 + s0 - o + c - n * o, 1, m);
            assert(b3 as int == (n + ws0 + s0 - o + c - n * o) % m);
            assert(adler_b(w1) == (n + (ws0 - n * o + s0 - o + c)) % m);
        }
    }

    /// Shrinks the window by one byte at its left edge: `outgoing` (its
    /// current first byte) leaves and nothing enters.
    #[verifier::rlimit(50)]
    pub fn pop_front(&mut self, outgoing: u8)
        requires
            old(self).wf(),
            old(self).window().len() >= 1,
            old(self).window()[0] == outgoing,
        ensures
            final(self).wf(),
            final(self).window() == old(self).window().drop_first(),
    {
        proof {
            lemma_adler_halves_bounded(self.win@);
        }
        let ghost w0 = self.win@;
        let ghost m = ADLER_MOD as int;
        let ghost n = w0.len() as int;
        let a1 = (self.a + (ADLER_MOD - (outgoing as u32))) % ADLER_MOD;
        proof {
            lemma_mod_division_less_than_divisor(self.len as int, ADLER_MOD as int);
        }
        let lm: u32 = (self.len % (ADLER_MOD as usize)) as u32;
        proof {
            assert((lm as int) * (outgoing as int) <= 65520 * 255) by (nonlinear_arith)
                requires
                    lm <= 65520,
                    outgoing <= 255,
            ;
        }
        let t = (lm * (outgoing as u32)) % ADLER_MOD;
        let b1 = (self.b + (ADLER_MOD - t)) % ADLER_MOD;
        let b2 = (b1 + (ADLER_MOD - 1)) % ADLER_MOD;
        self.a = a1;
        self.b = b2;
        self.len = self.len - 1;
        proof {
            self.win@ = w0.drop_first();
            let w1 = w0.drop_first();
            let o = outgoing as int;
            let s0 = sum_bytes(w0);
            let ws0 = weighted_sum_bytes(w0);
            lemma_sum_bytes_drop_first(w0);
            lemma_weighted_sum_bytes_drop_first(w0);
            assert(sum_bytes(w1) == s0 - o);
            assert(weighted_sum_bytes(w1) == ws0 - n * o);
            // a1 == (1 + s0 - o) % m == adler_a(w1)
            lemma_add_mod_noop_right(m - o, 1 + s0, m);
            lemma_mod_add_multiples_vanish(1 + s0 - o, m);
            assert(a1 as int == adler_a(w1));
            // t == (n * o) % m
            lemma_mul_mod_noop_left(n, o, m);
            // b1 == (n + ws0 - n * o) % m
            lemma_mod_add_multiples_vanish(self.b as int - t, m);
            lemma_sub_mod_noop(n + ws0, n * o, m);
            assert(b1 as int == (n + ws0 - n * o) % m);
            // b2 == (b1 - 1) % m == adler_b(w1)
            lemma_mod_add_multiples_vanish(b1 as int - 1, m);
            lemma_small_mod(1nat, ADLER_MOD as nat);
            lemma_sub_mod_noop(n + ws0 - n * o, 1, m);
            assert(b2 as int == (n - 1 + (ws0 - n * o)) % m);
        }
    }

    /// The 32-bit checksum of the current window.
    pub fn value(&self) -> (r: u32)
        requires
            self.wf(),
        ensures
            r == adler32_of(self.window()),
    {
        proof {
            lemma_adler_halves_bounded(self.win@);
        }
        self.b * 0x10000 + self.a
    }

    /// The length of the current window.
    pub fn window_len(&self) -> (r: usize)
        requires
            self.wf(),
        ensures
            r == self.window().len(),
    {
        self.len
    }
}

/// Relies on `simd_adler32::Adler32` (`new`, `write`, `finish`): the Adler-32
/// checksum of the input bytes, which [`adler32_of`] states in full.
#[verifier::external_body]
fn adler32_bytes(bytes: &[u8]) -> (r: u32)
    ensures
        r == adler32_of(bytes@),
{
    let mut adler = Adler32::new();
    adler.write(bytes);
    adler.finish()
}

/// The 16-byte MD4 digest of a byte sequence. Only the trusted wrapper
/// [`md4_digest`] gives this name a value.
pub uninterp spec fn md4_of(bytes: Seq<u8>) -> Seq<u8>;

/// Relies on `md4::Md4` through the `Digest` trait (`new`, `update`,
/// `finalize`): the 16-byte MD4 digest of the input, a function of the input
/// bytes alone.
#[verifier::external_body]
fn md4_digest(bytes: &[u8]) -> (r: Vec<u8>)
    ensures
        r@ == md4_of(bytes@),
        r@.len() == 16,
{
    let mut hasher = Md4::new();
    hasher.update(bytes);
    hasher.finalize().to_vec()
}

/// The character for one digit value: `0` to `9`, then `a` to `f`.
pub open spec fn digit_char(d: int) -> char {
    if d < 10 {
        ((48 + d) as u8) as char
    } else {
        ((87 + d) as u8) as char
    }
}

/// The lowercase hexadecimal rendering of a byte sequence, two digits per
/// byte.
pub open spec fn hex_of(bytes: Seq<u8>) -> Seq<char>
    decreases bytes.len(),
{
    if bytes.len() == 0 {
        Seq::<char>::empty()
    } else {
        hex_of(bytes.drop_last()) + seq![
            digit_char(bytes.last() as int / 16),
            digit_char(bytes.last() as int % 16),
        ]
    }
}

/// The decimal rendering of a non-negative integer.
pub open spec fn decimal_of(n: int) -> Seq<char>
    decreases n,
    when n >= 0
{
    if n < 10 {
        seq![digit_char(n)]
    } else {
        decimal_of(n / 10).push(digit_char(n % 10))
    }
}

/// The one-character string for a digit value below 16.
fn digit_str(d: u8) -> (r: &'static str)
    requires
        d < 16,
    ensures
        r@ == seq![digit_char(d as int)],
{
    proof {
        reveal_strlit("0");
        reveal_strlit("1");
        reveal_strlit("2");
        reveal_strlit("3");
        reveal_strlit("4");
        reveal_strlit("5");
        reveal_strlit("6");
        reveal_strlit("7");
        reveal_strlit("8");
        reveal_strlit("9");
        reveal_strlit("a");
        reveal_strlit("b");
        reveal_strlit("c");
        reveal_strlit("d");
        reveal_strlit("e");
        reveal_strlit("f");
    }
    let r = match d {
        0 => "0",
        1 => "1",
        2 => "2",
        3 => "3",
        4 => "4",
        5 => "5",
        6 => "6",
        7 => "7",
        8 => "8",
        9 => "9",
        10 => "a",
        11 => "b",
        12 => "c",
        13 => "d",
        14 => "e",
        _ => "f",
    };
    proof {
        assert(r@ =~= seq![digit_char(d as int)]);
    }
    r
}

/// Renders a 32-bit value in decimal.
fn u32_decimal(n: u32) -> (r: String)
    ensures
        r@ == decimal_of(n as int),
    decreases n,
{
    if n < 10 {
        digit_str(n as u8).to_owned()
    } else {
        let mut s = u32_decimal(n / 10);
        s.append(digit_str((n % 10) as u8));
        proof {
            assert(decimal_of((n / 10) as int) + seq![digit_char((n % 10) as int)] =~= decimal_of(
                n as int,
            ));
        }
        s
    }
}

/// The weak checksum of `bytes`, rendered in decimal: the Adler-32 value
/// of the whole input, computed by the checksum crate and pinned to
/// [`adler32_of`].
pub fn rolling_checksum(bytes: &[u8]) -> (r: String)
    ensures
        r@ == decimal_of(adler32_of(bytes@) as int),
{
    u32_decimal(adler32_bytes(bytes))
}

/// The strong checksum of `bytes`, rendered in lowercase hexadecimal: 32
/// digits for the 16-byte digest.
pub fn strong_checksum(bytes: &[u8]) -> (r: String)
    ensures
        r@ == hex_of(md4_of(bytes@)),
{
    let digest = md4_digest(bytes);
    let mut s = String::new();
    let mut i: usize = 0;
    while i < digest.len()
        invariant
            i <= digest@.len(),
            s@ == hex_of(digest@.take(i as int)),
        decreases digest@.len() - i,
    {
        let b = digest[i];
        s.append(digit_str(b / 16));
        s.append(digit_str(b % 16));
        proof {
            assert(digest@.take(i + 1).drop_last() =~= digest@.take(i as int));
            assert(digest@.take(i + 1).last() == digest@[i as int]);
            assert(hex_of(digest@.take(i as int)) + seq![digit_char((b / 16) as int)] + seq![
                digit_char((b % 16) as int),
            ] =~= hex_of(digest@.take(i + 1)));
        }
        i = i + 1;
    }
    proof {
        assert(digest@.take(digest@.len() as int) =~= digest@);
    }
    s
}

/// Byte-wise equality of two slices.
pub fn bytes_eq(a: &[u8], b: &[u8]) -> (r: bool)
    ensures
        r == (a@ == b@),
{
    if a.len() != b.len() {
        return false;
    }
    let mut i: usize = 0;
    while i < a.len()
        invariant
            i <= a.len(),
            a@.len() == b@.len(),
            forall|j: int| 0 <= j < i ==> a@[j] == b@[j],
        decreases a.len() - i,
    {
        if a[i] != b[i] {
            return false;
        }
        i = i + 1;
    }
    proof {
        assert(a@ =~= b@);
    }
    true
}

/// The strong checksum of a byte window: a 16-byte collision-resistant
/// digest, used only to confirm a weak-checksum candidate.
#[derive(Debug)]
pub struct StrongChecksum {
    /// The digest bytes; always exactly 16 of them.
    pub digest: Vec<u8>,
}

impl StrongChecksum {
    /// A strong checksum holds exactly 16 digest bytes.
    pub open spec fn wf(&self) -> bool {
        self.digest@.len() == 16
    }

    /// Computes the strong checksum of `bytes`.
    pub fn compute(bytes: &[u8]) -> (r: Self)
        ensures
            r.digest@ == md4_of(bytes@),
            r.wf(),
    {
        StrongChecksum { digest: md4_digest(bytes) }
    }

    /// Whether two strong checksums hold the same digest.
    pub fn equals(&self, other: &Self) -> (r: bool)
        ensures
            r == (self.digest@ == other.digest@),
    {
        bytes_eq(self.digest.as_slice(), other.digest.as_slice())
    }
}

/// Computes [`adler32_of`] over `bytes[start..start + len]` from scratch, in
/// one left-to-right pass.
pub fn window_checksum(bytes: &[u8], start: usize, len: usize) -> (r: RollingChecksum)
    requires
        start + len <= bytes@.len(),
    ensures
        r.wf(),
        r.window() == bytes@.subrange(start as int, start + len),
{
    let n: usize = bytes.len();
    let mut rc = RollingChecksum::new();
    let mut i: usize = 0;
    while i < len
        invariant
            i <= len,
            start + len <= n,
            n == bytes@.len(),
            rc.wf(),
            rc.window() == bytes@.subrange(start as int, start + i),
        decreases len - i,
    {
        let ghost before = rc.window();
        rc.push(bytes[start + i]);
        proof {
            assert(before.push(bytes@[start + i]) =~= bytes@.subrange(
                start as int,
                start + i + 1,
            ));
        }
        i = i + 1;
    }
    rc
}

} // verus!
