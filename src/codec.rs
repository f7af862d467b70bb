use vstd::prelude::*;
use vstd::utf8::encode_utf8;
use crate::types::{EncodedRLE, MaskError, RLE};
use crate::rle::{run_sum, shape_ok, sum_runs};

verus! {

/// A character of the compact alphabet, `'0'..='o'`.
pub open spec fn in_alphabet(c: u8) -> bool {
    48 <= c <= 111
}

/// The six bits that a character carries.
pub open spec fn six_bits(c: u8) -> int {
    c as int - 48
}

/// Bit `0x20`: another character of the same integer follows.
pub open spec fn continues(c: u8) -> bool {
    six_bits(c) >= 32
}

/// The low five bits: the next chunk of the integer.
pub open spec fn chunk(c: u8) -> int {
    six_bits(c) % 32
}

/// Bit `0x10` of the last character of an integer: the integer is negative.
pub open spec fn sign_set(c: u8) -> bool {
    chunk(c) >= 16
}

pub open spec fn pow32(n: nat) -> int
    decreases n,
{
    if n == 0 {
        1
    } else {
        32 * pow32((n - 1) as nat)
    }
}

/// The number of characters of the integer that starts at `i`: up to and
/// including the first one without the continuation bit (or to the end).
pub open spec fn group_len(b: Seq<u8>, i: int) -> int
    decreases b.len() - i,
{
    if i < 0 || i >= b.len() {
        0
    } else if continues(b[i]) {
        1 + group_len(b, i + 1)
    } else {
        1
    }
}

/// The chunks of the first `n` characters from `i`, least significant first.
pub open spec fn group_mag(b: Seq<u8>, i: int, n: nat) -> int
    decreases n,
{
    if n == 0 {
        0
    } else {
        group_mag(b, i, (n - 1) as nat) + chunk(b[i + n - 1]) * pow32((n - 1) as nat)
    }
}

/// The signed integer of the `n` characters from `i`: sign-extended when the
/// last one has its sign bit.
pub open spec fn group_value(b: Seq<u8>, i: int, n: nat) -> int {
    group_mag(b, i, n) - if sign_set(b[i + n - 1]) {
        pow32(n)
    } else {
        0
    }
}

/// The integers packed in `b` from position `i` on, or `None` when the last
/// one is cut off.
pub open spec fn deltas(b: Seq<u8>, i: int) -> Option<Seq<int>>
    decreases b.len() - i,
{
    if i < 0 || i >= b.len() {
        Some(Seq::empty())
    } else {
        let n = group_len(b, i);
        if n < 1 || i + n > b.len() || continues(b[i + n - 1]) {
            None
        } else {
            match deltas(b, i + n) {
                Some(rest) => Some(seq![group_value(b, i, n as nat)] + rest),
                None => None,
            }
        }
    }
}

/// The `n` characters from `i` hold their integer in as few characters as
/// it needs: the last one is not a bare sign extension of the one before.
pub open spec fn minimal_group(b: Seq<u8>, i: int, n: int) -> bool {
    n == 1 || {
        let before = chunk(b[i + n - 2]);
        let last = chunk(b[i + n - 1]);
        !(before < 16 && last == 0) && !(before >= 16 && last == 31)
    }
}

/// Every integer packed in `b` from position `i` on is complete and takes
/// as few characters as it needs.
pub open spec fn canonical_from(b: Seq<u8>, i: int) -> bool
    decreases b.len() - i,
{
    if i < 0 || i >= b.len() {
        true
    } else {
        let n = group_len(b, i);
        &&& 1 <= n
        &&& i + n <= b.len()
        &&& !continues(b[i + n - 1])
        &&& minimal_group(b, i, n)
        &&& canonical_from(b, i + n)
    }
}

/// The runs of the chained integers `d`: the first two are runs, each later
/// one is added to the run two places back.
pub open spec fn undelta(d: Seq<int>) -> Seq<int>
    decreases d.len(),
{
    if d.len() == 0 {
        Seq::empty()
    } else {
        let p = undelta(d.drop_last());
        p.push(
            d.last() + if d.len() >= 3 {
                p[d.len() - 3]
            } else {
                0
            },
        )
    }
}

/// Every run fits a `u32`.
pub open spec fn runs_fit(rs: Seq<int>) -> bool {
    forall|k: int| 0 <= k < rs.len() ==> 0 <= #[trigger] rs[k] <= u32::MAX
}

/// The runs that the compact bytes `b` stand for, or `None` when they do not
/// decode.
pub open spec fn decoded_runs(b: Seq<u8>) -> Option<Seq<int>> {
    if forall|k: int| 0 <= k < b.len() ==> in_alphabet(#[trigger] b[k]) {
        match deltas(b, 0) {
            Some(d) => if runs_fit(undelta(d)) {
                Some(undelta(d))
            } else {
                None
            },
            None => None,
        }
    } else {
        None
    }
}

/// The bytes of the compact string.
pub open spec fn compact_bytes(e: EncodedRLE) -> Seq<u8> {
    encode_utf8(e.counts@)
}

pub open spec fn as_ints(s: Seq<u32>) -> Seq<int> {
    s.map_values(|x: u32| x as int)
}

/// The compact string decodes to runs that cover the declared size.
pub open spec fn decodes(e: EncodedRLE) -> bool {
    &&& e.size@.len() == 2
    &&& decoded_runs(compact_bytes(e)) is Some
    &&& run_sum_int(decoded_runs(compact_bytes(e)).unwrap()) == e.size@[0] as int
        * e.size@[1] as int
}

pub open spec fn run_sum_int(rs: Seq<int>) -> int
    decreases rs.len(),
{
    if rs.len() == 0 {
        0
    } else {
        run_sum_int(rs.drop_last()) + rs.last()
    }
}

proof fn lemma_pow32_pos(n: nat)
    ensures
        pow32(n) >= 1,
    decreases n,
{
    if n > 0 {
        lemma_pow32_pos((n - 1) as nat);
    }
}

proof fn lemma_pow32_mono(a: nat, b: nat)
    requires
        a <= b,
    ensures
        1 <= pow32(a) <= pow32(b),
    decreases b,
{
    lemma_pow32_pos(a);
    if a < b {
        lemma_pow32_mono(a, (b - 1) as nat);
    }
}

proof fn lemma_group_len_range(b: Seq<u8>, i: int)
    requires
        0 <= i,
    ensures
        0 <= group_len(b, i) <= if i <= b.len() { b.len() - i } else { 0 },
        i < b.len() ==> group_len(b, i) >= 1,
    decreases b.len() - i,
{
    if i < b.len() {
        lemma_group_len_range(b, i + 1);
    }
}

proof fn lemma_group_mag_bound(b: Seq<u8>, i: int, n: nat)
    requires
        forall|k: int| 0 <= k < b.len() ==> in_alphabet(#[trigger] b[k]),
        0 <= i,
        i + n <= b.len(),
    ensures
        0 <= group_mag(b, i, n) < pow32(n),
    decreases n,
{
    if n > 0 {
        lemma_group_mag_bound(b, i, (n - 1) as nat);
        let c = chunk(b[i + n - 1]);
        let p = pow32((n - 1) as nat);
        assert(0 <= c < 32);
        assert(0 <= c * p <= 31 * p) by (nonlinear_arith)
            requires
                0 <= c < 32,
                p >= 1,
        ;
    }
}

proof fn lemma_group_len_skip(b: Seq<u8>, i: int, k: int)
    requires
        0 <= i,
        0 <= k,
        i + k <= b.len(),
        forall|t: int| 0 <= t < k ==> continues(#[trigger] b[i + t]),
    ensures
        group_len(b, i) == k + group_len(b, i + k),
    decreases k,
{
    if k > 0 {
        assert(continues(b[i + 0]));
        assert forall|t: int| 0 <= t < k - 1 implies continues(#[trigger] b[(i + 1) + t]) by {
            assert(continues(b[i + (t + 1)]));
        }
        lemma_group_len_skip(b, i + 1, k - 1);
    }
}

proof fn lemma_undelta_len(d: Seq<int>)
    ensures
        undelta(d).len() == d.len(),
    decreases d.len(),
{
    if d.len() > 0 {
        lemma_undelta_len(d.drop_last());
    }
}

proof fn lemma_undelta_prefix(d: Seq<int>, e: Seq<int>)
    ensures
        undelta(d + e).take(d.len() as int) == undelta(d),
    decreases e.len(),
{
    lemma_undelta_len(d);
    lemma_undelta_len(d + e);
    if e.len() == 0 {
        assert(d + e =~= d);
        assert(undelta(d).take(d.len() as int) =~= undelta(d));
    } else {
        assert((d + e).drop_last() =~= d + e.drop_last());
        lemma_undelta_prefix(d, e.drop_last());
        lemma_undelta_len(d + e.drop_last());
        assert(undelta(d + e).take(d.len() as int) =~= undelta(d + e.drop_last()).take(
            d.len() as int,
        ));
    }
}

proof fn lemma_group_mag_eq(b1: Seq<u8>, i1: int, b2: Seq<u8>, i2: int, n: nat)
    requires
        forall|t: int| 0 <= t < n ==> #[trigger] b1[i1 + t] == b2[i2 + t],
    ensures
        group_mag(b1, i1, n) == group_mag(b2, i2, n),
    decreases n,
{
    if n > 0 {
        assert(b1[i1 + (n - 1)] == b2[i2 + (n - 1)]);
        lemma_group_mag_eq(b1, i1, b2, i2, (n - 1) as nat);
    }
}

proof fn lemma_group_len_ext(b: Seq<u8>, g: Seq<u8>, i: int)
    requires
        0 <= i < b.len(),
        i + group_len(b, i) <= b.len(),
        !continues(b[i + group_len(b, i) - 1]),
    ensures
        group_len(b + g, i) == group_len(b, i),
    decreases b.len() - i,
{
    lemma_group_len_range(b, i);
    assert((b + g)[i] == b[i]);
    if continues(b[i]) {
        lemma_group_len_range(b, i + 1);
        lemma_group_len_ext(b, g, i + 1);
    }
}

proof fn lemma_group_len_shift(b: Seq<u8>, g: Seq<u8>, j: int)
    requires
        0 <= j,
    ensures
        group_len(b + g, b.len() + j) == group_len(g, j),
    decreases g.len() - j,
{
    if j < g.len() {
        assert((b + g)[b.len() + j] == g[j]);
        lemma_group_len_shift(b, g, j + 1);
    }
}

proof fn lemma_deltas_shift(b: Seq<u8>, g: Seq<u8>, j: int)
    requires
        0 <= j,
    ensures
        deltas(b + g, b.len() + j) == deltas(g, j),
    decreases g.len() - j,
{
    if j < g.len() {
        lemma_group_len_shift(b, g, j);
        let n = group_len(g, j);
        if 1 <= n && j + n <= g.len() {
            assert((b + g)[b.len() + j + n - 1] == g[j + n - 1]);
            assert forall|t: int| 0 <= t < n implies #[trigger] (b + g)[b.len() + j + t] == g[j + t] by {}
            lemma_group_mag_eq(b + g, b.len() + j, g, j, n as nat);
            lemma_deltas_shift(b, g, j + n);
            assert(b.len() + j + n == b.len() + (j + n));
        }
    }
}

proof fn lemma_deltas_concat(b: Seq<u8>, g: Seq<u8>, i: int)
    requires
        0 <= i <= b.len(),
        deltas(b, i) is Some,
        deltas(g, 0) is Some,
    ensures
        deltas(b + g, i) == Some(deltas(b, i).unwrap() + deltas(g, 0).unwrap()),
    decreases b.len() - i,
{
    if i == b.len() {
        lemma_deltas_shift(b, g, 0);
        assert(Seq::<int>::empty() + deltas(g, 0).unwrap() =~= deltas(g, 0).unwrap());
    } else {
        let n = group_len(b, i);
        lemma_group_len_ext(b, g, i);
        assert((b + g)[i + n - 1] == b[i + n - 1]);
        assert forall|t: int| 0 <= t < n implies #[trigger] (b + g)[i + t] == b[i + t] by {}
        lemma_group_mag_eq(b + g, i, b, i, n as nat);
        lemma_deltas_concat(b, g, i + n);
        let v = group_value(b, i, n as nat);
        assert(seq![v] + (deltas(b, i + n).unwrap() + deltas(g, 0).unwrap()) =~= (seq![v]
            + deltas(b, i + n).unwrap()) + deltas(g, 0).unwrap());
    }
}

proof fn lemma_canonical_shift(b: Seq<u8>, g: Seq<u8>, j: int)
    requires
        0 <= j,
    ensures
        canonical_from(b + g, b.len() + j) == canonical_from(g, j),
    decreases g.len() - j,
{
    if j < g.len() {
        lemma_group_len_shift(b, g, j);
        let n = group_len(g, j);
        if 1 <= n && j + n <= g.len() {
            assert((b + g)[b.len() + j + n - 1] == g[j + n - 1]);
            if n >= 2 {
                assert((b + g)[b.len() + j + n - 2] == g[j + n - 2]);
            }
            lemma_canonical_shift(b, g, j + n);
            assert(b.len() + j + n == b.len() + (j + n));
        }
    }
}

proof fn lemma_canonical_concat(b: Seq<u8>, g: Seq<u8>, i: int)
    requires
        0 <= i <= b.len(),
        canonical_from(b, i),
        canonical_from(g, 0),
    ensures
        canonical_from(b + g, i),
    decreases b.len() - i,
{
    if i == b.len() {
        lemma_canonical_shift(b, g, 0);
    } else {
        let n = group_len(b, i);
        lemma_group_len_ext(b, g, i);
        assert((b + g)[i + n - 1] == b[i + n - 1]);
        if n >= 2 {
            assert((b + g)[i + n - 2] == b[i + n - 2]);
        }
        lemma_canonical_concat(b, g, i + n);
    }
}

/// Appends the characters of one integer: five bits per character, least
/// significant first, with the continuation bit on all but the last.
fn push_group(out: &mut Vec<u8>, x: i64)
    requires
        -0x1_0000_0000 <= x <= 0x1_0000_0000,
    ensures
        exists|g: Seq<u8>|
            {
                &&& final(out)@ == old(out)@ + g
                &&& forall|k: int| 0 <= k < g.len() ==> in_alphabet(#[trigger] g[k])
                &&& deltas(g, 0) == Some(seq![x as int])
                &&& canonical_from(g, 0)
            },
{
    let ghost start = out@.len();
    let mut rem: i64 = x;
    let mut pw: i64 = 1;
    let mut k: usize = 0;
    proof {
        reveal_with_fuel(pow32, 8);
        assert(pow32(7) == 0x8_0000_0000);
        assert(out@.subrange(0, start as int) =~= old(out)@);
    }
    loop
        invariant
            start == old(out)@.len(),
            out@.len() == start + k,
            out@.subrange(0, start as int) == old(out)@,
            forall|t: int| 0 <= t < k ==> in_alphabet(#[trigger] out@[start + t]),
            forall|t: int| 0 <= t < k ==> continues(#[trigger] out@[start + t]),
            k <= 7,
            pow32(7) == 0x8_0000_0000,
            pw == pow32(k as nat),
            x == group_mag(out@, start as int, k as nat) + pw * rem,
            rem >= 0 ==> rem * pw <= 0x1_0000_0000,
            rem < 0 ==> (-rem - 1) * pw < 0x1_0000_0000,
            k >= 1 ==> (chunk(out@[start + k - 1]) >= 16 ==> rem != -1) && (chunk(
                out@[start + k - 1],
            ) < 16 ==> rem != 0),
        decreases 8 - k,
    {
        proof {
            lemma_pow32_mono(k as nat, 7);
            if rem < 0 {
                assert(-rem - 1 < 0x1_0000_0000) by (nonlinear_arith)
                    requires
                        (-rem - 1) * pw < 0x1_0000_0000,
                        pw >= 1,
                        rem < 0,
                ;
            }
        }
        let ghost before = out@;
        let ghost mag = group_mag(out@, start as int, k as nat);
        let (c, q): (i64, i64) = if rem >= 0 {
            ((rem as u64 % 32) as i64, (rem as u64 / 32) as i64)
        } else {
            let m = (-rem - 1) as u64;
            (31 - (m % 32) as i64, -((m / 32) as i64) - 1)
        };
        assert(rem == 32 * q + c && 0 <= c < 32);
        assert(rem >= 0 <==> q >= 0);
        let more = if c >= 16 {
            q != -1
        } else {
            q != 0
        };
        let byte: u8 = if more {
            (c + 32 + 48) as u8
        } else {
            (c + 48) as u8
        };
        out.push(byte);
        proof {
            assert(chunk(byte) == c);
            assert(continues(byte) == more);
            assert forall|t: int| 0 <= t < k implies #[trigger] out@[start + t] == before[start
                + t] by {}
            assert forall|t: int| 0 <= t < k + 1 implies in_alphabet(#[trigger] out@[start + t]) by {
                if t < k {
                    assert(out@[start + t] == before[start + t]);
                }
            }
            assert(out@.subrange(0, start as int) =~= old(out)@);
            lemma_group_mag_eq(out@, start as int, before, start as int, k as nat);
            assert(out@[start + k] == byte);
            assert(group_mag(out@, start as int, (k + 1) as nat) == mag + c * pw);
            assert(pw * rem == c * pw + (32 * pw) * q) by (nonlinear_arith)
                requires
                    rem == 32 * q + c,
            ;
            if k == 7 {
                if rem >= 0 {
                    assert(rem * pw >= 32 * pw * q) by (nonlinear_arith)
                        requires
                            rem == 32 * q + c,
                            0 <= c,
                            pw >= 1,
                    ;
                    assert(q == 0) by (nonlinear_arith)
                        requires
                            q >= 0,
                            32 * pw * q <= 0x1_0000_0000,
                            pw == 0x8_0000_0000,
                    ;
                    assert(rem == c);
                    assert(c * pw <= 0x1_0000_0000);
                    assert(c == 0) by (nonlinear_arith)
                        requires
                            c >= 0,
                            c * pw <= 0x1_0000_0000,
                            pw == 0x8_0000_0000,
                    ;
                } else {
                    assert((-rem - 1) == 0) by (nonlinear_arith)
                        requires
                            -rem - 1 >= 0,
                            (-rem - 1) * pw < 0x1_0000_0000,
                            pw == 0x8_0000_0000,
                    ;
                }
            }
        }
        if !more {
            proof {
                let n = (k + 1) as nat;
                let g = out@.subrange(start as int, out@.len() as int);
                assert(out@ =~= old(out)@ + g);
                assert forall|t: int| 0 <= t < n implies #[trigger] g[t] == out@[start + t] by {}
                assert forall|t: int| 0 <= t < k implies continues(#[trigger] g[0 + t]) by {
                    assert(g[t] == out@[start + t]);
                }
                lemma_group_len_skip(g, 0, k as int);
                assert(g[k as int] == byte);
                assert(group_len(g, k as int) == 1);
                lemma_group_mag_eq(g, 0, out@, start as int, n);
                assert(pow32(n) == 32 * pw);
                assert(deltas(g, n as int) == Some(Seq::<int>::empty()));
                assert(group_value(g, 0, n) == x);
                assert(deltas(g, 0) =~= Some(seq![x as int]));
                if k >= 1 {
                    assert(g[k - 1] == before[start + k - 1]);
                    assert(out@[start + k - 1] == before[start + k - 1]);
                }
                assert(minimal_group(g, 0, n as int));
                assert(canonical_from(g, n as int));
                assert(canonical_from(g, 0));
                assert forall|t: int| 0 <= t < g.len() implies in_alphabet(#[trigger] g[t]) by {
                    assert(g[t] == out@[start + t]);
                }
            }
            return;
        }
        proof {
            if q >= 0 {
                assert(q * (32 * pw) <= 0x1_0000_0000) by (nonlinear_arith)
                    requires
                        rem == 32 * q + c,
                        0 <= c,
                        q >= 0,
                        pw >= 1,
                        rem * pw <= 0x1_0000_0000,
                ;
            } else {
                assert((-q - 1) * (32 * pw) < 0x1_0000_0000) by (nonlinear_arith)
                    requires
                        rem == 32 * q + c,
                        c < 32,
                        q < 0,
                        pw >= 1,
                        (-rem - 1) * pw < 0x1_0000_0000,
                ;
            }
        }
        rem = q;
        pw = pw * 32;
        k = k + 1;
    }
}

/// The number of low chunks that `read_group` adds up; the higher ones only
/// decide whether the integer is small.
pub const LOW_CHUNKS: usize = 7;

proof fn lemma_pow32_add(a: nat, c: nat)
    ensures
        pow32(a + c) == pow32(a) * pow32(c),
    decreases c,
{
    if c > 0 {
        lemma_pow32_add(a, (c - 1) as nat);
        assert(pow32(a + c) == 32 * pow32((a + c - 1) as nat));
        assert(pow32(a) * pow32(c) == pow32(a) * (32 * pow32((c - 1) as nat)));
        assert(pow32(a) * (32 * pow32((c - 1) as nat)) == 32 * (pow32(a) * pow32((c - 1) as nat)))
            by (nonlinear_arith);
    }
}

proof fn lemma_group_mag_split(b: Seq<u8>, i: int, a: nat, c: nat)
    ensures
        group_mag(b, i, a + c) == group_mag(b, i, a) + pow32(a) * group_mag(b, i + a, c),
    decreases c,
{
    if c > 0 {
        lemma_group_mag_split(b, i, a, (c - 1) as nat);
        lemma_pow32_add(a, (c - 1) as nat);
        let x = chunk(b[i + a + c - 1]);
        assert(b[i + (a + c) - 1] == b[(i + a) + c - 1]);
        assert(pow32(a) * (group_mag(b, i + a, (c - 1) as nat) + x * pow32((c - 1) as nat))
            == pow32(a) * group_mag(b, i + a, (c - 1) as nat) + x * (pow32(a) * pow32(
            (c - 1) as nat,
        ))) by (nonlinear_arith);
    }
}

/// Chunks `i..i + m` are all `v`.
pub open spec fn chunks_all(b: Seq<u8>, i: int, m: nat, v: int) -> bool {
    forall|u: int| 0 <= u < m ==> chunk(#[trigger] b[i + u]) == v
}

proof fn lemma_group_mag_extremes(b: Seq<u8>, i: int, m: nat)
    requires
        forall|k: int| 0 <= k < b.len() ==> in_alphabet(#[trigger] b[k]),
        0 <= i,
        i + m <= b.len(),
    ensures
        chunks_all(b, i, m, 0) ==> group_mag(b, i, m) == 0,
        !chunks_all(b, i, m, 0) ==> group_mag(b, i, m) >= 1,
        chunks_all(b, i, m, 31) ==> group_mag(b, i, m) == pow32(m) - 1,
        !chunks_all(b, i, m, 31) ==> group_mag(b, i, m) <= pow32(m) - 2,
    decreases m,
{
    if m > 0 {
        let p = pow32((m - 1) as nat);
        let c = chunk(b[i + m - 1]);
        lemma_group_mag_extremes(b, i, (m - 1) as nat);
        lemma_group_mag_bound(b, i, (m - 1) as nat);
        lemma_pow32_pos((m - 1) as nat);
        assert(0 <= c < 32);
        assert(pow32(m) == 32 * p);
        assert(c * p >= 0 && (c >= 1 ==> c * p >= p) && (c <= 30 ==> c * p <= 30 * p) && (c == 0
            ==> c * p == 0) && (c == 31 ==> c * p == 31 * p)) by (
        nonlinear_arith)
            requires
                0 <= c < 32,
                p >= 1,
        ;
        assert(chunks_all(b, i, m, 0) <==> chunks_all(b, i, (m - 1) as nat, 0) && c == 0) by {
            if chunks_all(b, i, (m - 1) as nat, 0) && c == 0 {
                assert forall|u: int| 0 <= u < m implies chunk(#[trigger] b[i + u]) == 0 by {
                    if u == m - 1 {
                    }
                }
            }
            if chunks_all(b, i, m, 0) {
                assert(chunk(b[i + (m - 1)]) == 0);
            }
        }
        assert(chunks_all(b, i, m, 31) <==> chunks_all(b, i, (m - 1) as nat, 31) && c == 31) by {
            if chunks_all(b, i, (m - 1) as nat, 31) && c == 31 {
                assert forall|u: int| 0 <= u < m implies chunk(#[trigger] b[i + u]) == 31 by {
                    if u == m - 1 {
                    }
                }
            }
            if chunks_all(b, i, m, 31) {
                assert(chunk(b[i + (m - 1)]) == 31);
            }
        }
    }
}

/// Reads the integer that starts at `i`. `None` when it is cut off; else the
/// position after it, and the integer itself when it lies in
/// `-2^35..2^35` (`None` when it does not).
fn read_group(b: &[u8], i: usize) -> (r: Option<(Option<i64>, usize)>)
    requires
        forall|k: int| 0 <= k < b@.len() ==> in_alphabet(#[trigger] b@[k]),
        i < b@.len(),
    ensures
        ({
            let n = group_len(b@, i as int);
            let ok = 1 <= n && i + n <= b@.len() && !continues(b@[i + n - 1]);
            let gv = group_value(b@, i as int, n as nat);
            &&& r is Some <==> ok
            &&& r matches Some((ov, j)) ==> {
                &&& j == i + n
                &&& j <= b@.len()
                &&& match ov {
                    Some(v) => v == gv && -0x8_0000_0000 <= v < 0x8_0000_0000,
                    None => gv < -0x8_0000_0000 || gv >= 0x8_0000_0000,
                }
            }
        }),
{
    let mut acc: i64 = 0;
    let mut pw: i64 = 1;
    let mut zero_hi = true;
    let mut ones_hi = true;
    let mut j: usize = i;
    let ghost bs = b@;
    proof {
        reveal_with_fuel(pow32, 8);
        assert(pow32(LOW_CHUNKS as nat) == 0x8_0000_0000);
    }
    loop
        invariant
            forall|k: int| 0 <= k < bs.len() ==> in_alphabet(#[trigger] bs[k]),
            bs == b@,
            i < bs.len(),
            i <= j <= bs.len(),
            pow32(LOW_CHUNKS as nat) == 0x8_0000_0000,
            j - i <= LOW_CHUNKS ==> pw == pow32((j - i) as nat) && acc == group_mag(
                bs,
                i as int,
                (j - i) as nat,
            ),
            j - i > LOW_CHUNKS ==> pw == pow32(LOW_CHUNKS as nat) && acc == group_mag(
                bs,
                i as int,
                LOW_CHUNKS as nat,
            ),
            j - i > LOW_CHUNKS ==> zero_hi == chunks_all(
                bs,
                i + LOW_CHUNKS,
                (j - i - LOW_CHUNKS) as nat,
                0,
            ) && ones_hi == chunks_all(bs, i + LOW_CHUNKS, (j - i - LOW_CHUNKS) as nat, 31),
            forall|t: int| 0 <= t < j - i ==> continues(#[trigger] bs[i + t]),
        decreases bs.len() - j,
    {
        proof {
            lemma_group_len_skip(bs, i as int, (j - i) as int);
        }
        if j >= b.len() {
            proof {
                if j > i {
                    assert(continues(bs[i + (j - i - 1)]));
                }
            }
            return None;
        }
        let v: u8 = b[j] - 48;
        let c: i64 = (v % 32) as i64;
        let t = j - i;
        let ghost old_zero = zero_hi;
        let ghost old_ones = ones_hi;
        if t < LOW_CHUNKS {
            proof {
                lemma_pow32_mono(t as nat, 6);
                reveal_with_fuel(pow32, 8);
                lemma_group_mag_bound(bs, i as int, t as nat);
                assert(c * pw <= 31 * 0x4000_0000) by (nonlinear_arith)
                    requires
                        0 <= c < 32,
                        1 <= pw <= 0x4000_0000,
                ;
            }
            acc = acc + c * pw;
            pw = pw * 32;
        } else {
            if t > LOW_CHUNKS {
                proof {
                    assert(chunks_all(bs, i + LOW_CHUNKS, (t + 1 - LOW_CHUNKS) as nat, 0) <==> (
                    old_zero && c == 0)) by {
                        if old_zero && c == 0 {
                            assert forall|u: int| 0 <= u < t + 1 - LOW_CHUNKS implies chunk(
                                #[trigger] bs[(i + LOW_CHUNKS) + u],
                            ) == 0 by {
                                if u == t - LOW_CHUNKS {
                                    assert((i + LOW_CHUNKS) + u == j);
                                }
                            }
                        }
                        if chunks_all(bs, i + LOW_CHUNKS, (t + 1 - LOW_CHUNKS) as nat, 0) {
                            assert(chunk(bs[(i + LOW_CHUNKS) + (t - LOW_CHUNKS)]) == 0);
                        }
                    }
                    assert(chunks_all(bs, i + LOW_CHUNKS, (t + 1 - LOW_CHUNKS) as nat, 31) <==> (
                    old_ones && c == 31)) by {
                        if old_ones && c == 31 {
                            assert forall|u: int| 0 <= u < t + 1 - LOW_CHUNKS implies chunk(
                                #[trigger] bs[(i + LOW_CHUNKS) + u],
                            ) == 31 by {
                                if u == t - LOW_CHUNKS {
                                    assert((i + LOW_CHUNKS) + u == j);
                                }
                            }
                        }
                        if chunks_all(bs, i + LOW_CHUNKS, (t + 1 - LOW_CHUNKS) as nat, 31) {
                            assert(chunk(bs[(i + LOW_CHUNKS) + (t - LOW_CHUNKS)]) == 31);
                        }
                    }
                }
                zero_hi = zero_hi && c == 0;
                ones_hi = ones_hi && c == 31;
            } else {
                proof {
                    assert(bs[(i + LOW_CHUNKS) + 0] == bs[j as int]);
                }
                zero_hi = c == 0;
                ones_hi = c == 31;
            }
        }
        j = j + 1;
        if v < 32 {
            proof {
                lemma_group_len_skip(bs, i as int, (j - 1 - i) as int);
                assert(group_len(bs, j - 1) == 1);
            }
            let n = j - i;
            let neg = v % 32 >= 16;
            if n <= LOW_CHUNKS {
                if neg {
                    acc = acc - pw;
                }
                proof {
                    lemma_pow32_mono(n as nat, LOW_CHUNKS as nat);
                    lemma_group_mag_bound(bs, i as int, n as nat);
                }
                return Some((Some(acc), j));
            }
            let ghost m = (n - LOW_CHUNKS) as nat;
            proof {
                lemma_group_mag_split(bs, i as int, LOW_CHUNKS as nat, m);
                lemma_pow32_add(LOW_CHUNKS as nat, m);
                lemma_group_mag_extremes(bs, i + LOW_CHUNKS, m);
                lemma_group_mag_bound(bs, i as int, LOW_CHUNKS as nat);
                lemma_pow32_pos(m);
                assert(n == LOW_CHUNKS + m);
            }
            let ghost hi = group_mag(bs, i + LOW_CHUNKS, m);
            let ghost pm = pow32(m);
            if !neg && zero_hi {
                return Some((Some(acc), j));
            }
            if neg && ones_hi {
                proof {
                    assert(0x8_0000_0000 * (pm - 1) - 0x8_0000_0000 * pm == -0x8_0000_0000)
                        by (nonlinear_arith);
                }
                return Some((Some(acc - 0x8_0000_0000), j));
            }
            proof {
                let gv = group_value(bs, i as int, n as nat);
                if !neg {
                    assert(!zero_hi);
                    assert(0x8_0000_0000 * hi >= 0x8_0000_0000) by (nonlinear_arith)
                        requires
                            hi >= 1,
                    ;
                } else {
                    assert(!ones_hi);
                    assert(0x8_0000_0000 * hi - 0x8_0000_0000 * pm <= -2 * 0x8_0000_0000)
                        by (nonlinear_arith)
                        requires
                            hi <= pm - 2,
                    ;
                }
            }
            return Some((None, j));
        }
    }
}

/// Decodes a compact run-length string: checks the size, the alphabet, each
/// integer, and that the runs cover `height * width` pixels.
pub fn decode(e: &EncodedRLE) -> (r: Result<RLE, MaskError>)
    ensures
        r is Ok <==> decodes(*e),
        e.size@.len() != 2 ==> r == Err::<RLE, MaskError>(MaskError::ShapeMismatch),
        e.size@.len() == 2 && !decodes(*e) ==> r == Err::<RLE, MaskError>(
            MaskError::MalformedEncoding,
        ),
        r matches Ok(rle) ==> {
            &&& rle.size@ == e.size@
            &&& as_ints(rle.counts@) == decoded_runs(compact_bytes(*e)).unwrap()
        },
{
    if e.size.len() != 2 {
        return Err(MaskError::ShapeMismatch);
    }
    let b: &[u8] = e.counts.as_str().as_bytes();
    let ghost bs = b@;
    assert(bs == compact_bytes(*e));
    let mut k: usize = 0;
    while k < b.len()
        invariant
            bs == b@,
            k <= bs.len(),
            e.size@.len() == 2,
            bs == compact_bytes(*e),
            forall|t: int| 0 <= t < k ==> in_alphabet(#[trigger] bs[t]),
        decreases bs.len() - k,
    {
        if b[k] < 48 || b[k] > 111 {
            assert(!in_alphabet(bs[k as int]));
            return Err(MaskError::MalformedEncoding);
        }
        k = k + 1;
    }
    let mut runs: Vec<u32> = Vec::new();
    let ghost mut ds: Seq<int> = Seq::empty();
    let mut i: usize = 0;
    while i < b.len()
        invariant
            bs == b@,
            bs == compact_bytes(*e),
            e.size@.len() == 2,
            i <= bs.len(),
            forall|t: int| 0 <= t < bs.len() ==> in_alphabet(#[trigger] bs[t]),
            (deltas(bs, 0) is Some) == (deltas(bs, i as int) is Some),
            deltas(bs, i as int) is Some ==> deltas(bs, 0).unwrap() == ds + deltas(
                bs,
                i as int,
            ).unwrap(),
            as_ints(runs@) == undelta(ds),
        decreases bs.len() - i,
    {
        proof {
            lemma_undelta_len(ds);
        }
        match read_group(b, i) {
            None => {
                return Err(MaskError::MalformedEncoding);
            },
            Some((ov, j)) => {
                let n = runs.len();
                let prev: i64 = if n >= 2 {
                    runs[n - 2] as i64
                } else {
                    0
                };
                let ghost gv = group_value(bs, i as int, (j - i) as nat);
                let ghost old_ds = ds;
                proof {
                    let rest = deltas(bs, j as int);
                    if rest is Some {
                        assert(deltas(bs, i as int).unwrap() =~= seq![gv] + rest.unwrap());
                    }
                    ds = ds.push(gv);
                    assert(ds.drop_last() =~= old_ds);
                    lemma_undelta_len(ds);
                    if rest is Some {
                        assert(deltas(bs, 0).unwrap() =~= ds + rest.unwrap());
                    }
                    lemma_undelta_len(old_ds);
                    if n >= 2 {
                        assert(undelta(old_ds)[n - 2] == as_ints(runs@)[n - 2]);
                    }
                    assert(undelta(ds)[n as int] == gv + prev);
                }
                let fits = match ov {
                    Some(v) => {
                        let run: i64 = v + prev;
                        if 0 <= run && run <= u32::MAX as i64 {
                            runs.push(run as u32);
                            true
                        } else {
                            false
                        }
                    },
                    None => false,
                };
                if !fits {
                    proof {
                        assert(gv + prev < 0 || gv + prev > u32::MAX);
                        if deltas(bs, 0) is Some {
                            let all = deltas(bs, 0).unwrap();
                            let rest = deltas(bs, j as int).unwrap();
                            lemma_undelta_prefix(ds, rest);
                            lemma_undelta_len(all);
                            assert(undelta(all)[n as int] == undelta(all).take(ds.len() as int)[n as int]);
                            assert(!runs_fit(undelta(all)));
                        }
                    }
                    return Err(MaskError::MalformedEncoding);
                }
                proof {
                    assert(as_ints(runs@) =~= undelta(ds));
                }
                i = j;
            },
        }
    }
    proof {
        assert(ds + Seq::<int>::empty() =~= ds);
        assert forall|t: int| 0 <= t < undelta(ds).len() implies 0 <= #[trigger] undelta(ds)[t]
            <= u32::MAX by {
            assert(undelta(ds)[t] == as_ints(runs@)[t]);
        }
        lemma_run_sum_ints(runs@);
    }
    let h = e.size[0] as u64;
    let w = e.size[1] as u64;
    assert(h * w <= u64::MAX) by (nonlinear_arith)
        requires
            h <= u32::MAX,
            w <= u32::MAX,
    ;
    match sum_runs(&runs) {
        Some(s) => {
            if s != h * w {
                return Err(MaskError::MalformedEncoding);
            }
        },
        None => {
            return Err(MaskError::MalformedEncoding);
        },
    }
    let mut size: Vec<u32> = Vec::new();
    size.push(e.size[0]);
    size.push(e.size[1]);
    assert(size@ =~= e.size@);
    Ok(RLE { size, counts: runs })
}

/// Relies on `String::from_utf8`: bytes that are valid UTF-8 (here ASCII)
/// become a `String` that holds exactly those bytes.
#[verifier::external_body]
fn ascii_string(b: Vec<u8>) -> (s: String)
    requires
        forall|k: int| 0 <= k < b@.len() ==> #[trigger] b@[k] < 128,
    ensures
        encode_utf8(s@) == b@,
{
    match String::from_utf8(b) {
        Ok(s) => s,
        Err(_) => String::new(),
    }
}

/// Packs the runs into the compact form: each run less the run two places
/// back (the first two as they are), each in as few six-bit characters as
/// it needs.
pub fn encode(rle: &RLE) -> (r: Result<EncodedRLE, MaskError>)
    ensures
        r is Ok <==> shape_ok(*rle),
        r is Err ==> r == Err::<EncodedRLE, MaskError>(MaskError::ShapeMismatch),
        r matches Ok(e) ==> {
            &&& e.size@ == rle.size@
            &&& decodes(e)
            &&& decoded_runs(compact_bytes(e)) == Some(as_ints(rle.counts@))
            &&& canonical_from(compact_bytes(e), 0)
        },
{
    rle.check_shape()?;
    let mut out: Vec<u8> = Vec::new();
    let ghost mut ds: Seq<int> = Seq::empty();
    let mut i: usize = 0;
    proof {
        assert(deltas(out@, 0) == Some(Seq::<int>::empty()));
        assert(as_ints(rle.counts@.take(0)) =~= Seq::<int>::empty());
    }
    while i < rle.counts.len()
        invariant
            i <= rle.counts@.len(),
            forall|k: int| 0 <= k < out@.len() ==> in_alphabet(#[trigger] out@[k]),
            deltas(out@, 0) == Some(ds),
            canonical_from(out@, 0),
            undelta(ds) == as_ints(rle.counts@.take(i as int)),
        decreases rle.counts@.len() - i,
    {
        let back: i64 = if i >= 2 {
            rle.counts[i - 2] as i64
        } else {
            0
        };
        let d: i64 = rle.counts[i] as i64 - back;
        let ghost before = out@;
        push_group(&mut out, d);
        proof {
            let g = choose|g: Seq<u8>|
                {
                    &&& out@ == before + g
                    &&& forall|k: int| 0 <= k < g.len() ==> in_alphabet(#[trigger] g[k])
                    &&& deltas(g, 0) == Some(seq![d as int])
                    &&& canonical_from(g, 0)
                };
            lemma_deltas_concat(before, g, 0);
            lemma_canonical_concat(before, g, 0);
            assert forall|k: int| 0 <= k < out@.len() implies in_alphabet(#[trigger] out@[k]) by {
                if k >= before.len() {
                    assert(out@[k] == g[k - before.len()]);
                } else {
                    assert(out@[k] == before[k]);
                }
            }
            let old_ds = ds;
            ds = ds.push(d as int);
            assert(old_ds + seq![d as int] =~= ds);
            assert(ds.drop_last() =~= old_ds);
            lemma_undelta_len(old_ds);
            assert(undelta(ds) =~= as_ints(rle.counts@.take(i as int + 1)));
        }
        i = i + 1;
    }
    proof {
        assert(rle.counts@.take(i as int) =~= rle.counts@);
        assert forall|k: int| 0 <= k < out@.len() implies #[trigger] out@[k] < 128 by {
            assert(in_alphabet(out@[k]));
        }
        lemma_run_sum_ints(rle.counts@);
    }
    let counts = ascii_string(out);
    let mut size: Vec<u32> = Vec::new();
    size.push(rle.size[0]);
    size.push(rle.size[1]);
    assert(size@ =~= rle.size@);
    Ok(EncodedRLE { size, counts })
}

pub proof fn lemma_run_sum_ints(s: Seq<u32>)
    ensures
        run_sum_int(as_ints(s)) == run_sum(s),
    decreases s.len(),
{
    if s.len() > 0 {
        assert(as_ints(s).drop_last() =~= as_ints(s.drop_last()));
        lemma_run_sum_ints(s.drop_last());
    }
}

} // verus!
