//! Codes as numbers: a code of letters read as a number in base 27, each
//! letter a digit from `a` = 1 to `z` = 26, so that distinct codes get
//! distinct numbers and no code gets 0 but the empty one.

use vstd::prelude::*;

verus! {

broadcast use vstd::seq_lib::group_seq_properties;

/// `b` is a code element: a lower-case letter `a` to `z`.
pub open spec fn is_letter(b: u8) -> bool {
    0x61u8 <= b <= 0x7au8
}

/// Every byte of `c` is a code element.
pub open spec fn letters(c: Seq<u8>) -> bool {
    forall|i: int| 0 <= i < c.len() ==> is_letter(#[trigger] c[i])
}

/// No byte of `c` comes before `a`: every byte gives a digit `b - 0x60` of
/// at least one (bytes after `z` give digits above 26).
pub open spec fn keyable(c: Seq<u8>) -> bool {
    forall|i: int| 0 <= i < c.len() ==> 0x61u8 <= #[trigger] c[i]
}

/// Letters come no earlier than `a`.
pub proof fn lemma_letters_keyable(c: Seq<u8>)
    requires
        letters(c),
    ensures
        keyable(c),
{
    assert forall|i: int| 0 <= i < c.len() implies 0x61u8 <= #[trigger] c[i] by {
        assert(is_letter(c[i]));
    }
}

/// The number of a code: its bytes read as digits `b - 0x60` in base 27,
/// the first byte most significant.
pub open spec fn key_of(c: Seq<u8>) -> int
    decreases c.len(),
{
    if c.len() == 0 {
        0
    } else {
        key_of(c.drop_last()) * 27 + (c.last() - 0x60)
    }
}

/// The number of a code without bytes before `a` is not negative, and it
/// is 0 only for the empty code.
pub proof fn lemma_key_nonneg(c: Seq<u8>)
    requires
        keyable(c),
    ensures
        key_of(c) >= 0,
        c.len() > 0 ==> key_of(c) >= 1,
    decreases c.len(),
{
    if c.len() > 0 {
        lemma_key_nonneg(c.drop_last());
        assert(0x61 <= c[c.len() - 1]);
    }
}

/// Distinct codes of letters have distinct numbers.
pub proof fn lemma_key_injective(a: Seq<u8>, b: Seq<u8>)
    requires
        letters(a),
        letters(b),
        key_of(a) == key_of(b),
    ensures
        a == b,
    decreases a.len(),
{
    lemma_key_nonneg(a);
    lemma_key_nonneg(b);
    if a.len() == 0 || b.len() == 0 {
        assert(a.len() == 0 && b.len() == 0);
        assert(a =~= b);
    } else {
        let x = key_of(a.drop_last());
        let y = key_of(b.drop_last());
        let d = a.last() - 0x60;
        let e = b.last() - 0x60;
        assert(is_letter(a[a.len() - 1]) && is_letter(b[b.len() - 1]));
        assert(1 <= d <= 26 && 1 <= e <= 26);
        assert(x * 27 + d == y * 27 + e);
        if x < y {
            assert(x * 27 + 27 <= y * 27);
        }
        if y < x {
            assert(y * 27 + 27 <= x * 27);
        }
        assert(x == y);
        lemma_key_injective(a.drop_last(), b.drop_last());
        assert(a =~= a.drop_last().push(a.last()));
        assert(b =~= b.drop_last().push(b.last()));
    }
}

/// Appending a byte to a prefix: the number of the longer prefix.
pub proof fn lemma_key_take(c: Seq<u8>, n: int)
    requires
        0 <= n < c.len(),
    ensures
        key_of(c.take(n + 1)) == key_of(c.take(n)) * 27 + (c[n] - 0x60),
{
    assert(c.take(n + 1).drop_last() =~= c.take(n));
}

/// A code of letters of at most six bytes numbers below `27^6`; of at most
/// five, below `27^5`.
pub proof fn lemma_key_bound(c: Seq<u8>)
    requires
        letters(c),
    ensures
        0 <= key_of(c),
        c.len() <= 1 ==> key_of(c) <= 26,
        c.len() <= 2 ==> key_of(c) <= 728,
        c.len() <= 3 ==> key_of(c) <= 19682,
        c.len() <= 4 ==> key_of(c) <= 531440,
        c.len() <= 5 ==> key_of(c) <= 14348906,
        c.len() <= 6 ==> key_of(c) <= 387420488,
    decreases c.len(),
{
    lemma_key_nonneg(c);
    if c.len() > 0 {
        lemma_key_bound(c.drop_last());
        assert(is_letter(c[c.len() - 1]));
    }
}

/// A prefix of a code without bytes before `a` numbers no more than the
/// code.
pub proof fn lemma_key_prefix_le(c: Seq<u8>, n: int)
    requires
        keyable(c),
        0 <= n <= c.len(),
    ensures
        0 <= key_of(c.take(n)) <= key_of(c),
    decreases c.len() - n,
{
    lemma_key_nonneg(c.take(n));
    if n < c.len() {
        lemma_key_prefix_le(c, n + 1);
        lemma_key_take(c, n);
        assert(0x61 <= c[n]);
    } else {
        assert(c.take(n) =~= c);
    }
}

/// `27^n`.
pub open spec fn pow27(n: nat) -> int
    decreases n,
{
    if n == 0 {
        1
    } else {
        27 * pow27((n - 1) as nat)
    }
}

/// A code of `n >= 1` letters numbers from `27^(n-1)` up to below `27^n`.
pub proof fn lemma_key_range(c: Seq<u8>)
    requires
        letters(c),
        c.len() >= 1,
    ensures
        pow27((c.len() - 1) as nat) <= key_of(c) < pow27(c.len()),
    decreases c.len(),
{
    assert(is_letter(c[c.len() - 1]));
    assert(key_of(c) == key_of(c.drop_last()) * 27 + (c.last() - 0x60));
    assert(pow27(c.len()) == 27 * pow27((c.len() - 1) as nat));
    if c.len() > 1 {
        lemma_key_range(c.drop_last());
        assert(pow27((c.len() - 1) as nat) == 27 * pow27((c.len() - 2) as nat));
    } else {
        assert(key_of(c.drop_last()) == 0);
        assert(pow27(0) == 1);
    }
}

proof fn lemma_pow27_mono(m: nat, n: nat)
    requires
        m <= n,
    ensures
        1 <= pow27(m) <= pow27(n),
    decreases n,
{
    if n > 0 {
        if m < n {
            lemma_pow27_mono(m, (n - 1) as nat);
        } else {
            lemma_pow27_mono((m - 1) as nat, (n - 1) as nat);
        }
    }
}

/// The number of a code of letters: dropping its last letter divides it by
/// 27, and the remainder is that letter's digit; a shorter code numbers
/// below a longer one; and two codes number alike exactly when they are
/// the same.
pub proof fn law_code_numbers(code: Seq<u8>, a: Seq<u8>, b: Seq<u8>)
    requires
        letters(code),
        letters(a),
        letters(b),
    ensures
        code.len() >= 1 ==> key_of(code.drop_last()) == key_of(code) / 27,
        code.len() >= 1 ==> key_of(code) % 27 == code.last() - 0x60,
        a.len() < b.len() ==> key_of(a) < key_of(b),
        key_of(a) == key_of(b) <==> a == b,
{
    if code.len() >= 1 {
        let k = key_of(code.drop_last());
        let d = code.last() - 0x60;
        assert(is_letter(code[code.len() - 1]));
        lemma_key_nonneg(code.drop_last());
        assert(key_of(code) == k * 27 + d);
        assert(0 < d < 27);
        assert((k * 27 + d) / 27 == k && (k * 27 + d) % 27 == d) by (nonlinear_arith)
            requires
                0 < d < 27,
                k >= 0,
        ;
    }
    if a.len() < b.len() {
        lemma_key_nonneg(a);
        lemma_key_range(b);
        lemma_pow27_mono(a.len(), (b.len() - 1) as nat);
        if a.len() >= 1 {
            lemma_key_range(a);
        }
    }
    if key_of(a) == key_of(b) {
        lemma_key_injective(a, b);
    }
}

/// A code of at most six bytes, none before `a`, numbers within a `u32`:
/// each digit is at most 159 (for the byte 0xff).
pub proof fn lemma_key_wide_bound(c: Seq<u8>)
    requires
        keyable(c),
        c.len() <= 6,
    ensures
        0 <= key_of(c) <= 2369225292,
        c.len() <= 5 ==> key_of(c) <= 87749079,
    decreases c.len(),
{
    lemma_key_nonneg(c);
    if c.len() > 0 {
        lemma_key_wide_bound(c.drop_last());
        if c.len() <= 5 {
            lemma_key_wide_bound_five(c);
        }
    }
}

proof fn lemma_key_wide_bound_five(c: Seq<u8>)
    requires
        keyable(c),
        c.len() <= 5,
    ensures
        key_of(c) <= 87749079,
        c.len() <= 4 ==> key_of(c) <= 3249960,
        c.len() <= 3 ==> key_of(c) <= 120363,
        c.len() <= 2 ==> key_of(c) <= 4452,
        c.len() <= 1 ==> key_of(c) <= 159,
    decreases c.len(),
{
    lemma_key_nonneg(c);
    if c.len() > 0 {
        lemma_key_wide_bound_five(c.drop_last());
    }
}

/// `key * 27 + (c - 0x60)`: the number of a code with `c` appended.
pub fn append_key(key: u32, c: u8) -> (r: u32)
    requires
        0x61 <= c,
        key * 27 + (c - 0x60) <= u32::MAX,
    ensures
        r == key * 27 + (c - 0x60),
{
    key * 27 + ((c - 0x61 + 1) as u32)
}

/// The number of a code without bytes before `a` that fits in a `u32`.
pub fn code_key(code: &[u8]) -> (r: u32)
    requires
        keyable(code@),
        key_of(code@) <= u32::MAX,
    ensures
        r == key_of(code@),
{
    let mut k: u32 = 0;
    let mut j: usize = 0;
    while j < code.len()
        invariant
            keyable(code@),
            key_of(code@) <= u32::MAX,
            j <= code@.len(),
            k == key_of(code@.take(j as int)),
        decreases code.len() - j,
    {
        proof {
            lemma_key_take(code@, j as int);
            lemma_key_prefix_le(code@, j + 1);
            assert(code@.take(0) =~= Seq::<u8>::empty());
        }
        k = append_key(k, code[j]);
        j += 1;
    }
    assert(code@.take(code@.len() as int) =~= code@);
    k
}

/// A character and a number packed into one `u64`: the character above the
/// low 32 bits, the number in them.
pub open spec fn pair_spec(text: char, key: u32) -> u64 {
    ((text as u64) * 0x1_0000_0000 + key) as u64
}

/// Packs a character and a number into one `u64`.
pub fn pack_pair(text: char, key: u32) -> (r: u64)
    ensures
        r == pair_spec(text, key),
{
    let t = text as u64;
    let k = key as u64;
    assert(t <= 0x10ffff);
    assert((t << 32u64) | k == t * 0x1_0000_0000 + k) by (bit_vector)
        requires
            t <= 0x10ffff,
            k <= 0xffff_ffff,
    ;
    (t << 32) | k
}

/// Distinct pairs pack into distinct numbers.
pub proof fn lemma_pair_injective(t1: char, k1: u32, t2: char, k2: u32)
    ensures
        pair_spec(t1, k1) == pair_spec(t2, k2) <==> (t1 == t2 && k1 == k2),
{
    let a = t1 as u64;
    let b = t2 as u64;
    assert(a <= 0x10ffff && b <= 0x10ffff);
    if a < b {
        assert(a * 0x1_0000_0000 + 0x1_0000_0000 <= b * 0x1_0000_0000);
    }
    if b < a {
        assert(b * 0x1_0000_0000 + 0x1_0000_0000 <= a * 0x1_0000_0000);
    }
    if a == b {
        assert(t1 == t2);
    }
}

} // verus!
