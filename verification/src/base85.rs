//! Base-85 binary-to-text codec.
//!
//! Bytes are encoded with an 85-symbol alphabet (digits, upper- and
//! lower-case letters, and a fixed punctuation set), 8 bytes to 10 symbols
//! at a time; a trailing group of `r` bytes becomes `r + 1` symbols (or
//! `r + 2` once a group no longer fits, from 5 bytes up). The decoder
//! ignores every character outside the alphabet, whitespace included, and
//! continues at the next valid symbol.
//!
//! [`lemma_round_trip`] proves that decoding inverts encoding for every
//! byte sequence.

use vstd::arithmetic::div_mod::{
    lemma_fundamental_div_mod_converse, lemma_div_denominator, lemma_mod_breakdown,
    lemma_small_mod, lemma_mod_bound,
};
use vstd::arithmetic::power::{lemma_pow_increases, lemma_pow_positive, pow};
use vstd::prelude::*;

verus! {

/// The big-endian digits of `v` in the given base, `n` of them (most
/// significant first, leading zeros kept; digits beyond the `n` available
/// positions are cut off).
pub open spec fn digits_be(v: nat, base: nat, n: nat) -> Seq<u8>
    decreases n,
{
    if n == 0 {
        Seq::empty()
    } else {
        digits_be(v / base, base, (n - 1) as nat).push((v % base) as u8)
    }
}

/// The value of a big-endian digit sequence in the given base.
pub open spec fn val_of(base: nat, ds: Seq<u8>) -> nat
    decreases ds.len(),
{
    if ds.len() == 0 {
        0
    } else {
        val_of(base, ds.drop_last()) * base + ds.last() as nat
    }
}

/// `digits_be` produces `n` digits, each below the base.
pub proof fn lemma_digits_be_props(v: nat, base: nat, n: nat)
    requires
        2 <= base <= 256,
    ensures
        digits_be(v, base, n).len() == n,
        forall|k: int| 0 <= k < n ==> (#[trigger] digits_be(v, base, n)[k]) < base,
    decreases n,
{
    if n > 0 {
        lemma_digits_be_props(v / base, base, (n - 1) as nat);
        lemma_mod_bound(v as int, base as int);
    }
}

/// Reading the digits of `v` back gives `v`, up to the capacity of `n`
/// digits.
pub proof fn lemma_val_of_digits_be(v: nat, base: nat, n: nat)
    requires
        2 <= base <= 256,
    ensures
        val_of(base, digits_be(v, base, n)) == v % (pow(base as int, n) as nat),
    decreases n,
{
    reveal(pow);
    lemma_digits_be_props(v, base, n);
    if n == 0 {
        assert(pow(base as int, 0) == 1);
        lemma_small_mod(0, 1);
        assert(v % 1nat == 0) by {
            lemma_mod_breakdown(v as int, 1, 1);
        }
    } else {
        let rest = digits_be(v / base, base, (n - 1) as nat);
        let ds = digits_be(v, base, n);
        assert(ds == rest.push((v % base) as u8));
        assert(ds.drop_last() =~= rest);
        assert(ds.last() == (v % base) as u8);
        lemma_val_of_digits_be(v / base, base, (n - 1) as nat);
        lemma_pow_positive(base as int, (n - 1) as nat);
        let p1 = pow(base as int, (n - 1) as nat) as nat;
        assert(pow(base as int, n) == base * p1);
        lemma_mod_bound(v as int, base as int);
        lemma_mod_breakdown(v as int, base as int, p1 as int);
        assert(val_of(base, ds) == ((v / base) % p1) * base + v % base);
    }
}

/// Writing the value of a digit sequence back out gives the same digits.
pub proof fn lemma_digits_be_of_val(base: nat, ds: Seq<u8>)
    requires
        2 <= base <= 256,
        forall|k: int| 0 <= k < ds.len() ==> (#[trigger] ds[k]) < base,
    ensures
        digits_be(val_of(base, ds), base, ds.len()) == ds,
    decreases ds.len(),
{
    if ds.len() > 0 {
        let dl = ds.drop_last();
        let last = ds.last();
        let v = val_of(base, ds);
        assert(forall|k: int| 0 <= k < dl.len() ==> (#[trigger] dl[k]) < base);
        lemma_digits_be_of_val(base, dl);
        lemma_fundamental_div_mod_converse(
            v as int,
            base as int,
            val_of(base, dl) as int,
            last as int,
        );
        assert(v / base == val_of(base, dl));
        assert(v % base == last as nat);
        assert(digits_be(v, base, ds.len()) == digits_be(val_of(base, dl), base, dl.len()).push(
            last,
        ));
        assert(dl.push(last) =~= ds);
    }
}

/// The value of `n` digits stays below `base^n`.
pub proof fn lemma_val_of_bound(base: nat, ds: Seq<u8>)
    requires
        2 <= base <= 256,
        forall|k: int| 0 <= k < ds.len() ==> (#[trigger] ds[k]) < base,
    ensures
        val_of(base, ds) < pow(base as int, ds.len()),
    decreases ds.len(),
{
    reveal(pow);
    if ds.len() == 0 {
    } else {
        let dl = ds.drop_last();
        assert(forall|k: int| 0 <= k < dl.len() ==> (#[trigger] dl[k]) < base);
        lemma_val_of_bound(base, dl);
        let p1 = pow(base as int, dl.len());
        assert(pow(base as int, ds.len()) == base * p1);
        assert(val_of(base, dl) * base + ds.last() < base * p1) by (nonlinear_arith)
            requires
                val_of(base, dl) < p1,
                ds.last() < base,
                base >= 2,
                p1 >= 1,
        ;
    }
}

/// Digit `k` of `v`, counted from the most significant end, is
/// `v / base^(n-1-k) % base`.
pub proof fn lemma_digits_be_index(v: nat, base: nat, n: nat, k: int)
    requires
        2 <= base <= 256,
        0 <= k < n,
    ensures
        digits_be(v, base, n)[k] as int == (v as int) / pow(base as int, (n - 1 - k) as nat) % (
        base as int),
    decreases n,
{
    reveal(pow);
    lemma_digits_be_props(v, base, n);
    let rest = digits_be(v / base, base, (n - 1) as nat);
    if k == n - 1 {
        assert(pow(base as int, 0) == 1);
        assert(digits_be(v, base, n)[k] == (v % base) as u8);
        assert((v as int) / 1 == v as int);
    } else {
        lemma_digits_be_props(v / base, base, (n - 1) as nat);
        assert(digits_be(v, base, n)[k] == rest[k]);
        lemma_digits_be_index(v / base, base, (n - 1) as nat, k);
        let e = (n - 2 - k) as nat;
        lemma_pow_positive(base as int, e);
        lemma_div_denominator(v as int, base as int, pow(base as int, e));
        assert(pow(base as int, (e + 1) as nat) == base * pow(base as int, e));
        assert((v as int) / (base as int) / pow(base as int, e) == (v as int) / (base * pow(
            base as int,
            e,
        )));
    }
}

/// The symbol standing for digit `d`: `0-9`, then `A-Z`, then `a-z`, then
/// the punctuation set, in alphabet order.
pub open spec fn sym_of(d: u8) -> char {
    if d < 10 {
        ((48 + d) as u8) as char
    } else if d < 36 {
        ((55 + d) as u8) as char
    } else if d < 62 {
        ((61 + d) as u8) as char
    } else if d == 62 {
        '!'
    } else if d == 63 {
        '#'
    } else if d == 64 {
        '$'
    } else if d == 65 {
        '%'
    } else if d == 66 {
        '&'
    } else if d == 67 {
        '('
    } else if d == 68 {
        ')'
    } else if d == 69 {
        '*'
    } else if d == 70 {
        '+'
    } else if d == 71 {
        '-'
    } else if d == 72 {
        ';'
    } else if d == 73 {
        '<'
    } else if d == 74 {
        '='
    } else if d == 75 {
        '>'
    } else if d == 76 {
        '?'
    } else if d == 77 {
        '@'
    } else if d == 78 {
        '^'
    } else if d == 79 {
        '_'
    } else if d == 80 {
        '`'
    } else if d == 81 {
        '{'
    } else if d == 82 {
        '|'
    } else if d == 83 {
        '}'
    } else {
        '~'
    }
}

/// The digit a character stands for, or -1 for characters outside the
/// alphabet (which the decoder ignores).
pub open spec fn digit_of(c: char) -> int {
    let ci = c as int;
    if 48 <= ci <= 57 {
        ci - 48
    } else if 65 <= ci <= 90 {
        ci - 55
    } else if 97 <= ci <= 122 {
        ci - 61
    } else if c == '!' {
        62
    } else if c == '#' {
        63
    } else if c == '$' {
        64
    } else if c == '%' {
        65
    } else if c == '&' {
        66
    } else if c == '(' {
        67
    } else if c == ')' {
        68
    } else if c == '*' {
        69
    } else if c == '+' {
        70
    } else if c == '-' {
        71
    } else if c == ';' {
        72
    } else if c == '<' {
        73
    } else if c == '=' {
        74
    } else if c == '>' {
        75
    } else if c == '?' {
        76
    } else if c == '@' {
        77
    } else if c == '^' {
        78
    } else if c == '_' {
        79
    } else if c == '`' {
        80
    } else if c == '{' {
        81
    } else if c == '|' {
        82
    } else if c == '}' {
        83
    } else if c == '~' {
        84
    } else {
        -1
    }
}

/// Reading a symbol back gives the digit it was written for.
pub proof fn lemma_digit_of_sym(d: u8)
    requires
        d < 85,
    ensures
        digit_of(sym_of(d)) == d as int,
{
}

/// How many symbols a trailing group of `r` bytes takes (for `1 <= r <= 7`).
pub open spec fn nchars(r: nat) -> nat {
    if r <= 4 {
        r + 1
    } else {
        r + 2
    }
}

/// How many bytes a trailing group of `count` symbols decodes to.
pub open spec fn rem_len(count: nat) -> nat {
    if count <= 1 {
        0
    } else if count <= 5 {
        (count - 1) as nat
    } else {
        (count - 2) as nat
    }
}

/// The `n` symbols encoding value `v`.
pub open spec fn chunk_chars(v: nat, n: nat) -> Seq<char> {
    digits_be(v, 85, n).map_values(|d: u8| sym_of(d))
}

/// What encoding a byte sequence returns: 10 symbols for each full group of
/// 8 bytes, then `nchars` symbols for the trailing bytes.
pub open spec fn encode_spec(b: Seq<u8>) -> Seq<char>
    decreases b.len(),
{
    if b.len() >= 8 {
        chunk_chars(val_of(256, b.take(8)), 10) + encode_spec(b.skip(8))
    } else if b.len() == 0 {
        Seq::empty()
    } else {
        chunk_chars(val_of(256, b), nchars(b.len()))
    }
}

/// The digits of the alphabet characters of `s`, in order; everything else
/// is dropped.
pub open spec fn digits_of(s: Seq<char>) -> Seq<u8>
    decreases s.len(),
{
    if s.len() == 0 {
        Seq::empty()
    } else if digit_of(s[0]) >= 0 {
        seq![digit_of(s[0]) as u8] + digits_of(s.drop_first())
    } else {
        digits_of(s.drop_first())
    }
}

/// Reduction to the 64-bit accumulator the decoder folds digits into.
pub open spec fn wrap64(v: nat) -> nat {
    v % 0x1_0000_0000_0000_0000
}

/// The decoder's fold over a digit sequence: digits accumulate into `buf`
/// until a group of 10 is complete, which yields 8 bytes; what is left at
/// the end yields `rem_len` more bytes.
pub open spec fn run(buf: nat, count: nat, ds: Seq<u8>) -> Seq<u8>
    decreases ds.len(),
{
    if ds.len() == 0 {
        digits_be(buf, 256, rem_len(count))
    } else if count == 9 {
        digits_be(wrap64(buf * 85 + ds[0] as nat), 256, 8) + run(0, 0, ds.drop_first())
    } else {
        run(wrap64(buf * 85 + ds[0] as nat), count + 1, ds.drop_first())
    }
}

/// What decoding a character sequence returns.
pub open spec fn decode_spec(s: Seq<char>) -> Seq<u8> {
    run(0, 0, digits_of(s))
}

/// The concrete powers the codec's grouping rests on: 8 bytes need no more
/// than 10 symbols, and a trailing group of `r` bytes fits in `nchars(r)`
/// symbols.
proof fn lemma_pow_facts()
    ensures
        pow(256, 8) == 0x1_0000_0000_0000_0000,
        pow(85, 10) >= pow(256, 8),
        forall|r: nat| 1 <= r <= 7 ==> pow(256, r as nat) <= #[trigger] pow(85, nchars(r)),
    decreases 0nat,
{
    reveal_with_fuel(pow, 11);
    assert(pow(256, 8) == 0x1_0000_0000_0000_0000);
    assert(pow(85, 10) == 19687440434072265625);
    assert(pow(256, 1) <= pow(85, 2));
    assert(pow(256, 2) <= pow(85, 3));
    assert(pow(256, 3) <= pow(85, 4));
    assert(pow(256, 4) <= pow(85, 5));
    assert(pow(256, 5) <= pow(85, 7));
    assert(pow(256, 6) <= pow(85, 8));
    assert(pow(256, 7) <= pow(85, 9));
    assert forall|r: nat| 1 <= r <= 7 implies pow(256, r as nat) <= #[trigger] pow(
        85,
        nchars(r),
    ) by {
        if r <= 4 {
            assert(nchars(r) == r + 1);
        } else {
            assert(nchars(r) == r + 2);
        }
    }
}

/// Digit extraction distributes over concatenation.
proof fn lemma_digits_of_concat(a: Seq<char>, b: Seq<char>)
    ensures
        digits_of(a + b) == digits_of(a) + digits_of(b),
    decreases a.len(),
{
    if a.len() == 0 {
        assert(a + b =~= b);
        assert(digits_of(a) + digits_of(b) =~= digits_of(b));
    } else {
        assert((a + b)[0] == a[0]);
        assert((a + b).drop_first() =~= a.drop_first() + b);
        lemma_digits_of_concat(a.drop_first(), b);
        if digit_of(a[0]) >= 0 {
            assert(digits_of(a + b) =~= digits_of(a) + digits_of(b));
        } else {
            assert(digits_of(a + b) =~= digits_of(a) + digits_of(b));
        }
    }
}

/// Every symbol written for a digit is read back as that digit.
proof fn lemma_digits_of_syms(ds: Seq<u8>)
    requires
        forall|k: int| 0 <= k < ds.len() ==> (#[trigger] ds[k]) < 85,
    ensures
        digits_of(ds.map_values(|d: u8| sym_of(d))) == ds,
    decreases ds.len(),
{
    let cs = ds.map_values(|d: u8| sym_of(d));
    if ds.len() > 0 {
        lemma_digit_of_sym(ds[0]);
        assert(cs[0] == sym_of(ds[0]));
        assert(digit_of(cs[0]) == ds[0] as int);
        assert(cs.drop_first() =~= ds.drop_first().map_values(|d: u8| sym_of(d)));
        assert(forall|k: int|
            0 <= k < ds.drop_first().len() ==> (#[trigger] ds.drop_first()[k]) < 85);
        lemma_digits_of_syms(ds.drop_first());
        assert(digits_of(cs) =~= ds);
    }
}

/// Splitting the value of a digit sequence at its first digit.
proof fn lemma_val_of_cons(base: nat, ds: Seq<u8>)
    requires
        2 <= base <= 256,
        ds.len() >= 1,
    ensures
        val_of(base, ds) == ds[0] * pow(base as int, (ds.len() - 1) as nat) + val_of(
            base,
            ds.drop_first(),
        ),
    decreases ds.len(),
{
    reveal(pow);
    if ds.len() == 1 {
        assert(ds.drop_last() =~= Seq::<u8>::empty());
        assert(ds.drop_first() =~= Seq::<u8>::empty());
        assert(ds.last() == ds[0]);
        assert(pow(base as int, 0) == 1);
        assert(val_of(base, Seq::<u8>::empty()) == 0);
        assert(val_of(base, ds) == 0 * base + ds[0] as nat);
        assert(ds[0] * 1 == ds[0]) by (nonlinear_arith);
    } else {
        let dl = ds.drop_last();
        lemma_val_of_cons(base, dl);
        assert(dl[0] == ds[0]);
        assert(dl.drop_first() =~= ds.drop_first().drop_last());
        assert(ds.drop_first().last() == ds.last());
        let p2 = pow(base as int, (ds.len() - 2) as nat);
        lemma_pow_positive(base as int, (ds.len() - 2) as nat);
        assert(pow(base as int, (ds.len() - 1) as nat) == base * p2);
        assert(val_of(base, ds) == val_of(base, dl) * base + ds.last() as nat);
        assert(val_of(base, ds.drop_first()) == val_of(base, ds.drop_first().drop_last()) * base
            + ds.last() as nat);
        assert(val_of(base, dl) == ds[0] * p2 + val_of(base, ds.drop_first().drop_last()));
        assert((ds[0] * p2 + val_of(base, ds.drop_first().drop_last())) * base + ds.last() as nat
            == ds[0] * (base * p2) + (val_of(base, ds.drop_first().drop_last()) * base
            + ds.last() as nat)) by (nonlinear_arith);
        assert(val_of(base, ds) == ds[0] * (base * p2) + val_of(base, ds.drop_first()));
    }
}

/// Feeding a group-completing digit run into the fold emits exactly the 8
/// bytes of the accumulated value, then starts over on the rest.
proof fn lemma_run_group(buf: nat, count: nat, ds: Seq<u8>, rest: Seq<u8>)
    requires
        count + ds.len() == 10,
        ds.len() >= 1,
        forall|k: int| 0 <= k < ds.len() ==> (#[trigger] ds[k]) < 85,
        buf * pow(85, ds.len()) + val_of(85, ds) < 0x1_0000_0000_0000_0000,
    ensures
        run(buf, count, ds + rest) == digits_be(
            (buf * pow(85, ds.len()) + val_of(85, ds)) as nat,
            256,
            8,
        ) + run(0, 0, rest),
    decreases ds.len(),
{
    reveal(pow);
    let total = buf * pow(85, ds.len()) + val_of(85, ds);
    let d0 = ds[0];
    assert((ds + rest)[0] == d0);
    assert((ds + rest).len() >= 1);
    lemma_val_of_cons(85, ds);
    lemma_pow_positive(85, (ds.len() - 1) as nat);
    let p1 = pow(85, (ds.len() - 1) as nat);
    assert(pow(85, ds.len()) == 85 * p1);
    let buf2 = buf * 85 + d0 as nat;
    assert(buf2 * p1 + val_of(85, ds.drop_first()) == total) by (nonlinear_arith)
        requires
            buf2 == buf * 85 + d0,
            total == buf * (85 * p1) + (d0 * p1 + val_of(85, ds.drop_first())),
    ;
    assert(buf2 <= total) by (nonlinear_arith)
        requires
            p1 >= 1,
            buf2 >= 0,
            total == buf2 * p1 + val_of(85, ds.drop_first()),
    ;
    lemma_small_mod(buf2, 0x1_0000_0000_0000_0000);
    assert(wrap64(buf2) == buf2);
    if ds.len() == 1 {
        assert(count == 9);
        assert(ds.drop_first() =~= Seq::<u8>::empty());
        assert(val_of(85, ds.drop_first()) == 0);
        assert(buf2 == total);
        assert((ds + rest).drop_first() =~= rest);
        assert(run(buf, count, ds + rest) == digits_be(wrap64(buf2), 256, 8) + run(0, 0, rest));
    } else {
        assert(count < 9);
        assert((ds + rest).drop_first() =~= ds.drop_first() + rest);
        assert(forall|k: int|
            0 <= k < ds.drop_first().len() ==> (#[trigger] ds.drop_first()[k]) < 85);
        lemma_run_group(buf2, count + 1, ds.drop_first(), rest);
    }
}

/// Feeding a final, incomplete digit run into the fold emits the trailing
/// bytes of the accumulated value.
proof fn lemma_run_tail(buf: nat, count: nat, ds: Seq<u8>)
    requires
        count + ds.len() < 10,
        forall|k: int| 0 <= k < ds.len() ==> (#[trigger] ds[k]) < 85,
        buf * pow(85, ds.len()) + val_of(85, ds) < 0x1_0000_0000_0000_0000,
    ensures
        run(buf, count, ds) == digits_be(
            (buf * pow(85, ds.len()) + val_of(85, ds)) as nat,
            256,
            rem_len(count + ds.len()),
        ),
    decreases ds.len(),
{
    reveal(pow);
    if ds.len() == 0 {
        assert(pow(85, 0) == 1);
        assert(val_of(85, ds) == 0);
        assert(buf * 1 + 0 == buf) by (nonlinear_arith);
    } else {
        let d0 = ds[0];
        lemma_val_of_cons(85, ds);
        lemma_pow_positive(85, (ds.len() - 1) as nat);
        let p1 = pow(85, (ds.len() - 1) as nat);
        assert(pow(85, ds.len()) == 85 * p1);
        let buf2 = buf * 85 + d0 as nat;
        let total = buf * pow(85, ds.len()) + val_of(85, ds);
        assert(buf2 * p1 + val_of(85, ds.drop_first()) == total) by (nonlinear_arith)
            requires
                buf2 == buf * 85 + d0,
                total == buf * (85 * p1) + (d0 * p1 + val_of(85, ds.drop_first())),
        ;
        assert(buf2 <= total) by (nonlinear_arith)
            requires
                p1 >= 1,
                buf2 >= 0,
                total == buf2 * p1 + val_of(85, ds.drop_first()),
        ;
        lemma_small_mod(buf2, 0x1_0000_0000_0000_0000);
        assert(forall|k: int|
            0 <= k < ds.drop_first().len() ==> (#[trigger] ds.drop_first()[k]) < 85);
        lemma_run_tail(buf2, count + 1, ds.drop_first());
    }
}

/// Appends one character to a string.
///
/// Relies on `String::push`: the string grows by exactly that character.
#[verifier::external_body]
fn push_char(s: &mut String, c: char)
    ensures
        final(s)@ == old(s)@.push(c),
{
    s.push(c);
}

/// `85^e`, for exponents small enough that the power fits.
fn pow85(e: usize) -> (r: u64)
    requires
        e <= 9,
    ensures
        r as nat == pow(85, e as nat),
        r >= 1,
{
    proof {
        reveal_with_fuel(pow, 11);
    }
    let mut r: u64 = 1;
    let mut i: usize = 0;
    while i < e
        invariant
            i <= e <= 9,
            r as nat == pow(85, i as nat),
        decreases e - i,
    {
        proof {
            lemma_pow_increases(85, i as nat, 8);
            assert(pow(85, 8) == 2724905250390625) by {
                reveal_with_fuel(pow, 11);
            }
            assert(pow(85, (i + 1) as nat) == 85 * pow(85, i as nat)) by {
                reveal(pow);
            }
        }
        r = r * 85;
        i = i + 1;
    }
    proof {
        lemma_pow_positive(85, e as nat);
    }
    r
}

/// `256^e`, for exponents small enough that the power fits.
fn pow256(e: usize) -> (r: u64)
    requires
        e <= 7,
    ensures
        r as nat == pow(256, e as nat),
        r >= 1,
{
    proof {
        reveal_with_fuel(pow, 9);
    }
    let mut r: u64 = 1;
    let mut i: usize = 0;
    while i < e
        invariant
            i <= e <= 7,
            r as nat == pow(256, i as nat),
        decreases e - i,
    {
        proof {
            lemma_pow_increases(256, i as nat, 6);
            assert(pow(256, 6) == 281474976710656) by {
                reveal_with_fuel(pow, 9);
            }
            assert(pow(256, (i + 1) as nat) == 256 * pow(256, i as nat)) by {
                reveal(pow);
            }
        }
        r = r * 256;
        i = i + 1;
    }
    proof {
        lemma_pow_positive(256, e as nat);
    }
    r
}

/// The alphabet symbol for digit `d`.
fn encode_digit(d: u8) -> (c: char)
    requires
        d < 85,
    ensures
        c == sym_of(d),
{
    if d < 10 {
        (48 + d) as char
    } else if d < 36 {
        (55 + d) as char
    } else if d < 62 {
        (61 + d) as char
    } else if d == 62 {
        '!'
    } else if d == 63 {
        '#'
    } else if d == 64 {
        '$'
    } else if d == 65 {
        '%'
    } else if d == 66 {
        '&'
    } else if d == 67 {
        '('
    } else if d == 68 {
        ')'
    } else if d == 69 {
        '*'
    } else if d == 70 {
        '+'
    } else if d == 71 {
        '-'
    } else if d == 72 {
        ';'
    } else if d == 73 {
        '<'
    } else if d == 74 {
        '='
    } else if d == 75 {
        '>'
    } else if d == 76 {
        '?'
    } else if d == 77 {
        '@'
    } else if d == 78 {
        '^'
    } else if d == 79 {
        '_'
    } else if d == 80 {
        '`'
    } else if d == 81 {
        '{'
    } else if d == 82 {
        '|'
    } else if d == 83 {
        '}'
    } else {
        '~'
    }
}

/// The digit a character stands for, or `None` outside the alphabet.
fn decode_digit(c: char) -> (r: Option<u8>)
    ensures
        match r {
            Some(d) => digit_of(c) == d as int && d < 85,
            None => digit_of(c) < 0,
        },
{
    let ci = c as u32;
    if 48 <= ci && ci <= 57 {
        Some((ci - 48) as u8)
    } else if 65 <= ci && ci <= 90 {
        Some((ci - 55) as u8)
    } else if 97 <= ci && ci <= 122 {
        Some((ci - 61) as u8)
    } else if c == '!' {
        Some(62)
    } else if c == '#' {
        Some(63)
    } else if c == '$' {
        Some(64)
    } else if c == '%' {
        Some(65)
    } else if c == '&' {
        Some(66)
    } else if c == '(' {
        Some(67)
    } else if c == ')' {
        Some(68)
    } else if c == '*' {
        Some(69)
    } else if c == '+' {
        Some(70)
    } else if c == '-' {
        Some(71)
    } else if c == ';' {
        Some(72)
    } else if c == '<' {
        Some(73)
    } else if c == '=' {
        Some(74)
    } else if c == '>' {
        Some(75)
    } else if c == '?' {
        Some(76)
    } else if c == '@' {
        Some(77)
    } else if c == '^' {
        Some(78)
    } else if c == '_' {
        Some(79)
    } else if c == '`' {
        Some(80)
    } else if c == '{' {
        Some(81)
    } else if c == '|' {
        Some(82)
    } else if c == '}' {
        Some(83)
    } else if c == '~' {
        Some(84)
    } else {
        None
    }
}

/// Appends the `c` symbols that encode `v` to `out`.
fn push_chunk(out: &mut String, v: u64, c: usize)
    requires
        1 <= c <= 10,
    ensures
        final(out)@ == old(out)@ + chunk_chars(v as nat, c as nat),
{
    proof {
        lemma_digits_be_props(v as nat, 85, c as nat);
        assert(chunk_chars(v as nat, c as nat).len() == c);
    }
    let mut j: usize = 0;
    while j < c
        invariant
            j <= c <= 10,
            out@ == old(out)@ + chunk_chars(v as nat, c as nat).take(j as int),
        decreases c - j,
    {
        let p = pow85(c - 1 - j);
        let d = ((v / p) % 85) as u8;
        proof {
            lemma_digits_be_index(v as nat, 85, c as nat, j as int);
            lemma_digits_be_props(v as nat, 85, c as nat);
            assert(digits_be(v as nat, 85, c as nat)[j as int] == d);
            assert(chunk_chars(v as nat, c as nat)[j as int] == sym_of(d));
        }
        let sym = encode_digit(d);
        push_char(out, sym);
        proof {
            assert(chunk_chars(v as nat, c as nat).take(j + 1) =~= chunk_chars(
                v as nat,
                c as nat,
            ).take(j as int).push(sym));
        }
        j = j + 1;
    }
    proof {
        assert(chunk_chars(v as nat, c as nat).take(c as int) =~= chunk_chars(
            v as nat,
            c as nat,
        ));
    }
}

/// Appends the `m` low bytes of `v`, most significant first, to `out`.
fn push_bytes_be(out: &mut Vec<u8>, v: u64, m: usize)
    requires
        1 <= m <= 8,
    ensures
        final(out)@ == old(out)@ + digits_be(v as nat, 256, m as nat),
{
    proof {
        lemma_digits_be_props(v as nat, 256, m as nat);
    }
    let mut j: usize = 0;
    while j < m
        invariant
            j <= m <= 8,
            out@ == old(out)@ + digits_be(v as nat, 256, m as nat).take(j as int),
        decreases m - j,
    {
        let p = pow256(m - 1 - j);
        let d = ((v / p) % 256) as u8;
        proof {
            lemma_digits_be_index(v as nat, 256, m as nat, j as int);
            lemma_digits_be_props(v as nat, 256, m as nat);
            assert(digits_be(v as nat, 256, m as nat)[j as int] == d);
        }
        out.push(d);
        proof {
            assert(digits_be(v as nat, 256, m as nat).take(j + 1) =~= digits_be(
                v as nat,
                256,
                m as nat,
            ).take(j as int).push(d));
        }
        j = j + 1;
    }
    proof {
        assert(digits_be(v as nat, 256, m as nat).take(m as int) =~= digits_be(
            v as nat,
            256,
            m as nat,
        ));
    }
}

/// Encodes bytes as base-85 text: 10 symbols for each full group of 8
/// bytes, then `r + 1` (or, past 4 bytes, `r + 2`) symbols for a trailing
/// group of `r` bytes.
pub fn encode(value: &[u8]) -> (r: String)
    ensures
        r@ == encode_spec(value@),
{
    proof {
        lemma_pow_facts();
    }
    let len = value.len();
    let mut out = String::new();
    let mut pos: usize = 0;
    proof {
        assert(value@.skip(0) =~= value@);
        assert(out@ + encode_spec(value@) =~= encode_spec(value@));
    }
    while len - pos >= 8
        invariant
            pos <= len,
            len == value@.len(),
            out@ + encode_spec(value@.skip(pos as int)) == encode_spec(value@),
        decreases len - pos,
    {
        let ghost rem = value@.skip(pos as int);
        let mut v: u64 = 0;
        let mut k: usize = 0;
        proof {
            assert(value@.subrange(pos as int, pos as int) =~= Seq::<u8>::empty());
            assert(pow(256, 0) == 1) by {
                reveal(pow);
            }
        }
        while k < 8
            invariant
                k <= 8,
                pos + 8 <= len,
                len == value@.len(),
                v as nat == val_of(256, value@.subrange(pos as int, pos + k)),
                (v as nat) < pow(256, k as nat),
            decreases 8 - k,
        {
            let ghost taken = value@.subrange(pos as int, pos + k);
            let b = value[pos + k];
            proof {
                reveal(pow);
                assert(pow(256, (k + 1) as nat) == 256 * pow(256, k as nat));
                lemma_pow_facts();
                lemma_pow_increases(256, (k + 1) as nat, 8);
                assert((v as nat) * 256 + (b as nat) < pow(256, (k + 1) as nat))
                    by (nonlinear_arith)
                    requires
                        (v as nat) < pow(256, k as nat),
                        b < 256,
                        pow(256, (k + 1) as nat) == 256 * pow(256, k as nat),
                ;
                assert(value@.subrange(pos as int, pos + k + 1).drop_last() =~= taken);
                assert(value@.subrange(pos as int, pos + k + 1).last() == b);
            }
            v = v * 256 + (b as u64);
            k = k + 1;
        }
        proof {
            assert(rem.take(8) =~= value@.subrange(pos as int, pos + 8));
            assert(rem.skip(8) =~= value@.skip(pos + 8));
            assert(encode_spec(rem) == chunk_chars(v as nat, 10) + encode_spec(rem.skip(8)));
        }
        let ghost out0 = out@;
        push_chunk(&mut out, v, 10);
        proof {
            assert(out@ + encode_spec(value@.skip(pos + 8)) =~= out0 + encode_spec(rem));
        }
        pos = pos + 8;
    }
    if pos < len {
        let ghost rem = value@.skip(pos as int);
        let r = len - pos;
        let mut v: u64 = 0;
        let mut k: usize = 0;
        proof {
            assert(value@.subrange(pos as int, pos as int) =~= Seq::<u8>::empty());
            lemma_pow_facts();
            assert(pow(256, 0) == 1) by {
                reveal(pow);
            }
        }
        while k < r
            invariant
                k <= r < 8,
                pos + r == len,
                len == value@.len(),
                v as nat == val_of(256, value@.subrange(pos as int, pos + k)),
                (v as nat) < pow(256, k as nat),
            decreases r - k,
        {
            let ghost taken = value@.subrange(pos as int, pos + k);
            let b = value[pos + k];
            proof {
                reveal(pow);
                assert(pow(256, (k + 1) as nat) == 256 * pow(256, k as nat));
                lemma_pow_facts();
                lemma_pow_increases(256, (k + 1) as nat, 8);
                assert((v as nat) * 256 + (b as nat) < pow(256, (k + 1) as nat))
                    by (nonlinear_arith)
                    requires
                        (v as nat) < pow(256, k as nat),
                        b < 256,
                        pow(256, (k + 1) as nat) == 256 * pow(256, k as nat),
                ;
                assert(value@.subrange(pos as int, pos + k + 1).drop_last() =~= taken);
                assert(value@.subrange(pos as int, pos + k + 1).last() == b);
            }
            v = v * 256 + (b as u64);
            k = k + 1;
        }
        let c = if r <= 4 {
            r + 1
        } else {
            r + 2
        };
        proof {
            assert(rem =~= value@.subrange(pos as int, pos + r));
            assert(encode_spec(rem) == chunk_chars(v as nat, nchars(rem.len())));
            assert(c as nat == nchars(rem.len()));
        }
        let ghost out0 = out@;
        push_chunk(&mut out, v, c);
        proof {
            assert(out@ =~= out0 + encode_spec(rem));
        }
    } else {
        proof {
            assert(value@.skip(pos as int).len() == 0);
            assert(encode_spec(value@.skip(pos as int)) =~= Seq::<char>::empty());
            assert(out@ + encode_spec(value@.skip(pos as int)) =~= out@);
        }
    }
    out
}

/// Decodes base-85 text back to bytes, ignoring every character outside
/// the alphabet; a trailing group of symbols yields its `rem_len` bytes.
pub fn decode(value: &str) -> (r: Vec<u8>)
    ensures
        r@ == decode_spec(value@),
{
    let n = value.unicode_len();
    let mut out: Vec<u8> = Vec::new();
    let mut buf: u64 = 0;
    let mut count: usize = 0;
    let mut i: usize = 0;
    proof {
        assert(value@.skip(0) =~= value@);
        assert(out@ + run(0, 0, digits_of(value@)) =~= decode_spec(value@));
    }
    while i < n
        invariant
            i <= n,
            n == value@.len(),
            count < 10,
            out@ + run(buf as nat, count as nat, digits_of(value@.skip(i as int)))
                == decode_spec(value@),
        decreases n - i,
    {
        let c = value.get_char(i);
        let ghost rest = value@.skip(i as int);
        proof {
            assert(rest[0] == value@[i as int]);
            assert(rest.drop_first() =~= value@.skip(i + 1));
        }
        match decode_digit(c) {
            Some(d) => {
                let nb = buf.wrapping_mul(85).wrapping_add(d as u64);
                proof {
                    let w = 0x1_0000_0000_0000_0000nat;
                    let a = (buf as nat) * 85;
                    vstd::arithmetic::div_mod::lemma_add_mod_noop(
                        a as int,
                        d as int,
                        w as int,
                    );
                    lemma_small_mod(d as nat, w);
                    lemma_mod_bound((a % w) as int + d as int, w as int);
                    assert(nb as nat == wrap64((buf as nat) * 85 + d as nat));
                    assert(digits_of(rest) == seq![d] + digits_of(rest.drop_first()));
                    assert((seq![d] + digits_of(rest.drop_first()))[0] == d);
                    assert((seq![d] + digits_of(rest.drop_first())).drop_first() =~= digits_of(
                        rest.drop_first(),
                    ));
                }
                if count == 9 {
                    let ghost out0 = out@;
                    push_bytes_be(&mut out, nb, 8);
                    proof {
                        assert(run(buf as nat, count as nat, digits_of(rest)) == digits_be(
                            nb as nat,
                            256,
                            8,
                        ) + run(0, 0, digits_of(rest.drop_first())));
                        assert(out@ + run(0, 0, digits_of(value@.skip(i + 1))) =~= out0 + run(
                            buf as nat,
                            count as nat,
                            digits_of(rest),
                        ));
                    }
                    buf = 0;
                    count = 0;
                } else {
                    proof {
                        assert(run(buf as nat, count as nat, digits_of(rest)) == run(
                            nb as nat,
                            (count + 1) as nat,
                            digits_of(rest.drop_first()),
                        ));
                    }
                    buf = nb;
                    count = count + 1;
                }
            },
            None => {
                proof {
                    assert(digits_of(rest) == digits_of(rest.drop_first()));
                }
            },
        }
        i = i + 1;
    }
    proof {
        assert(value@.skip(n as int).len() == 0);
        assert(digits_of(value@.skip(n as int)) =~= Seq::<u8>::empty());
        assert(run(buf as nat, count as nat, Seq::<u8>::empty()) == digits_be(
            buf as nat,
            256,
            rem_len(count as nat),
        ));
    }
    if count > 1 {
        let m = if count <= 5 {
            count - 1
        } else {
            count - 2
        };
        proof {
            assert(m as nat == rem_len(count as nat));
        }
        push_bytes_be(&mut out, buf, m);
    } else {
        proof {
            assert(rem_len(count as nat) == 0);
            assert(digits_be(buf as nat, 256, 0) =~= Seq::<u8>::empty());
            assert(out@ + Seq::<u8>::empty() =~= out@);
        }
    }
    out
}

/// Decoding inverts encoding: every byte sequence comes back unchanged.
pub proof fn lemma_round_trip(b: Seq<u8>)
    ensures
        decode_spec(encode_spec(b)) == b,
    decreases b.len(),
{
    lemma_pow_facts();
    if b.len() == 0 {
        assert(digits_of(encode_spec(b)) =~= Seq::<u8>::empty());
        assert(rem_len(0) == 0);
        assert(decode_spec(encode_spec(b)) =~= b);
    } else if b.len() >= 8 {
        let head = b.take(8);
        let tail = b.skip(8);
        let v = val_of(256, head);
        assert(forall|k: int| 0 <= k < head.len() ==> (#[trigger] head[k]) < 256);
        lemma_val_of_bound(256, head);
        assert(v < 0x1_0000_0000_0000_0000);
        lemma_digits_be_props(v, 85, 10);
        let ds = digits_be(v, 85, 10);
        lemma_digits_of_syms(ds);
        lemma_digits_of_concat(chunk_chars(v, 10), encode_spec(tail));
        assert(digits_of(encode_spec(b)) == ds + digits_of(encode_spec(tail)));
        lemma_val_of_digits_be(v, 85, 10);
        lemma_small_mod(v, pow(85, 10) as nat);
        assert(val_of(85, ds) == v);
        assert(0 * pow(85, 10) + val_of(85, ds) == v) by (nonlinear_arith)
            requires
                val_of(85, ds) == v,
        ;
        lemma_run_group(0, 0, ds, digits_of(encode_spec(tail)));
        lemma_digits_be_of_val(256, head);
        lemma_round_trip(tail);
        assert(decode_spec(encode_spec(b)) == head + decode_spec(encode_spec(tail)));
        assert(head + tail =~= b);
    } else {
        let r = b.len();
        let c = nchars(r);
        let v = val_of(256, b);
        assert(forall|k: int| 0 <= k < b.len() ==> (#[trigger] b[k]) < 256);
        lemma_val_of_bound(256, b);
        assert(pow(256, r) <= pow(85, c));
        lemma_pow_increases(256, r, 8);
        assert(v < 0x1_0000_0000_0000_0000);
        lemma_digits_be_props(v, 85, c);
        let ds = digits_be(v, 85, c);
        lemma_digits_of_syms(ds);
        assert(digits_of(encode_spec(b)) == ds);
        lemma_val_of_digits_be(v, 85, c);
        lemma_small_mod(v, pow(85, c) as nat);
        assert(val_of(85, ds) == v);
        assert(0 * pow(85, c) + val_of(85, ds) == v) by (nonlinear_arith)
            requires
                val_of(85, ds) == v,
        ;
        lemma_run_tail(0, 0, ds);
        assert(rem_len(c) == r);
        lemma_digits_be_of_val(256, b);
        assert(decode_spec(encode_spec(b)) == b);
    }
}

} // verus!
