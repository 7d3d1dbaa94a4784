//! Time-sortable snapshot identifiers.
//!
//! An identifier packs a 48-bit millisecond timestamp and 80 bits of
//! randomness into a 128-bit value, written as 26 characters of
//! Crockford base32 (most significant character first).  Equality and
//! ordering always go through the decoded `(timestamp, randomness)`
//! pair, never through the raw string, so that differently written
//! encodings of one value compare equal.

use crate::Error;
use vstd::arithmetic::div_mod::*;
use vstd::arithmetic::power::*;
use vstd::arithmetic::power2::*;
use vstd::prelude::*;
use vstd::string::*;

verus! {

/// 2^80, the weight of the timestamp field inside an identifier's
/// 128-bit value.
pub const RAND_SPAN: u128 = 0x1_0000_0000_0000_0000_0000;

/// 2^48, one past the largest encodable millisecond timestamp.
pub const TS_SPAN: u64 = 0x1_0000_0000_0000;

/// Number of characters in an encoded identifier.
pub const ID_LEN: usize = 26;

/// The canonical digit for a 5-bit value: Crockford base32, which is
/// `0-9` then the upper-case alphabet without `I`, `L`, `O` and `U`.
pub open spec fn b32_char(v: int) -> char {
    if v == 0 { '0' } else if v == 1 { '1' } else if v == 2 { '2' }
    else if v == 3 { '3' } else if v == 4 { '4' } else if v == 5 { '5' }
    else if v == 6 { '6' } else if v == 7 { '7' } else if v == 8 { '8' }
    else if v == 9 { '9' } else if v == 10 { 'A' } else if v == 11 { 'B' }
    else if v == 12 { 'C' } else if v == 13 { 'D' } else if v == 14 { 'E' }
    else if v == 15 { 'F' } else if v == 16 { 'G' } else if v == 17 { 'H' }
    else if v == 18 { 'J' } else if v == 19 { 'K' } else if v == 20 { 'M' }
    else if v == 21 { 'N' } else if v == 22 { 'P' } else if v == 23 { 'Q' }
    else if v == 24 { 'R' } else if v == 25 { 'S' } else if v == 26 { 'T' }
    else if v == 27 { 'V' } else if v == 28 { 'W' } else if v == 29 { 'X' }
    else if v == 30 { 'Y' } else { 'Z' }
}

/// The 5-bit value of a digit, or -1 for a character that is no digit.
/// Both cases of a letter are read, as the usual decoders do.
pub open spec fn b32_value(c: char) -> int {
    let x = c as int;
    let u = if 97 <= x <= 122 { x - 32 } else { x };
    if 48 <= u <= 57 {
        u - 48
    } else if 65 <= u <= 72 {
        // A-H
        u - 55
    } else if 74 <= u <= 75 {
        // J, K
        u - 56
    } else if 77 <= u <= 78 {
        // M, N
        u - 57
    } else if 80 <= u <= 84 {
        // P-T
        u - 58
    } else if 86 <= u <= 90 {
        // V-Z
        u - 59
    } else {
        -1
    }
}

/// Every canonical digit decodes back to its value.
pub proof fn lemma_b32_round_trip(v: int)
    requires
        0 <= v < 32,
    ensures
        b32_value(b32_char(v)) == v,
{
}

/// The value of a digit, as executable code.
pub fn b32_value_of(c: char) -> (r: Option<u8>)
    ensures
        r is Some <==> b32_value(c) >= 0,
        r is Some ==> r->0 == b32_value(c) && r->0 < 32,
{
    let x = c as u32;
    let u = if 97 <= x && x <= 122 { x - 32 } else { x };
    if 48 <= u && u <= 57 {
        Some((u - 48) as u8)
    } else if 65 <= u && u <= 72 {
        Some((u - 55) as u8)
    } else if 74 <= u && u <= 75 {
        Some((u - 56) as u8)
    } else if 77 <= u && u <= 78 {
        Some((u - 57) as u8)
    } else if 80 <= u && u <= 84 {
        Some((u - 58) as u8)
    } else if 86 <= u && u <= 90 {
        Some((u - 59) as u8)
    } else {
        None
    }
}

/// True of a sequence whose characters are all base32 digits.
pub open spec fn is_b32_seq(s: Seq<char>) -> bool {
    forall|i: int| 0 <= i < s.len() ==> b32_value(#[trigger] s[i]) >= 0
}

/// A well-formed identifier encoding: 26 digits whose leading digit
/// leaves the value below 2^128.
pub open spec fn is_valid_id(s: Seq<char>) -> bool {
    &&& s.len() == ID_LEN
    &&& is_b32_seq(s)
    &&& b32_value(s[0]) <= 7
}

/// The number encoded by a digit sequence, most significant digit first.
pub open spec fn id_value(s: Seq<char>) -> int
    decreases s.len(),
{
    if s.len() == 0 {
        0
    } else {
        32 * id_value(s.drop_last()) + b32_value(s.last())
    }
}

/// The millisecond timestamp carried by an encoded identifier.
pub open spec fn id_timestamp(s: Seq<char>) -> int {
    id_value(s) / (RAND_SPAN as int)
}

/// The randomness carried by an encoded identifier.
pub open spec fn id_random(s: Seq<char>) -> int {
    id_value(s) % (RAND_SPAN as int)
}

/// The 128-bit value built from a timestamp and a randomness, each
/// first reduced to its field's width.
pub open spec fn id_parts_value(ts: int, rand: int) -> int {
    (ts % (TS_SPAN as int)) * (RAND_SPAN as int) + rand % (RAND_SPAN as int)
}

/// The canonical `n`-digit encoding of the low `5 * n` bits of `v`.
pub open spec fn encode_n(v: int, n: nat) -> Seq<char>
    decreases n,
{
    if n == 0 {
        Seq::empty()
    } else {
        encode_n(v / 32, (n - 1) as nat).push(b32_char(v % 32))
    }
}

/// `a` sorts before `b` on the decoded pair: first by timestamp, ties
/// by randomness.
pub open spec fn id_lt(a: Seq<char>, b: Seq<char>) -> bool {
    ||| id_timestamp(a) < id_timestamp(b)
    ||| (id_timestamp(a) == id_timestamp(b) && id_random(a) < id_random(b))
}

/// `a` and `b` decode to the same pair.
pub open spec fn id_eq(a: Seq<char>, b: Seq<char>) -> bool {
    id_timestamp(a) == id_timestamp(b) && id_random(a) == id_random(b)
}

/// A digit sequence encodes a non-negative number.
pub proof fn lemma_id_value_nonneg(s: Seq<char>)
    requires
        is_b32_seq(s),
    ensures
        id_value(s) >= 0,
    decreases s.len(),
{
    if s.len() > 0 {
        assert(is_b32_seq(s.drop_last()));
        lemma_id_value_nonneg(s.drop_last());
    }
}

/// A digit sequence whose leading digit is at most 7 stays below
/// `8 * 2^(5 * (len - 1))`.
pub proof fn lemma_id_value_bound(s: Seq<char>)
    requires
        is_b32_seq(s),
        s.len() >= 1,
        b32_value(s[0]) <= 7,
    ensures
        0 <= id_value(s) < 8 * pow2((5 * (s.len() - 1)) as nat),
    decreases s.len(),
{
    lemma_id_value_nonneg(s);
    if s.len() == 1 {
        assert(s.drop_last().len() == 0);
        assert(id_value(s.drop_last()) == 0);
        assert(s.last() == s[0]);
        assert(id_value(s) == b32_value(s[0]));
        lemma2_to64();
    } else {
        let t = s.drop_last();
        assert(is_b32_seq(t));
        assert(t[0] == s[0]);
        lemma_id_value_bound(t);
        let k = (5 * (t.len() - 1)) as nat;
        lemma_pow2_adds(k, 5);
        lemma2_to64();
        assert(pow2(k + 5) == pow2(k) * 32);
        assert(b32_value(s.last()) <= 31);
        assert(id_value(s) == 32 * id_value(t) + b32_value(s.last()));
        assert(32 * id_value(t) <= 32 * (8 * pow2(k) - 1)) by (nonlinear_arith)
            requires
                id_value(t) <= 8 * pow2(k) - 1,
        ;
        assert(8 * (pow2(k) * 32) == 32 * (8 * pow2(k)));
    }
}

/// Reading one more digit multiplies the prefix value by 32 and adds
/// the digit.
pub proof fn lemma_id_value_take_step(s: Seq<char>, i: int)
    requires
        0 <= i < s.len(),
    ensures
        id_value(s.take(i + 1)) == 32 * id_value(s.take(i)) + b32_value(s[i]),
{
    assert(s.take(i + 1).drop_last() =~= s.take(i));
    assert(s.take(i + 1).last() == s[i]);
}

/// The canonical encoding of `v` is made of digits and decodes back to
/// `v`, as long as `v` fits in the encoded width.
pub proof fn lemma_encode_n_decodes(v: int, n: nat)
    requires
        0 <= v < pow2(5 * n),
    ensures
        encode_n(v, n).len() == n,
        is_b32_seq(encode_n(v, n)),
        id_value(encode_n(v, n)) == v,
    decreases n,
{
    if n == 0 {
        lemma2_to64();
        assert(pow2(0) == 1);
    } else {
        let s = encode_n(v, n);
        lemma_pow2_adds(5 * (n - 1) as nat, 5);
        lemma2_to64();
        assert(pow2(5 * n) == pow2(5 * (n - 1) as nat) * 32);
        assert(0 <= v / 32 < pow2(5 * (n - 1) as nat)) by (nonlinear_arith)
            requires
                0 <= v < pow2(5 * (n - 1) as nat) * 32,
        ;
        lemma_encode_n_decodes(v / 32, (n - 1) as nat);
        assert(0 <= v % 32 < 32) by {
            lemma_mod_division_less_than_divisor(v, 32);
            lemma_remainder_lower(v, 32);
        }
        lemma_b32_round_trip(v % 32);
        assert(s.drop_last() =~= encode_n(v / 32, (n - 1) as nat));
        assert(s.last() == b32_char(v % 32));
        assert(b32_value(s.last()) == v % 32);
        lemma_fundamental_div_mod(v, 32);
        assert forall|i: int| 0 <= i < s.len() implies b32_value(#[trigger] s[i]) >= 0 by {
            if i < n - 1 {
                assert(s[i] == encode_n(v / 32, (n - 1) as nat)[i]);
            } else {
                assert(s[i] == s.last());
            }
        }
    }
}

/// When the value stays below `2^(5n - 2)`, the canonical encoding's
/// leading digit is at most 7.
pub proof fn lemma_encode_n_leading(v: int, n: nat)
    requires
        n >= 1,
        0 <= v < 8 * pow2(5 * (n - 1) as nat),
    ensures
        b32_value(encode_n(v, n)[0]) <= 7,
    decreases n,
{
    let s = encode_n(v, n);
    if n == 1 {
        lemma2_to64();
        assert(pow2(0) == 1);
        lemma_small_mod(v as nat, 32);
        lemma_b32_round_trip(v % 32);
        assert(encode_n(v / 32, 0).len() == 0);
        assert(s =~= Seq::<char>::empty().push(b32_char(v % 32)));
        assert(s[0] == b32_char(v % 32));
    } else {
        lemma_pow2_adds(5 * (n - 2) as nat, 5);
        lemma2_to64();
        assert(pow2(5 * (n - 1) as nat) == pow2(5 * (n - 2) as nat) * 32);
        assert(0 <= v / 32 < 8 * pow2(5 * (n - 2) as nat)) by (nonlinear_arith)
            requires
                0 <= v < 8 * (pow2(5 * (n - 2) as nat) * 32),
        ;
        lemma_encode_n_leading(v / 32, (n - 1) as nat);
        assert(encode_n(v / 32, (n - 1) as nat).len() == (n - 1) as nat) by {
            lemma_encode_n_len(v / 32, (n - 1) as nat);
        }
        assert(s[0] == encode_n(v / 32, (n - 1) as nat)[0]);
    }
}

/// The canonical encoding has exactly `n` digits.
pub proof fn lemma_encode_n_len(v: int, n: nat)
    ensures
        encode_n(v, n).len() == n,
    decreases n,
{
    if n > 0 {
        lemma_encode_n_len(v / 32, (n - 1) as nat);
    }
}

/// A fresh identifier's string form reads back to the timestamp and
/// randomness it was built from: encoding then decoding is the
/// identity on the two fields, once each is reduced to its width.
pub proof fn lemma_id_round_trip(ts: u64, rand: u128)
    ensures
        ({
            let s = encode_n(id_parts_value(ts as int, rand as int), ID_LEN as nat);
            &&& is_valid_id(s)
            &&& id_timestamp(s) == ts as int % TS_SPAN as int
            &&& id_random(s) == rand as int % RAND_SPAN as int
        }),
{
    let t = ts as int % TS_SPAN as int;
    let x = rand as int % RAND_SPAN as int;
    let v = id_parts_value(ts as int, rand as int);
    let s = encode_n(v, ID_LEN as nat);
    lemma_id_pow2_constants();
    lemma_mod_division_less_than_divisor(ts as int, TS_SPAN as int);
    lemma_mod_division_less_than_divisor(rand as int, RAND_SPAN as int);
    assert(v < pow2(128)) by (nonlinear_arith)
        requires
            v == t * RAND_SPAN + x,
            0 <= t < TS_SPAN,
            0 <= x < RAND_SPAN,
            pow2(128) == TS_SPAN as int * RAND_SPAN as int,
    ;
    lemma_pow2_strictly_increases(128, 130);
    lemma_encode_n_decodes(v, ID_LEN as nat);
    lemma_encode_n_len(v, ID_LEN as nat);
    lemma_encode_n_leading(v, ID_LEN as nat);
    lemma_fundamental_div_mod_converse(v, RAND_SPAN as int, t, x);
}

/// `a` sorts before `b` as text: the two agree up to some position,
/// where `a` holds the character with the smaller code.
pub open spec fn lex_lt(a: Seq<char>, b: Seq<char>) -> bool {
    exists|i: int|
        0 <= i < a.len() && i < b.len() && (forall|j: int| 0 <= j < i ==> a[j] == b[j]) && (
        #[trigger] (a[i]) as int) < (b[i] as int)
}

/// The canonical digits carry ascending character codes.
proof fn lemma_b32_char_increases(x: int, y: int)
    requires
        0 <= x < y < 32,
    ensures
        (b32_char(x) as int) < (b32_char(y) as int),
{
}

/// Writing a smaller value gives the lexicographically smaller
/// canonical text: with the digits fixed at `n`, text order is value
/// order.  Together with the pair-order law this makes the string
/// form of fresh identifiers time-sortable.
pub proof fn lemma_encode_order(v1: int, v2: int, n: nat)
    requires
        0 <= v1 < v2 < pow2(5 * n),
    ensures
        lex_lt(encode_n(v1, n), encode_n(v2, n)),
    decreases n,
{
    lemma_encode_n_len(v1, n);
    lemma_encode_n_len(v2, n);
    if n == 0 {
        lemma2_to64();
        assert(pow2(0) == 1);
        assert(false);
    } else {
        let a = encode_n(v1, n);
        let b = encode_n(v2, n);
        let pa = encode_n(v1 / 32, (n - 1) as nat);
        let pb = encode_n(v2 / 32, (n - 1) as nat);
        lemma_encode_n_len(v1 / 32, (n - 1) as nat);
        lemma_encode_n_len(v2 / 32, (n - 1) as nat);
        lemma_div_is_ordered(v1, v2, 32);
        lemma_fundamental_div_mod(v1, 32);
        lemma_fundamental_div_mod(v2, 32);
        lemma_mod_division_less_than_divisor(v1, 32);
        lemma_mod_division_less_than_divisor(v2, 32);
        if v1 / 32 == v2 / 32 {
            assert(v1 % 32 < v2 % 32);
            lemma_b32_char_increases(v1 % 32, v2 % 32);
            let w = n - 1;
            assert(forall|j: int| 0 <= j < w ==> a[j] == b[j]) by {
                assert(forall|j: int| 0 <= j < w ==> a[j] == pa[j] && b[j] == pb[j]);
            }
            assert((a[w] as int) < (b[w] as int));
        } else {
            lemma_pow2_adds(5 * (n - 1) as nat, 5);
            lemma2_to64();
            assert(pow2(5 * n) == pow2(5 * (n - 1) as nat) * 32);
            assert(0 <= v2 / 32 < pow2(5 * (n - 1) as nat)) by (nonlinear_arith)
                requires
                    0 <= v2 < pow2(5 * (n - 1) as nat) * 32,
            ;
            lemma_encode_order(v1 / 32, v2 / 32, (n - 1) as nat);
            let w = choose|w: int|
                0 <= w < pa.len() && w < pb.len() && (forall|j: int| 0 <= j < w ==> pa[j] == pb[j])
                    && (#[trigger] (pa[w]) as int) < (pb[w] as int);
            assert(a[w] == pa[w]);
            assert(b[w] == pb[w]);
            assert(forall|j: int| 0 <= j < w ==> a[j] == b[j]) by {
                assert(forall|j: int| 0 <= j < w ==> a[j] == pa[j] && b[j] == pb[j]);
            }
            assert((a[w] as int) < (b[w] as int));
        }
    }
}

/// The order of the decoded pairs is the order of the 128-bit values.
pub proof fn lemma_pair_order_is_value_order(a: Seq<char>, b: Seq<char>)
    ensures
        id_lt(a, b) <==> id_value(a) < id_value(b),
        id_eq(a, b) <==> id_value(a) == id_value(b),
{
    let p = RAND_SPAN as int;
    lemma_fundamental_div_mod(id_value(a), p);
    lemma_fundamental_div_mod(id_value(b), p);
    lemma_mod_division_less_than_divisor(id_value(a), p);
    lemma_mod_division_less_than_divisor(id_value(b), p);
    assert(id_lt(a, b) ==> id_value(a) < id_value(b)) by (nonlinear_arith)
        requires
            id_value(a) == p * id_timestamp(a) + id_random(a),
            id_value(b) == p * id_timestamp(b) + id_random(b),
            0 <= id_random(a) < p,
            0 <= id_random(b) < p,
            id_lt(a, b) <==> (id_timestamp(a) < id_timestamp(b) || (id_timestamp(a)
                == id_timestamp(b) && id_random(a) < id_random(b))),
    ;
    assert(id_value(a) < id_value(b) ==> id_lt(a, b)) by (nonlinear_arith)
        requires
            id_value(a) == p * id_timestamp(a) + id_random(a),
            id_value(b) == p * id_timestamp(b) + id_random(b),
            0 <= id_random(a) < p,
            0 <= id_random(b) < p,
            id_lt(a, b) <==> (id_timestamp(a) < id_timestamp(b) || (id_timestamp(a)
                == id_timestamp(b) && id_random(a) < id_random(b))),
    ;
}

/// The concrete values of the powers of two that the identifier
/// arithmetic turns on.
proof fn lemma_id_pow2_constants()
    ensures
        pow2(48) == TS_SPAN,
        pow2(80) == RAND_SPAN,
        pow2(120) == 0x1000000000000000000000000000000,
        pow2(123) == 0x8000000000000000000000000000000,
        pow2(125) == 0x20000000000000000000000000000000,
        pow2(128) == 0x100000000000000000000000000000000,
        pow2(130) == 0x400000000000000000000000000000000,
{
    lemma2_to64();
    lemma2_to64_rest();
    lemma_pow2_adds(64, 16);
    lemma_pow2_adds(64, 56);
    lemma_pow2_adds(64, 59);
    lemma_pow2_adds(64, 61);
    lemma_pow2_adds(64, 64);
    lemma_pow2_adds(128, 2);
}

/// Powers of 32 are powers of two: `32^n == 2^(5n)`.
proof fn lemma_pow32_is_pow2(n: nat)
    ensures
        pow(32, n) == pow2(5 * n),
    decreases n,
{
    if n == 0 {
        lemma_pow0(32);
        lemma2_to64();
    } else {
        lemma_pow32_is_pow2((n - 1) as nat);
        lemma_pow2_adds(5, 5 * (n - 1) as nat);
        lemma2_to64();
        assert(pow(32, n) == 32 * pow(32, (n - 1) as nat)) by {
            reveal(pow);
        }
    }
}

/// Digit `i` of the canonical encoding, read off the value directly.
proof fn lemma_encode_n_index(v: int, n: nat, i: int)
    requires
        0 <= v,
        0 <= i < n,
    ensures
        encode_n(v, n)[i] == b32_char((v / pow(32, (n - 1 - i) as nat)) % 32),
    decreases n,
{
    let s = encode_n(v, n);
    lemma_encode_n_len(v, n);
    lemma_encode_n_len(v / 32, (n - 1) as nat);
    if i == n - 1 {
        lemma_pow0(32);
        assert(s[i] == s.last());
        assert(v / 1 == v) by {
            lemma_div_by_self(1);
            lemma_div_basics(v);
        }
    } else {
        lemma_pow_positive(32, (n - 2 - i) as nat);
        lemma_div_pos_is_pos(v, 32);
        lemma_encode_n_index(v / 32, (n - 1) as nat, i);
        assert(s[i] == encode_n(v / 32, (n - 1) as nat)[i]);
        lemma_div_denominator(v, 32, pow(32, (n - 2 - i) as nat));
        assert(32 * pow(32, (n - 2 - i) as nat) == pow(32, (n - 1 - i) as nat)) by {
            reveal(pow);
        }
    }
}

/// A one-character string slice holding a given canonical digit.
fn b32_str_of(v: u8) -> (r: &'static str)
    requires
        v < 32,
    ensures
        r@ == seq![b32_char(v as int)],
{
    proof {
        reveal_strlit("0");
        reveal_strlit("1");
        reveal_strlit("2");
        reveal_strlit("3");
        reveal_strlit("4");
        reveal_strlit("5");
        reveal_strlit("6");
        reveal_strlit("7");
        reveal_strlit("8");
        reveal_strlit("9");
        reveal_strlit("A");
        reveal_strlit("B");
        reveal_strlit("C");
        reveal_strlit("D");
        reveal_strlit("E");
        reveal_strlit("F");
        reveal_strlit("G");
        reveal_strlit("H");
        reveal_strlit("J");
        reveal_strlit("K");
        reveal_strlit("M");
        reveal_strlit("N");
        reveal_strlit("P");
        reveal_strlit("Q");
        reveal_strlit("R");
        reveal_strlit("S");
        reveal_strlit("T");
        reveal_strlit("V");
        reveal_strlit("W");
        reveal_strlit("X");
        reveal_strlit("Y");
        reveal_strlit("Z");
    }
    match v {
        0 => "0", 1 => "1", 2 => "2", 3 => "3", 4 => "4", 5 => "5",
        6 => "6", 7 => "7", 8 => "8", 9 => "9", 10 => "A", 11 => "B",
        12 => "C", 13 => "D", 14 => "E", 15 => "F", 16 => "G", 17 => "H",
        18 => "J", 19 => "K", 20 => "M", 21 => "N", 22 => "P", 23 => "Q",
        24 => "R", 25 => "S", 26 => "T", 27 => "V", 28 => "W", 29 => "X",
        30 => "Y", _ => "Z",
    }
}

/// Decode a string to the identifier's 128-bit value, or nothing if it
/// is not a well-formed encoding.
pub fn decode_id_str(s: &str) -> (r: Option<u128>)
    ensures
        r is Some <==> is_valid_id(s@),
        r matches Some(v) ==> v as int == id_value(s@),
{
    let n = s.unicode_len();
    if n != ID_LEN {
        return None;
    }
    let mut acc: u128 = 0;
    let mut i: usize = 0;
    while i < ID_LEN
        invariant
            0 <= i <= ID_LEN,
            s@.len() == ID_LEN,
            is_b32_seq(s@.take(i as int)),
            i >= 1 ==> b32_value(s@[0]) <= 7,
            acc as int == id_value(s@.take(i as int)),
            i >= 1 ==> acc < 8 * pow2((5 * (i - 1)) as nat),
        decreases ID_LEN - i,
    {
        let c = s.get_char(i);
        let d = match b32_value_of(c) {
            Some(d) => d,
            None => {
                return None;
            },
        };
        if i == 0 && d > 7 {
            return None;
        }
        proof {
            lemma_id_pow2_constants();
            assert(s@.take(i as int + 1) =~= s@.take(i as int).push(s@[i as int]));
            lemma_id_value_take_step(s@, i as int);
            if i >= 1 {
                lemma_pow2_adds((5 * (i - 1)) as nat, 3);
                lemma2_to64();
                if 5 * (i - 1) + 3 < 123 {
                    lemma_pow2_strictly_increases((5 * (i - 1) + 3) as nat, 123);
                }
                assert(acc < pow2(123));
                lemma_pow2_adds(123, 5);
            }
            lemma_id_value_bound(s@.take(i as int + 1));
        }
        acc = acc * 32 + (d as u128);
        i = i + 1;
    }
    proof {
        assert(s@.take(ID_LEN as int) =~= s@);
    }
    Some(acc)
}

/// A time-sortable snapshot identifier, carried as its string form.
///
/// Equality goes through the decoded value: two well-formed encodings
/// are equal exactly when they decode to the same pair, whatever case
/// their letters are written in.
#[derive(Debug)]
pub struct SnapshotId {
    pub id: String,
}

impl Clone for SnapshotId {
    fn clone(&self) -> (r: Self)
        ensures
            r == *self,
    {
        SnapshotId { id: self.id.clone() }
    }
}

impl View for SnapshotId {
    type V = Seq<char>;

    open spec fn view(&self) -> Seq<char> {
        self.id@
    }
}

/// What `==` means on identifiers: decoded equality between two
/// well-formed encodings, raw equality otherwise.
pub open spec fn id_eq_total(a: Seq<char>, b: Seq<char>) -> bool {
    if is_valid_id(a) && is_valid_id(b) {
        id_eq(a, b)
    } else {
        a == b
    }
}

impl PartialEq for SnapshotId {
    fn eq(&self, other: &SnapshotId) -> (r: bool) {
        let va = decode_id_str(self.id.as_str());
        let vb = decode_id_str(other.id.as_str());
        match (va, vb) {
            (Some(x), Some(y)) => {
                proof {
                    lemma_pair_order_is_value_order(self@, other@);
                }
                x == y
            },
            (Some(_), None) => false,
            (None, Some(_)) => false,
            (None, None) => self.id.eq(&other.id),
        }
    }
}

impl vstd::std_specs::cmp::PartialEqSpecImpl for SnapshotId {
    open spec fn obeys_eq_spec() -> bool {
        true
    }

    open spec fn eq_spec(&self, other: &SnapshotId) -> bool {
        id_eq_total(self@, other@)
    }
}

impl SnapshotId {
    /// Build the identifier for a timestamp and a randomness, reducing
    /// each to its field's width, in the canonical digits.
    pub fn from_parts(timestamp_ms: u64, random: u128) -> (r: SnapshotId)
        ensures
            r@ == encode_n(id_parts_value(timestamp_ms as int, random as int), ID_LEN as nat),
            is_valid_id(r@),
            id_timestamp(r@) == timestamp_ms as int % TS_SPAN as int,
            id_random(r@) == random as int % RAND_SPAN as int,
    {
        let ts = timestamp_ms % TS_SPAN;
        let rnd = random % RAND_SPAN;
        let value: u128 = (ts as u128) * RAND_SPAN + rnd;
        let ghost gv = value as int;
        proof {
            lemma_id_pow2_constants();
            assert(gv == id_parts_value(timestamp_ms as int, random as int));
            lemma_pow2_strictly_increases(128, 130);
            lemma_encode_n_decodes(gv, ID_LEN as nat);
            lemma_encode_n_len(gv, ID_LEN as nat);
            lemma_encode_n_leading(gv, ID_LEN as nat);
            lemma_fundamental_div_mod_converse(gv, RAND_SPAN as int, ts as int, rnd as int);
        }
        let mut out = String::new();
        let mut divisor: u128 = 0x20000000000000000000000000000000;
        proof {
            lemma_pow32_is_pow2(25);
            lemma_id_pow2_constants();
        }
        let mut i: usize = 0;
        while i < ID_LEN
            invariant
                0 <= i <= ID_LEN,
                out@ == encode_n(gv, ID_LEN as nat).take(i as int),
                i < ID_LEN ==> divisor as int == pow(32, (ID_LEN - 1 - i) as nat),
                gv == value,
                0 <= gv,
                encode_n(gv, ID_LEN as nat).len() == ID_LEN,
                is_b32_seq(encode_n(gv, ID_LEN as nat)),
            decreases ID_LEN - i,
        {
            proof {
                lemma_pow_positive(32, (ID_LEN - 1 - i) as nat);
            }
            let d = ((value / divisor) % 32) as u8;
            proof {
                lemma_encode_n_index(gv, ID_LEN as nat, i as int);
                assert(encode_n(gv, ID_LEN as nat)[i as int] == b32_char(d as int));
            }
            let piece = b32_str_of(d);
            out.append(piece);
            proof {
                assert(encode_n(gv, ID_LEN as nat).take(i + 1) =~= encode_n(
                    gv,
                    ID_LEN as nat,
                ).take(i as int).push(encode_n(gv, ID_LEN as nat)[i as int]));
            }
            if i < ID_LEN - 1 {
                divisor = divisor / 32;
                proof {
                    assert(pow(32, (ID_LEN - 1 - i) as nat) == 32 * pow(
                        32,
                        (ID_LEN - 2 - i) as nat,
                    )) by {
                        reveal(pow);
                    }
                    lemma_pow_positive(32, (ID_LEN - 2 - i) as nat);
                    lemma_div_multiples_vanish(pow(32, (ID_LEN - 2 - i) as nat), 32);
                }
            }
            i = i + 1;
        }
        proof {
            assert(encode_n(gv, ID_LEN as nat).take(ID_LEN as int) =~= encode_n(
                gv,
                ID_LEN as nat,
            ));
        }
        SnapshotId { id: out }
    }

    /// Read an identifier back from its string form; a string that is
    /// no well-formed encoding is rejected.
    pub fn parse(s: &str) -> (r: Result<SnapshotId, Error>)
        ensures
            r is Ok <==> is_valid_id(s@),
            r matches Ok(id) ==> id@ == s@,
            r matches Err(e) ==> e == Error::MalformedId,
    {
        match decode_id_str(s) {
            Some(_) => Ok(SnapshotId { id: s.to_owned() }),
            None => Err(Error::MalformedId),
        }
    }

    /// The identifier's string form.
    pub fn to_string(&self) -> (r: String)
        ensures
            r@ == self@,
    {
        self.id.clone()
    }

    /// The millisecond timestamp packed into this identifier.
    pub fn timestamp_ms(&self) -> (t: u64)
        requires
            is_valid_id(self@),
        ensures
            t as int == id_timestamp(self@),
    {
        let v = decode_id_str(self.id.as_str()).unwrap();
        proof {
            lemma_id_pow2_constants();
            lemma_id_value_bound(self@);
            lemma_pow2_adds(125, 3);
            assert(8 * pow2(125) == pow2(128));
            lemma_multiply_divide_lt(v as int, RAND_SPAN as int, TS_SPAN as int);
        }
        (v / RAND_SPAN) as u64
    }

    /// The randomness packed into this identifier.
    pub fn random(&self) -> (x: u128)
        requires
            is_valid_id(self@),
        ensures
            x as int == id_random(self@),
    {
        let v = decode_id_str(self.id.as_str()).unwrap();
        v % RAND_SPAN
    }

    /// Order two identifiers by their decoded pairs: timestamp first,
    /// ties broken by randomness.  The raw strings are never compared.
    pub fn compare(&self, other: &SnapshotId) -> (o: core::cmp::Ordering)
        requires
            is_valid_id(self@),
            is_valid_id(other@),
        ensures
            (o == core::cmp::Ordering::Less <==> id_lt(self@, other@)),
            (o == core::cmp::Ordering::Equal <==> id_eq(self@, other@)),
            (o == core::cmp::Ordering::Greater <==> id_lt(other@, self@)),
    {
        let va = decode_id_str(self.id.as_str()).unwrap();
        let vb = decode_id_str(other.id.as_str()).unwrap();
        let ta = va / RAND_SPAN;
        let tb = vb / RAND_SPAN;
        let ra = va % RAND_SPAN;
        let rb = vb % RAND_SPAN;
        if ta < tb {
            core::cmp::Ordering::Less
        } else if ta > tb {
            core::cmp::Ordering::Greater
        } else if ra < rb {
            core::cmp::Ordering::Less
        } else if ra > rb {
            core::cmp::Ordering::Greater
        } else {
            core::cmp::Ordering::Equal
        }
    }
}

} // verus!
