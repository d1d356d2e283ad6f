//! The snapshot codec: the whole index as one byte blob, and back. Every
//! number is written little end first in base 256; lists carry their length
//! ahead of their elements; characters are written as their scalar values.
//! Decoding is strict: a blob that decodes is exactly the encoding of what
//! it decodes to.

use vstd::prelude::*;

use vstd::arithmetic::div_mod::{lemma_fundamental_div_mod, lemma_fundamental_div_mod_converse};

use crate::grid::{Cell, CellV, Grid, GridV};
use crate::road_class::Highway;
use crate::way::{Node, NodeV, Way, WayV};

verus! {

broadcast use vstd::utf8::char_is_scalar, vstd::utf8::char_u32_cast;

/// Relies on char::from_u32: a Unicode scalar value comes back as the
/// character with that value, anything else as nothing.
#[verifier::external_body]
fn char_from_u32(u: u32) -> (r: Option<char>)
    ensures
        r matches Some(c) ==> c as u32 == u,
        r is Some <==> vstd::utf8::is_scalar(u),
{
    char::from_u32(u)
}

/// Relies on String::push: appends one character at the end of the string.
#[verifier::external_body]
fn string_push(s: &mut String, c: char)
    ensures
        final(s)@ == old(s)@.push(c),
{
    s.push(c);
}

/// The `n`-th power of 256: the count of byte strings of length `n`.
pub open spec fn pow256(n: nat) -> int
    decreases n,
{
    if n == 0 {
        1
    } else {
        256 * pow256((n - 1) as nat)
    }
}

/// The powers of 256 that fixed-width fields use.
pub proof fn lemma_pow256_values()
    ensures
        pow256(4) == 0x1_0000_0000,
        pow256(8) == 0x1_0000_0000_0000_0000,
{
    assert(pow256(0) == 1);
    assert(pow256(1) == 256);
    assert(pow256(2) == 0x1_0000);
    assert(pow256(3) == 0x100_0000);
    assert(pow256(4) == 0x1_0000_0000);
    assert(pow256(5) == 0x100_0000_0000);
    assert(pow256(6) == 0x1_0000_0000_0000);
    assert(pow256(7) == 0x100_0000_0000_0000);
    assert(pow256(8) == 0x1_0000_0000_0000_0000);
}

/// The `n` bytes of a nonnegative number below `pow256(n)`, little end first.
pub open spec fn enc_nat(x: int, n: nat) -> Seq<u8>
    decreases n,
{
    if n == 0 {
        Seq::empty()
    } else {
        seq![(x % 256) as u8] + enc_nat(x / 256, (n - 1) as nat)
    }
}

/// The number that the first `n` bytes of `s` carry.
pub open spec fn dec_nat(s: Seq<u8>, n: nat) -> int
    decreases n,
{
    if n == 0 {
        0
    } else {
        s[0] + 256 * dec_nat(s.skip(1), (n - 1) as nat)
    }
}

pub proof fn lemma_enc_nat_len(x: int, n: nat)
    ensures
        enc_nat(x, n).len() == n,
    decreases n,
{
    if n > 0 {
        lemma_enc_nat_len(x / 256, (n - 1) as nat);
    }
}

/// The number carried by `n` in-range bytes lies below `pow256(n)`.
pub proof fn lemma_dec_nat_bound(s: Seq<u8>, n: nat)
    requires
        n <= s.len(),
    ensures
        0 <= dec_nat(s, n) < pow256(n),
    decreases n,
{
    if n > 0 {
        lemma_dec_nat_bound(s.skip(1), (n - 1) as nat);
    }
}

/// Two byte strings that agree on their first `n` bytes carry one number.
pub proof fn lemma_dec_nat_eq(s: Seq<u8>, t: Seq<u8>, n: nat)
    requires
        n <= s.len(),
        n <= t.len(),
        forall|i: int| 0 <= i < n ==> s[i] == t[i],
    ensures
        dec_nat(s, n) == dec_nat(t, n),
    decreases n,
{
    if n > 0 {
        assert(s[0] == t[0]);
        assert(forall|i: int| 0 <= i < n - 1 ==> s.skip(1)[i] == t.skip(1)[i]);
        lemma_dec_nat_eq(s.skip(1), t.skip(1), (n - 1) as nat);
    }
}

/// Reading back the bytes of a number yields the number.
pub proof fn lemma_dec_enc_nat(x: int, n: nat)
    requires
        0 <= x < pow256(n),
    ensures
        dec_nat(enc_nat(x, n), n) == x,
    decreases n,
{
    if n > 0 {
        let b = enc_nat(x, n);
        assert(0 <= x % 256 < 256);
        assert(b[0] == (x % 256) as u8);
        assert(b.skip(1) =~= enc_nat(x / 256, (n - 1) as nat));
        assert(0 <= x / 256 < pow256((n - 1) as nat)) by (nonlinear_arith)
            requires
                0 <= x < pow256(n),
                pow256(n) == 256 * pow256((n - 1) as nat),
        ;
        lemma_dec_enc_nat(x / 256, (n - 1) as nat);
        lemma_fundamental_div_mod(x, 256);
    }
}

/// Writing back the number carried by `n` bytes yields those bytes.
pub proof fn lemma_enc_dec_nat(s: Seq<u8>, n: nat)
    requires
        n <= s.len(),
    ensures
        enc_nat(dec_nat(s, n), n) == s.take(n as int),
    decreases n,
{
    if n == 0 {
        assert(enc_nat(dec_nat(s, n), n) =~= s.take(0));
    } else {
        let x = dec_nat(s, n);
        let d = dec_nat(s.skip(1), (n - 1) as nat);
        lemma_dec_nat_bound(s.skip(1), (n - 1) as nat);
        assert(x == d * 256 + s[0]);
        lemma_fundamental_div_mod_converse(x, 256, d, s[0] as int);
        assert(x % 256 == s[0] as int);
        assert(x / 256 == d);
        lemma_enc_dec_nat(s.skip(1), (n - 1) as nat);
        assert(enc_nat(x, n) =~= seq![(x % 256) as u8] + enc_nat(d, (n - 1) as nat));
        assert(s.skip(1).take(n - 1) =~= s.take(n as int).skip(1));
        assert(enc_nat(x, n) =~= s.take(n as int));
    }
}

/// Appends the `n` bytes of `x`, little end first.
#[verifier::loop_isolation(false)]
fn push_nat(out: &mut Vec<u8>, x: u64, n: usize)
    requires
        (x as int) < pow256(n as nat),
    ensures
        final(out)@ == old(out)@ + enc_nat(x as int, n as nat),
{
    let mut y: u64 = x;
    let mut i: usize = 0;
    while i < n
        invariant
            0 <= i <= n,
            (y as int) < pow256((n - i) as nat),
            old(out)@ + enc_nat(x as int, n as nat) =~= out@ + enc_nat(y as int, (n - i) as nat),
        decreases n - i,
    {
        let ghost y0 = y as int;
        let ghost out0 = out@;
        let b: u8 = (y % 256) as u8;
        out.push(b);
        proof {
            assert(enc_nat(y0, (n - i) as nat) =~= seq![b] + enc_nat(
                y0 / 256,
                (n - i - 1) as nat,
            ));
            assert(out0 + enc_nat(y0, (n - i) as nat) =~= out@ + enc_nat(
                y0 / 256,
                (n - i - 1) as nat,
            ));
            assert(0 <= y0 / 256 < pow256((n - i - 1) as nat)) by (nonlinear_arith)
                requires
                    0 <= y0 < pow256((n - i) as nat),
                    pow256((n - i) as nat) == 256 * pow256((n - i - 1) as nat),
            ;
        }
        y = y / 256;
        i = i + 1;
    }
    assert(enc_nat(y as int, 0) =~= Seq::<u8>::empty());
    assert(out@ + Seq::<u8>::empty() =~= out@);
}

/// Reads the number carried by the `n` bytes at `pos`, where they exist.
#[verifier::loop_isolation(false)]
fn read_nat(data: &Vec<u8>, pos: usize, n: usize) -> (r: Option<(u64, usize)>)
    requires
        1 <= n <= 8,
        pos <= data@.len(),
    ensures
        match r {
            Some(v) => v.1 == pos + n && pos + n <= data@.len() && (v.0 as int) == dec_nat(
                data@.skip(pos as int),
                n as nat,
            ),
            None => pos + n > data@.len(),
        },
{
    if data.len() - pos < n {
        return None;
    }
    proof {
        lemma_pow256_values();
        lemma_dec_nat_bound(data@.skip(pos as int), n as nat);
    }
    let ghost tail = data@.skip(pos as int);
    let mut v: u64 = 0;
    let mut i: usize = n;
    while i > 0
        invariant
            0 <= i <= n,
            pos + n <= data@.len(),
            (v as int) == dec_nat(tail.skip(i as int), (n - i) as nat),
            (v as int) < pow256((n - i) as nat),
        decreases i,
    {
        i = i - 1;
        let b: u8 = data[pos + i];
        proof {
            assert(tail.skip(i as int)[0] == data@[pos as int + i as int]);
            assert(tail.skip(i as int).skip(1) =~= tail.skip(i as int + 1));
            assert(dec_nat(tail.skip(i as int), (n - i) as nat) == b + 256 * dec_nat(
                tail.skip(i as int + 1),
                (n - i - 1) as nat,
            ));
            assert(pow256((n - i) as nat) == 256 * pow256((n - i - 1) as nat));
            assert(256 * (v as int) + b < pow256((n - i) as nat)) by (nonlinear_arith)
                requires
                    (v as int) < pow256((n - i - 1) as nat),
                    b < 256,
                    pow256((n - i) as nat) == 256 * pow256((n - i - 1) as nat),
            ;
            assert(pow256((n - i) as nat) <= pow256(8)) by {
                lemma_pow256_monotone((n - i) as nat, 8);
            }
        }
        v = v * 256 + (b as u64);
    }
    assert(tail.skip(0) =~= tail);
    Some((v, pos + n))
}

/// A longer byte string never counts fewer values.
pub proof fn lemma_pow256_monotone(a: nat, b: nat)
    requires
        a <= b,
    ensures
        pow256(a) <= pow256(b),
    decreases b,
{
    if a < b {
        lemma_pow256_monotone(a, (b - 1) as nat);
        assert(pow256((b - 1) as nat) >= 1) by {
            lemma_pow256_pos((b - 1) as nat);
        }
    }
}

/// Every power of 256 is positive.
pub proof fn lemma_pow256_pos(n: nat)
    ensures
        pow256(n) >= 1,
    decreases n,
{
    if n > 0 {
        lemma_pow256_pos((n - 1) as nat);
    }
}

/// The magnitude of a signed number.
pub open spec fn mag_of(x: i64) -> int {
    if x >= 0 {
        x as int
    } else {
        -(x as int)
    }
}

/// Nine bytes of a signed number: a sign byte, then the magnitude.
pub open spec fn enc_i64(x: i64) -> Seq<u8> {
    seq![
        (if x >= 0 {
            0u8
        } else {
            1u8
        }),
    ] + enc_nat(mag_of(x), 8)
}

/// The signed number at the head of `s`, where its nine bytes are canonical.
pub open spec fn dec_i64(s: Seq<u8>) -> Option<(i64, int)> {
    if s.len() < 9 {
        None
    } else {
        let sign = s[0];
        let mag = dec_nat(s.skip(1), 8);
        if sign == 0 && mag <= i64::MAX as int {
            Some((mag as i64, 9))
        } else if sign == 1 && 1 <= mag && mag <= 0x8000_0000_0000_0000 {
            Some(((-mag) as i64, 9))
        } else {
            None
        }
    }
}

pub proof fn lemma_enc_i64_len(x: i64)
    ensures
        enc_i64(x).len() == 9,
{
    lemma_enc_nat_len(mag_of(x), 8);
}

/// Reading back the bytes of a signed number yields the number.
pub proof fn lemma_dec_enc_i64(x: i64, rest: Seq<u8>)
    ensures
        dec_i64(enc_i64(x) + rest) == Some((x, 9int)),
{
    lemma_pow256_values();
    lemma_enc_nat_len(mag_of(x), 8);
    let s = enc_i64(x) + rest;
    assert(s.len() >= 9);
    assert(s[0] == (if x >= 0 {
        0u8
    } else {
        1u8
    }));
    assert(forall|i: int| 0 <= i < 8 ==> s.skip(1)[i] == enc_nat(mag_of(x), 8)[i]);
    lemma_dec_nat_eq(s.skip(1), enc_nat(mag_of(x), 8), 8);
    lemma_dec_enc_nat(mag_of(x), 8);
    assert(dec_nat(s.skip(1), 8) == mag_of(x));
}

/// Writing back the signed number at the head of `s` yields its nine bytes.
pub proof fn lemma_enc_dec_i64(s: Seq<u8>)
    ensures
        dec_i64(s) matches Some(v) ==> v.1 == 9 && s.take(9) == enc_i64(v.0),
{
    if dec_i64(s) is Some {
        let v = dec_i64(s).unwrap();
        let sign = s[0];
        let mag = dec_nat(s.skip(1), 8);
        lemma_dec_nat_bound(s.skip(1), 8);
        lemma_enc_dec_nat(s.skip(1), 8);
        assert(mag_of(v.0) == mag);
        assert(enc_nat(mag_of(v.0), 8) == s.skip(1).take(8));
        assert(s.skip(1).take(8) =~= s.take(9).skip(1));
        assert(s.take(9)[0] == sign);
        assert(enc_i64(v.0) =~= s.take(9));
    }
}

/// Appends the nine bytes of a signed number.
fn push_i64(out: &mut Vec<u8>, x: i64)
    ensures
        final(out)@ == old(out)@ + enc_i64(x),
{
    proof {
        lemma_pow256_values();
    }
    let ghost out0 = out@;
    if x >= 0 {
        out.push(0u8);
        push_nat(out, x as u64, 8);
    } else {
        out.push(1u8);
        let mag: u64 = (-(x as i128)) as u64;
        assert(mag as int == mag_of(x));
        push_nat(out, mag, 8);
    }
    assert(out@ =~= out0 + enc_i64(x));
}

/// Reads the signed number at `pos`, where its nine bytes are canonical.
fn read_i64(data: &Vec<u8>, pos: usize) -> (r: Option<(i64, usize)>)
    requires
        pos <= data@.len(),
    ensures
        match r {
            Some(v) => pos + 9 <= data@.len() && v.1 == pos + 9 && dec_i64(data@.skip(pos as int))
                == Some((v.0, 9int)),
            None => dec_i64(data@.skip(pos as int)) is None,
        },
{
    let ghost tail = data@.skip(pos as int);
    if data.len() - pos < 1 {
        return None;
    }
    let sign = data[pos];
    assert(sign == tail[0]);
    match read_nat(data, pos + 1, 8) {
        None => {
            assert(tail.len() < 9);
            None
        },
        Some((mag, p2)) => {
            proof {
                assert(data@.skip(pos as int + 1) =~= tail.skip(1));
                lemma_pow256_values();
                lemma_dec_nat_bound(tail.skip(1), 8);
            }
            if sign == 0 && mag <= i64::MAX as u64 {
                Some((mag as i64, p2))
            } else if sign == 1 && 1 <= mag && mag <= 0x8000_0000_0000_0000u64 {
                let v: i64 = (-(mag as i128)) as i64;
                assert(v as int == -(mag as int));
                Some((v, p2))
            } else {
                None
            }
        },
    }
}

/// The bytes of a list's elements, in order.
pub open spec fn enc_list<T>(s: Seq<T>, fe: spec_fn(T) -> Seq<u8>) -> Seq<u8>
    decreases s.len(),
{
    if s.len() == 0 {
        Seq::empty()
    } else {
        fe(s[0]) + enc_list(s.skip(1), fe)
    }
}

/// Appending one element appends its bytes.
pub proof fn lemma_enc_list_snoc<T>(s: Seq<T>, x: T, fe: spec_fn(T) -> Seq<u8>)
    ensures
        enc_list(s.push(x), fe) == enc_list(s, fe) + fe(x),
    decreases s.len(),
{
    if s.len() == 0 {
        assert(s.push(x)[0] == x);
        assert(s.push(x).skip(1) =~= Seq::<T>::empty());
        assert(enc_list(Seq::<T>::empty(), fe) =~= Seq::<u8>::empty());
        assert(enc_list(s.push(x), fe) == fe(x) + enc_list(s.push(x).skip(1), fe));
        assert(enc_list(s.push(x), fe) =~= fe(x));
        assert(enc_list(s, fe) =~= Seq::<u8>::empty());
        assert(enc_list(s, fe) + fe(x) =~= fe(x));
    } else {
        assert(s.push(x)[0] == s[0]);
        assert(s.push(x).skip(1) =~= s.skip(1).push(x));
        lemma_enc_list_snoc(s.skip(1), x, fe);
        assert(enc_list(s.push(x), fe) =~= enc_list(s, fe) + fe(x));
    }
}

/// The elements at the head of `s`, `count` of them, each read by `fd`.
pub open spec fn dec_list<T>(
    s: Seq<u8>,
    count: nat,
    fd: spec_fn(Seq<u8>) -> Option<(T, int)>,
) -> Option<(Seq<T>, int)>
    decreases count,
{
    if count == 0 {
        Some((Seq::empty(), 0int))
    } else {
        match fd(s) {
            None => None,
            Some((x, used)) => match dec_list(s.skip(used), (count - 1) as nat, fd) {
                None => None,
                Some((xs, used2)) => Some((seq![x] + xs, used + used2)),
            },
        }
    }
}

/// Reading back an encoded list yields the list, as long as reading back one
/// encodable encoded element yields that element.
pub proof fn lemma_dec_enc_list<T>(
    xs: Seq<T>,
    rest: Seq<u8>,
    fe: spec_fn(T) -> Seq<u8>,
    fd: spec_fn(Seq<u8>) -> Option<(T, int)>,
    ok: spec_fn(T) -> bool,
)
    requires
        forall|i: int| 0 <= i < xs.len() ==> ok(#[trigger] xs[i]),
        forall|x: T, r: Seq<u8>|
            ok(x) ==> #[trigger] fd(fe(x) + r) == Some((x, fe(x).len() as int)),
    ensures
        dec_list(enc_list(xs, fe) + rest, xs.len(), fd) == Some(
            (xs, enc_list(xs, fe).len() as int),
        ),
    decreases xs.len(),
{
    if xs.len() == 0 {
        assert(enc_list(xs, fe) =~= Seq::<u8>::empty());
        assert(dec_list(enc_list(xs, fe) + rest, 0, fd) == Some((Seq::<T>::empty(), 0int)));
        assert(xs =~= Seq::<T>::empty());
    } else {
        let h = xs[0];
        let t = xs.skip(1);
        let s = enc_list(xs, fe) + rest;
        assert(enc_list(xs, fe) == fe(h) + enc_list(t, fe));
        assert(s =~= fe(h) + (enc_list(t, fe) + rest));
        assert(fd(s) == Some((h, fe(h).len() as int)));
        assert(s.skip(fe(h).len() as int) =~= enc_list(t, fe) + rest);
        assert(forall|i: int| 0 <= i < t.len() ==> ok(#[trigger] t[i]));
        lemma_dec_enc_list(t, rest, fe, fd, ok);
        assert(seq![h] + t =~= xs);
    }
}

/// Writing back a decoded list yields the bytes read, as long as the same
/// holds of one element.
pub proof fn lemma_enc_dec_list<T>(
    s: Seq<u8>,
    count: nat,
    fe: spec_fn(T) -> Seq<u8>,
    fd: spec_fn(Seq<u8>) -> Option<(T, int)>,
)
    requires
        forall|t: Seq<u8>|
            (#[trigger] fd(t)) matches Some(v) ==> 0 <= v.1 <= t.len() && t.take(v.1) == fe(v.0),
    ensures
        dec_list(s, count, fd) matches Some(v) ==> 0 <= v.1 <= s.len() && s.take(v.1) == enc_list(
            v.0,
            fe,
        ) && v.0.len() == count,
    decreases count,
{
    if count > 0 {
        if dec_list(s, count, fd) is Some {
            let v = dec_list(s, count, fd).unwrap();
            let (x, used) = fd(s).unwrap();
            lemma_enc_dec_list(s.skip(used), (count - 1) as nat, fe, fd);
            let (xs, used2) = dec_list(s.skip(used), (count - 1) as nat, fd).unwrap();
            assert(s.take(used) == fe(x));
            assert(s.skip(used).take(used2) == enc_list(xs, fe));
            assert(v.0 == seq![x] + xs);
            assert(v.1 == used + used2);
            assert((seq![x] + xs)[0] == x);
            assert((seq![x] + xs).skip(1) =~= xs);
            assert(enc_list(v.0, fe) == fe(x) + enc_list(xs, fe));
            assert(s.take(used + used2) =~= s.take(used) + s.skip(used).take(used2));
            assert(s.take(v.1) =~= enc_list(v.0, fe));
        }
    }
}

/// Four bytes of one character: its Unicode scalar value.
pub open spec fn enc_char(c: char) -> Seq<u8> {
    enc_nat((c as u32) as int, 4)
}

/// The character at the head of `s`, where its four bytes carry a scalar
/// value.
pub open spec fn dec_char(s: Seq<u8>) -> Option<(char, int)> {
    if s.len() < 4 {
        None
    } else {
        let u = dec_nat(s, 4);
        if vstd::utf8::is_scalar((u as u32)) {
            Some((((u as u32) as char), 4))
        } else {
            None
        }
    }
}

/// Reading back the bytes of a character yields the character.
pub proof fn lemma_dec_enc_char(c: char, rest: Seq<u8>)
    ensures
        dec_char(enc_char(c) + rest) == Some((c, 4int)),
{
    lemma_pow256_values();
    lemma_enc_nat_len((c as u32) as int, 4);
    let s = enc_char(c) + rest;
    assert(forall|i: int| 0 <= i < 4 ==> s[i] == enc_char(c)[i]);
    lemma_dec_nat_eq(s, enc_char(c), 4);
    lemma_dec_enc_nat((c as u32) as int, 4);
    assert(dec_nat(s, 4) == (c as u32) as int);
    assert((((c as u32) as int) as u32) == c as u32);
}

/// Writing back the character at the head of `s` yields its four bytes.
pub proof fn lemma_enc_dec_char(s: Seq<u8>)
    ensures
        dec_char(s) matches Some(v) ==> v.1 == 4 && s.take(4) == enc_char(v.0),
{
    if dec_char(s) is Some {
        let v = dec_char(s).unwrap();
        let u = dec_nat(s, 4);
        lemma_dec_nat_bound(s, 4);
        lemma_pow256_values();
        lemma_enc_dec_nat(s, 4);
        assert(v.0 as u32 == u as u32);
        assert((v.0 as u32) as int == u);
        assert(enc_char(v.0) == s.take(4));
    }
}

/// The spec-level reader of one character, as `dec_list` applies it.
pub open spec fn char_reader() -> spec_fn(Seq<u8>) -> Option<(char, int)> {
    |t: Seq<u8>| dec_char(t)
}

/// The spec-level writer of one character, as `enc_list` applies it.
pub open spec fn char_writer() -> spec_fn(char) -> Seq<u8> {
    |c: char| enc_char(c)
}

/// A character count, then that many characters.
pub open spec fn enc_str(s: Seq<char>) -> Seq<u8> {
    enc_nat(s.len() as int, 8) + enc_list(s, char_writer())
}

/// The character string at the head of `s`.
pub open spec fn dec_str(s: Seq<u8>) -> Option<(Seq<char>, int)> {
    if s.len() < 8 {
        None
    } else {
        let n = dec_nat(s, 8);
        match dec_list(s.skip(8), n as nat, char_reader()) {
            None => None,
            Some((cs, used)) => Some((cs, 8 + used)),
        }
    }
}

/// Reading back the bytes of a string yields the string.
pub proof fn lemma_dec_enc_str(x: Seq<char>, rest: Seq<u8>)
    requires
        x.len() < pow256(8),
    ensures
        dec_str(enc_str(x) + rest) == Some((x, enc_str(x).len() as int)),
{
    lemma_pow256_values();
    lemma_enc_nat_len(x.len() as int, 8);
    let s = enc_str(x) + rest;
    assert(forall|i: int| 0 <= i < 8 ==> s[i] == enc_nat(x.len() as int, 8)[i]);
    lemma_dec_nat_eq(s, enc_nat(x.len() as int, 8), 8);
    lemma_dec_enc_nat(x.len() as int, 8);
    assert(dec_nat(s, 8) == x.len() as int);
    assert(s.skip(8) =~= enc_list(x, char_writer()) + rest);
    assert forall|c: char, r: Seq<u8>| #[trigger] char_reader()(char_writer()(c) + r) == Some(
        (c, char_writer()(c).len() as int),
    ) by {
        lemma_dec_enc_char(c, r);
        lemma_enc_nat_len((c as u32) as int, 4);
    }
    lemma_dec_enc_list(x, rest, char_writer(), char_reader(), |c: char| true);
}

/// Writing back the string at the head of `s` yields the bytes read.
pub proof fn lemma_enc_dec_str(s: Seq<u8>)
    ensures
        dec_str(s) matches Some(v) ==> 8 <= v.1 <= s.len() && s.take(v.1) == enc_str(v.0),
{
    if dec_str(s) is Some {
        let v = dec_str(s).unwrap();
        let n = dec_nat(s, 8);
        lemma_dec_nat_bound(s, 8);
        lemma_enc_dec_nat(s, 8);
        assert forall|t: Seq<u8>|
            (#[trigger] char_reader()(t)) matches Some(w) ==> 0 <= w.1 <= t.len() && t.take(w.1)
                == char_writer()(w.0) by {
            if char_reader()(t) matches Some(w) {
                lemma_enc_dec_char(t);
            }
        }
        lemma_enc_dec_list(s.skip(8), n as nat, char_writer(), char_reader());
        let (cs, used) = dec_list(s.skip(8), n as nat, char_reader()).unwrap();
        assert(cs.len() == n);
        assert(s.skip(8).take(used) == enc_list(cs, char_writer()));
        assert(enc_nat(cs.len() as int, 8) == s.take(8));
        assert(s.take(8 + used) =~= s.take(8) + s.skip(8).take(used));
        assert(s.take(v.1) =~= enc_str(v.0));
    }
}

/// Splitting a prefix at an inner boundary.
pub proof fn lemma_take_split(s: Seq<u8>, a: int, b: int)
    requires
        0 <= a,
        0 <= b,
        a + b <= s.len(),
    ensures
        s.take(a + b) == s.take(a) + s.skip(a).take(b),
{
    assert(s.take(a + b) =~= s.take(a) + s.skip(a).take(b));
}

/// A string fits its eight-byte character count.
pub open spec fn str_ok(s: Seq<char>) -> bool {
    s.len() < pow256(8)
}

/// The bytes of one tag: its key, then its value.
pub open spec fn enc_tag(t: (Seq<char>, Seq<char>)) -> Seq<u8> {
    enc_str(t.0) + enc_str(t.1)
}

/// The tag at the head of `s`.
pub open spec fn dec_tag(s: Seq<u8>) -> Option<((Seq<char>, Seq<char>), int)> {
    match dec_str(s) {
        None => None,
        Some((k, u1)) => match dec_str(s.skip(u1)) {
            None => None,
            Some((v, u2)) => Some(((k, v), u1 + u2)),
        },
    }
}

pub open spec fn tag_ok(t: (Seq<char>, Seq<char>)) -> bool {
    str_ok(t.0) && str_ok(t.1)
}

pub proof fn lemma_dec_enc_tag(t: (Seq<char>, Seq<char>), rest: Seq<u8>)
    requires
        tag_ok(t),
    ensures
        dec_tag(enc_tag(t) + rest) == Some((t, enc_tag(t).len() as int)),
{
    let s = enc_tag(t) + rest;
    assert(s =~= enc_str(t.0) + (enc_str(t.1) + rest));
    lemma_dec_enc_str(t.0, enc_str(t.1) + rest);
    assert(s.skip(enc_str(t.0).len() as int) =~= enc_str(t.1) + rest);
    lemma_dec_enc_str(t.1, rest);
}

pub proof fn lemma_enc_dec_tag(s: Seq<u8>)
    ensures
        dec_tag(s) matches Some(v) ==> 0 <= v.1 <= s.len() && s.take(v.1) == enc_tag(v.0),
{
    if dec_tag(s) is Some {
        let v = dec_tag(s).unwrap();
        let (k, u1) = dec_str(s).unwrap();
        let (w, u2) = dec_str(s.skip(u1)).unwrap();
        lemma_enc_dec_str(s);
        lemma_enc_dec_str(s.skip(u1));
        lemma_take_split(s, u1, u2);
        assert(s.take(v.1) =~= enc_tag(v.0));
    }
}

pub open spec fn tag_writer() -> spec_fn((Seq<char>, Seq<char>)) -> Seq<u8> {
    |t: (Seq<char>, Seq<char>)| enc_tag(t)
}

pub open spec fn tag_reader() -> spec_fn(Seq<u8>) -> Option<((Seq<char>, Seq<char>), int)> {
    |t: Seq<u8>| dec_tag(t)
}

/// A tag count, then that many tags.
pub open spec fn enc_tags(ts: Seq<(Seq<char>, Seq<char>)>) -> Seq<u8> {
    enc_nat(ts.len() as int, 8) + enc_list(ts, tag_writer())
}

/// The tag list at the head of `s`.
pub open spec fn dec_tags(s: Seq<u8>) -> Option<(Seq<(Seq<char>, Seq<char>)>, int)> {
    if s.len() < 8 {
        None
    } else {
        let n = dec_nat(s, 8);
        match dec_list(s.skip(8), n as nat, tag_reader()) {
            None => None,
            Some((ts, used)) => Some((ts, 8 + used)),
        }
    }
}

pub open spec fn tags_ok(ts: Seq<(Seq<char>, Seq<char>)>) -> bool {
    ts.len() < pow256(8) && forall|i: int| 0 <= i < ts.len() ==> tag_ok(#[trigger] ts[i])
}

pub proof fn lemma_dec_enc_tags(ts: Seq<(Seq<char>, Seq<char>)>, rest: Seq<u8>)
    requires
        tags_ok(ts),
    ensures
        dec_tags(enc_tags(ts) + rest) == Some((ts, enc_tags(ts).len() as int)),
{
    lemma_pow256_values();
    lemma_enc_nat_len(ts.len() as int, 8);
    let s = enc_tags(ts) + rest;
    assert(forall|i: int| 0 <= i < 8 ==> s[i] == enc_nat(ts.len() as int, 8)[i]);
    lemma_dec_nat_eq(s, enc_nat(ts.len() as int, 8), 8);
    lemma_dec_enc_nat(ts.len() as int, 8);
    assert(s.skip(8) =~= enc_list(ts, tag_writer()) + rest);
    assert forall|x: (Seq<char>, Seq<char>), r: Seq<u8>| tag_ok(x) implies #[trigger] tag_reader()(
        tag_writer()(x) + r,
    ) == Some((x, tag_writer()(x).len() as int)) by {
        lemma_dec_enc_tag(x, r);
    }
    lemma_dec_enc_list(ts, rest, tag_writer(), tag_reader(), |t: (Seq<char>, Seq<char>)| tag_ok(t));
}

pub proof fn lemma_enc_dec_tags(s: Seq<u8>)
    ensures
        dec_tags(s) matches Some(v) ==> 8 <= v.1 <= s.len() && s.take(v.1) == enc_tags(v.0),
{
    if dec_tags(s) is Some {
        let v = dec_tags(s).unwrap();
        let n = dec_nat(s, 8);
        lemma_dec_nat_bound(s, 8);
        lemma_enc_dec_nat(s, 8);
        assert forall|t: Seq<u8>|
            (#[trigger] tag_reader()(t)) matches Some(w) ==> 0 <= w.1 <= t.len() && t.take(w.1)
                == tag_writer()(w.0) by {
            if tag_reader()(t) matches Some(w) {
                lemma_enc_dec_tag(t);
            }
        }
        lemma_enc_dec_list(s.skip(8), n as nat, tag_writer(), tag_reader());
        let (ts, used) = dec_list(s.skip(8), n as nat, tag_reader()).unwrap();
        assert(ts.len() == n);
        assert(enc_nat(ts.len() as int, 8) == s.take(8));
        lemma_take_split(s, 8, used);
        assert(s.take(v.1) =~= enc_tags(v.0));
    }
}

pub open spec fn i64_writer() -> spec_fn(i64) -> Seq<u8> {
    |x: i64| enc_i64(x)
}

pub open spec fn i64_reader() -> spec_fn(Seq<u8>) -> Option<(i64, int)> {
    |t: Seq<u8>| dec_i64(t)
}

/// An identity count, then that many identities.
pub open spec fn enc_ids(ids: Seq<i64>) -> Seq<u8> {
    enc_nat(ids.len() as int, 8) + enc_list(ids, i64_writer())
}

/// The identity list at the head of `s`.
pub open spec fn dec_ids(s: Seq<u8>) -> Option<(Seq<i64>, int)> {
    if s.len() < 8 {
        None
    } else {
        let n = dec_nat(s, 8);
        match dec_list(s.skip(8), n as nat, i64_reader()) {
            None => None,
            Some((ids, used)) => Some((ids, 8 + used)),
        }
    }
}

pub open spec fn ids_ok(ids: Seq<i64>) -> bool {
    ids.len() < pow256(8)
}

pub proof fn lemma_dec_enc_ids(ids: Seq<i64>, rest: Seq<u8>)
    requires
        ids_ok(ids),
    ensures
        dec_ids(enc_ids(ids) + rest) == Some((ids, enc_ids(ids).len() as int)),
{
    lemma_pow256_values();
    lemma_enc_nat_len(ids.len() as int, 8);
    let s = enc_ids(ids) + rest;
    assert(forall|i: int| 0 <= i < 8 ==> s[i] == enc_nat(ids.len() as int, 8)[i]);
    lemma_dec_nat_eq(s, enc_nat(ids.len() as int, 8), 8);
    lemma_dec_enc_nat(ids.len() as int, 8);
    assert(s.skip(8) =~= enc_list(ids, i64_writer()) + rest);
    assert forall|x: i64, r: Seq<u8>| #[trigger] i64_reader()(i64_writer()(x) + r) == Some(
        (x, i64_writer()(x).len() as int),
    ) by {
        lemma_dec_enc_i64(x, r);
        lemma_enc_i64_len(x);
    }
    lemma_dec_enc_list(ids, rest, i64_writer(), i64_reader(), |x: i64| true);
}

pub proof fn lemma_enc_dec_ids(s: Seq<u8>)
    ensures
        dec_ids(s) matches Some(v) ==> 8 <= v.1 <= s.len() && s.take(v.1) == enc_ids(v.0),
{
    if dec_ids(s) is Some {
        let v = dec_ids(s).unwrap();
        let n = dec_nat(s, 8);
        lemma_dec_nat_bound(s, 8);
        lemma_enc_dec_nat(s, 8);
        assert forall|t: Seq<u8>|
            (#[trigger] i64_reader()(t)) matches Some(w) ==> 0 <= w.1 <= t.len() && t.take(w.1)
                == i64_writer()(w.0) by {
            if i64_reader()(t) is Some {
                lemma_enc_dec_i64(t);
                lemma_enc_i64_len(i64_reader()(t).unwrap().0);
            }
        }
        lemma_enc_dec_list(s.skip(8), n as nat, i64_writer(), i64_reader());
        let (ids, used) = dec_list(s.skip(8), n as nat, i64_reader()).unwrap();
        assert(enc_nat(ids.len() as int, 8) == s.take(8));
        lemma_take_split(s, 8, used);
        assert(s.take(v.1) =~= enc_ids(v.0));
    }
}

/// The byte that stands for one road class.
pub open spec fn class_byte(h: Highway) -> u8 {
    match h {
        Highway::Motorway => 0,
        Highway::Trunk => 1,
        Highway::Primary => 2,
        Highway::Secondary => 3,
        Highway::Tertiary => 4,
        Highway::Unclassified => 5,
        Highway::Residential => 6,
        Highway::MotorwayLink => 7,
        Highway::TrunkLink => 8,
        Highway::PrimaryLink => 9,
        Highway::SecondaryLink => 10,
        Highway::TertiaryLink => 11,
        Highway::LivingStreet => 12,
        Highway::Road => 13,
    }
}

/// The road class a byte stands for.
pub open spec fn byte_class(b: u8) -> Option<Highway> {
    if b == 0 {
        Some(Highway::Motorway)
    } else if b == 1 {
        Some(Highway::Trunk)
    } else if b == 2 {
        Some(Highway::Primary)
    } else if b == 3 {
        Some(Highway::Secondary)
    } else if b == 4 {
        Some(Highway::Tertiary)
    } else if b == 5 {
        Some(Highway::Unclassified)
    } else if b == 6 {
        Some(Highway::Residential)
    } else if b == 7 {
        Some(Highway::MotorwayLink)
    } else if b == 8 {
        Some(Highway::TrunkLink)
    } else if b == 9 {
        Some(Highway::PrimaryLink)
    } else if b == 10 {
        Some(Highway::SecondaryLink)
    } else if b == 11 {
        Some(Highway::TertiaryLink)
    } else if b == 12 {
        Some(Highway::LivingStreet)
    } else if b == 13 {
        Some(Highway::Road)
    } else {
        None
    }
}

/// One byte for a classification: a road class, or 14 for none.
pub open spec fn enc_class(o: Option<Highway>) -> Seq<u8> {
    match o {
        Some(h) => seq![class_byte(h)],
        None => seq![14u8],
    }
}

/// The classification at the head of `s`.
pub open spec fn dec_class(s: Seq<u8>) -> Option<(Option<Highway>, int)> {
    if s.len() < 1 {
        None
    } else if s[0] == 14 {
        Some((None, 1))
    } else {
        match byte_class(s[0]) {
            Some(h) => Some((Some(h), 1)),
            None => None,
        }
    }
}

pub proof fn lemma_dec_enc_class(o: Option<Highway>, rest: Seq<u8>)
    ensures
        dec_class(enc_class(o) + rest) == Some((o, 1int)),
{
    let s = enc_class(o) + rest;
    assert(s[0] == enc_class(o)[0]);
}

pub proof fn lemma_enc_dec_class(s: Seq<u8>)
    ensures
        dec_class(s) matches Some(v) ==> v.1 == 1 && s.take(1) == enc_class(v.0),
{
    if dec_class(s) is Some {
        let v = dec_class(s).unwrap();
        assert(s.take(1) =~= enc_class(v.0));
    }
}

/// One byte for no speed, or a one byte followed by the value.
pub open spec fn enc_speed(o: Option<u8>) -> Seq<u8> {
    match o {
        None => seq![0u8],
        Some(v) => seq![1u8, v],
    }
}

/// The speed attribute at the head of `s`.
pub open spec fn dec_speed(s: Seq<u8>) -> Option<(Option<u8>, int)> {
    if s.len() < 1 {
        None
    } else if s[0] == 0 {
        Some((None, 1))
    } else if s[0] == 1 && s.len() >= 2 {
        Some((Some(s[1]), 2))
    } else {
        None
    }
}

pub proof fn lemma_dec_enc_speed(o: Option<u8>, rest: Seq<u8>)
    ensures
        dec_speed(enc_speed(o) + rest) == Some((o, enc_speed(o).len() as int)),
{
    let s = enc_speed(o) + rest;
    assert(s[0] == enc_speed(o)[0]);
    if o is Some {
        assert(s[1] == enc_speed(o)[1]);
    }
}

pub proof fn lemma_enc_dec_speed(s: Seq<u8>)
    ensures
        dec_speed(s) matches Some(v) ==> 1 <= v.1 <= s.len() && s.take(v.1) == enc_speed(v.0),
{
    if dec_speed(s) is Some {
        let v = dec_speed(s).unwrap();
        assert(s.take(v.1) =~= enc_speed(v.0));
    }
}

/// The bytes of one node: identity, coordinates, tags, back-references.
pub open spec fn enc_node(n: NodeV) -> Seq<u8> {
    enc_i64(n.id) + enc_i64(n.lat) + enc_i64(n.lon) + enc_tags(n.tags) + enc_ids(n.way_refs)
}

/// The node at the head of `s`.
pub open spec fn dec_node(s: Seq<u8>) -> Option<(NodeV, int)> {
    match dec_i64(s) {
        None => None,
        Some((id, u1)) => match dec_i64(s.skip(u1)) {
            None => None,
            Some((lat, u2)) => match dec_i64(s.skip(u1 + u2)) {
                None => None,
                Some((lon, u3)) => match dec_tags(s.skip(u1 + u2 + u3)) {
                    None => None,
                    Some((tags, u4)) => match dec_ids(s.skip(u1 + u2 + u3 + u4)) {
                        None => None,
                        Some((refs, u5)) => Some(
                            (
                                NodeV { id, lat, lon, tags, way_refs: refs },
                                u1 + u2 + u3 + u4 + u5,
                            ),
                        ),
                    },
                },
            },
        },
    }
}

pub open spec fn node_ok(n: NodeV) -> bool {
    tags_ok(n.tags) && ids_ok(n.way_refs)
}

#[verifier::rlimit(50)]
pub proof fn lemma_dec_enc_node(n: NodeV, rest: Seq<u8>)
    requires
        node_ok(n),
    ensures
        dec_node(enc_node(n) + rest) == Some((n, enc_node(n).len() as int)),
{
    let e1 = enc_i64(n.id);
    let e2 = enc_i64(n.lat);
    let e3 = enc_i64(n.lon);
    let e4 = enc_tags(n.tags);
    let e5 = enc_ids(n.way_refs);
    lemma_enc_i64_len(n.id);
    lemma_enc_i64_len(n.lat);
    lemma_enc_i64_len(n.lon);
    let s = enc_node(n) + rest;
    assert(s =~= e1 + (e2 + (e3 + (e4 + (e5 + rest)))));
    lemma_dec_enc_i64(n.id, e2 + (e3 + (e4 + (e5 + rest))));
    assert(s.skip(9) =~= e2 + (e3 + (e4 + (e5 + rest))));
    lemma_dec_enc_i64(n.lat, e3 + (e4 + (e5 + rest)));
    assert(s.skip(18) =~= e3 + (e4 + (e5 + rest)));
    lemma_dec_enc_i64(n.lon, e4 + (e5 + rest));
    assert(s.skip(27) =~= e4 + (e5 + rest));
    lemma_dec_enc_tags(n.tags, e5 + rest);
    assert(s.skip(27 + e4.len() as int) =~= e5 + rest);
    lemma_dec_enc_ids(n.way_refs, rest);
}

#[verifier::rlimit(50)]
pub proof fn lemma_enc_dec_node(s: Seq<u8>)
    ensures
        dec_node(s) matches Some(v) ==> 0 <= v.1 <= s.len() && s.take(v.1) == enc_node(v.0),
{
    if dec_node(s) is Some {
        let v = dec_node(s).unwrap();
        let (id, u1) = dec_i64(s).unwrap();
        let (lat, u2) = dec_i64(s.skip(u1)).unwrap();
        let (lon, u3) = dec_i64(s.skip(u1 + u2)).unwrap();
        let (tags, u4) = dec_tags(s.skip(u1 + u2 + u3)).unwrap();
        let (refs, u5) = dec_ids(s.skip(u1 + u2 + u3 + u4)).unwrap();
        lemma_enc_dec_i64(s);
        lemma_enc_dec_i64(s.skip(u1));
        lemma_enc_dec_i64(s.skip(u1 + u2));
        lemma_enc_dec_tags(s.skip(u1 + u2 + u3));
        lemma_enc_dec_ids(s.skip(u1 + u2 + u3 + u4));
        lemma_take_split(s, u1, u2);
        lemma_take_split(s, u1 + u2, u3);
        lemma_take_split(s, u1 + u2 + u3, u4);
        lemma_take_split(s, u1 + u2 + u3 + u4, u5);
        assert(s.skip(u1).take(u2) =~= s.take(u1 + u2).skip(u1));
        assert(s.skip(u1 + u2).take(u3) =~= s.take(u1 + u2 + u3).skip(u1 + u2));
        assert(s.take(v.1) =~= enc_node(v.0));
    }
}

pub open spec fn node_writer() -> spec_fn(NodeV) -> Seq<u8> {
    |n: NodeV| enc_node(n)
}

pub open spec fn node_reader() -> spec_fn(Seq<u8>) -> Option<(NodeV, int)> {
    |t: Seq<u8>| dec_node(t)
}

/// The bytes of one cell: its key, then a node count, then its nodes.
pub open spec fn enc_cell(c: CellV) -> Seq<u8> {
    enc_i64(c.coord.0 as i64) + enc_i64(c.coord.1 as i64) + enc_nat(c.nodes.len() as int, 8)
        + enc_list(c.nodes, node_writer())
}

/// The cell at the head of `s`.
pub open spec fn dec_cell(s: Seq<u8>) -> Option<(CellV, int)> {
    match dec_i64(s) {
        None => None,
        Some((c0, u1)) => match dec_i64(s.skip(u1)) {
            None => None,
            Some((c1, u2)) => {
                if s.skip(u1 + u2).len() < 8 {
                    None
                } else {
                    let n = dec_nat(s.skip(u1 + u2), 8);
                    match dec_list(s.skip(u1 + u2 + 8), n as nat, node_reader()) {
                        None => None,
                        Some((nodes, u3)) => Some(
                            (
                                CellV { coord: (c0 as int, c1 as int), nodes },
                                u1 + u2 + 8 + u3,
                            ),
                        ),
                    }
                }
            },
        },
    }
}

pub open spec fn cell_ok(c: CellV) -> bool {
    &&& i64::MIN <= c.coord.0 <= i64::MAX
    &&& i64::MIN <= c.coord.1 <= i64::MAX
    &&& c.nodes.len() < pow256(8)
    &&& forall|i: int| 0 <= i < c.nodes.len() ==> node_ok(#[trigger] c.nodes[i])
}

#[verifier::rlimit(50)]
pub proof fn lemma_dec_enc_cell(c: CellV, rest: Seq<u8>)
    requires
        cell_ok(c),
    ensures
        dec_cell(enc_cell(c) + rest) == Some((c, enc_cell(c).len() as int)),
{
    lemma_pow256_values();
    let e1 = enc_i64(c.coord.0 as i64);
    let e2 = enc_i64(c.coord.1 as i64);
    let e3 = enc_nat(c.nodes.len() as int, 8);
    let e4 = enc_list(c.nodes, node_writer());
    lemma_enc_nat_len(c.nodes.len() as int, 8);
    lemma_enc_i64_len(c.coord.0 as i64);
    lemma_enc_i64_len(c.coord.1 as i64);
    let s = enc_cell(c) + rest;
    assert(s =~= e1 + (e2 + (e3 + (e4 + rest))));
    lemma_dec_enc_i64(c.coord.0 as i64, e2 + (e3 + (e4 + rest)));
    assert(s.skip(9) =~= e2 + (e3 + (e4 + rest)));
    lemma_dec_enc_i64(c.coord.1 as i64, e3 + (e4 + rest));
    assert(s.skip(18) =~= e3 + (e4 + rest));
    assert(forall|i: int| 0 <= i < 8 ==> s.skip(18)[i] == e3[i]);
    lemma_dec_nat_eq(s.skip(18), e3, 8);
    lemma_dec_enc_nat(c.nodes.len() as int, 8);
    assert(s.skip(26) =~= e4 + rest);
    assert forall|x: NodeV, r: Seq<u8>| node_ok(x) implies #[trigger] node_reader()(
        node_writer()(x) + r,
    ) == Some((x, node_writer()(x).len() as int)) by {
        lemma_dec_enc_node(x, r);
    }
    lemma_dec_enc_list(c.nodes, rest, node_writer(), node_reader(), |x: NodeV| node_ok(x));
    assert((c.coord.0 as i64) as int == c.coord.0);
    assert((c.coord.1 as i64) as int == c.coord.1);
    assert((CellV { coord: (c.coord.0, c.coord.1), nodes: c.nodes }) =~~= c);
}

#[verifier::rlimit(50)]
pub proof fn lemma_enc_dec_cell(s: Seq<u8>)
    ensures
        dec_cell(s) matches Some(v) ==> 0 <= v.1 <= s.len() && s.take(v.1) == enc_cell(v.0),
{
    if dec_cell(s) is Some {
        let v = dec_cell(s).unwrap();
        let (c0, u1) = dec_i64(s).unwrap();
        let (c1, u2) = dec_i64(s.skip(u1)).unwrap();
        let n = dec_nat(s.skip(u1 + u2), 8);
        let (nodes, u3) = dec_list(s.skip(u1 + u2 + 8), n as nat, node_reader()).unwrap();
        lemma_enc_dec_i64(s);
        lemma_enc_dec_i64(s.skip(u1));
        lemma_dec_nat_bound(s.skip(u1 + u2), 8);
        lemma_enc_dec_nat(s.skip(u1 + u2), 8);
        assert forall|t: Seq<u8>|
            (#[trigger] node_reader()(t)) matches Some(w) ==> 0 <= w.1 <= t.len() && t.take(w.1)
                == node_writer()(w.0) by {
            if node_reader()(t) is Some {
                lemma_enc_dec_node(t);
            }
        }
        lemma_enc_dec_list(s.skip(u1 + u2 + 8), n as nat, node_writer(), node_reader());
        lemma_take_split(s, u1, u2);
        lemma_take_split(s, u1 + u2, 8);
        lemma_take_split(s, u1 + u2 + 8, u3);
        assert(s.skip(u1).take(u2) =~= s.take(u1 + u2).skip(u1));
        assert(v.0.coord.0 == c0 as int && v.0.coord.1 == c1 as int);
        assert((c0 as int) as i64 == c0 && (c1 as int) as i64 == c1);
        assert(nodes.len() == n);
        assert(s.take(v.1) =~= enc_cell(v.0));
    }
}

/// The bytes of one way: identity, tags, node references, classification,
/// speed attribute.
pub open spec fn enc_way(w: WayV) -> Seq<u8> {
    enc_i64(w.id) + enc_tags(w.tags) + enc_ids(w.node_ids) + enc_class(w.road_class) + enc_speed(
        w.max_speed,
    )
}

/// The way at the head of `s`.
pub open spec fn dec_way(s: Seq<u8>) -> Option<(WayV, int)> {
    match dec_i64(s) {
        None => None,
        Some((id, u1)) => match dec_tags(s.skip(u1)) {
            None => None,
            Some((tags, u2)) => match dec_ids(s.skip(u1 + u2)) {
                None => None,
                Some((nids, u3)) => match dec_class(s.skip(u1 + u2 + u3)) {
                    None => None,
                    Some((rc, u4)) => match dec_speed(s.skip(u1 + u2 + u3 + u4)) {
                        None => None,
                        Some((ms, u5)) => Some(
                            (
                                WayV {
                                    id,
                                    tags,
                                    node_ids: nids,
                                    road_class: rc,
                                    max_speed: ms,
                                },
                                u1 + u2 + u3 + u4 + u5,
                            ),
                        ),
                    },
                },
            },
        },
    }
}

pub open spec fn way_ok(w: WayV) -> bool {
    tags_ok(w.tags) && ids_ok(w.node_ids)
}

#[verifier::rlimit(50)]
pub proof fn lemma_dec_enc_way(w: WayV, rest: Seq<u8>)
    requires
        way_ok(w),
    ensures
        dec_way(enc_way(w) + rest) == Some((w, enc_way(w).len() as int)),
{
    let e1 = enc_i64(w.id);
    let e2 = enc_tags(w.tags);
    let e3 = enc_ids(w.node_ids);
    let e4 = enc_class(w.road_class);
    let e5 = enc_speed(w.max_speed);
    lemma_enc_i64_len(w.id);
    assert(e4.len() == 1);
    let s = enc_way(w) + rest;
    assert(s =~= e1 + (e2 + (e3 + (e4 + (e5 + rest)))));
    lemma_dec_enc_i64(w.id, e2 + (e3 + (e4 + (e5 + rest))));
    assert(s.skip(9) =~= e2 + (e3 + (e4 + (e5 + rest))));
    lemma_dec_enc_tags(w.tags, e3 + (e4 + (e5 + rest)));
    assert(s.skip(9 + e2.len() as int) =~= e3 + (e4 + (e5 + rest)));
    lemma_dec_enc_ids(w.node_ids, e4 + (e5 + rest));
    assert(s.skip(9 + e2.len() as int + e3.len() as int) =~= e4 + (e5 + rest));
    lemma_dec_enc_class(w.road_class, e5 + rest);
    assert(s.skip(9 + e2.len() as int + e3.len() as int + 1) =~= e5 + rest);
    lemma_dec_enc_speed(w.max_speed, rest);
}

#[verifier::rlimit(50)]
pub proof fn lemma_enc_dec_way(s: Seq<u8>)
    ensures
        dec_way(s) matches Some(v) ==> 0 <= v.1 <= s.len() && s.take(v.1) == enc_way(v.0),
{
    if dec_way(s) is Some {
        let v = dec_way(s).unwrap();
        let (id, u1) = dec_i64(s).unwrap();
        let (tags, u2) = dec_tags(s.skip(u1)).unwrap();
        let (nids, u3) = dec_ids(s.skip(u1 + u2)).unwrap();
        let (rc, u4) = dec_class(s.skip(u1 + u2 + u3)).unwrap();
        let (ms, u5) = dec_speed(s.skip(u1 + u2 + u3 + u4)).unwrap();
        lemma_enc_dec_i64(s);
        lemma_enc_dec_tags(s.skip(u1));
        lemma_enc_dec_ids(s.skip(u1 + u2));
        lemma_enc_dec_class(s.skip(u1 + u2 + u3));
        lemma_enc_dec_speed(s.skip(u1 + u2 + u3 + u4));
        lemma_take_split(s, u1, u2);
        lemma_take_split(s, u1 + u2, u3);
        lemma_take_split(s, u1 + u2 + u3, u4);
        lemma_take_split(s, u1 + u2 + u3 + u4, u5);
        assert(s.skip(u1).take(u2) =~= s.take(u1 + u2).skip(u1));
        assert(s.skip(u1 + u2).take(u3) =~= s.take(u1 + u2 + u3).skip(u1 + u2));
        assert(s.take(v.1) =~= enc_way(v.0));
    }
}

pub open spec fn cell_writer() -> spec_fn(CellV) -> Seq<u8> {
    |c: CellV| enc_cell(c)
}

pub open spec fn cell_reader() -> spec_fn(Seq<u8>) -> Option<(CellV, int)> {
    |t: Seq<u8>| dec_cell(t)
}

pub open spec fn way_writer() -> spec_fn(WayV) -> Seq<u8> {
    |w: WayV| enc_way(w)
}

pub open spec fn way_reader() -> spec_fn(Seq<u8>) -> Option<(WayV, int)> {
    |t: Seq<u8>| dec_way(t)
}

/// The bytes of the whole index: a cell count and the cells, then a way
/// count and the ways.
pub open spec fn enc_grid(gv: GridV) -> Seq<u8> {
    enc_nat(gv.cells.len() as int, 8) + enc_list(gv.cells, cell_writer()) + enc_nat(
        gv.ways.len() as int,
        8,
    ) + enc_list(gv.ways, way_writer())
}

/// The index a whole blob carries: every byte is consumed, or nothing is.
pub open spec fn dec_grid(s: Seq<u8>) -> Option<GridV> {
    if s.len() < 8 {
        None
    } else {
        let nc = dec_nat(s, 8);
        match dec_list(s.skip(8), nc as nat, cell_reader()) {
            None => None,
            Some((cells, u1)) => {
                if s.skip(8 + u1).len() < 8 {
                    None
                } else {
                    let nw = dec_nat(s.skip(8 + u1), 8);
                    match dec_list(s.skip(8 + u1 + 8), nw as nat, way_reader()) {
                        None => None,
                        Some((ways, u2)) => {
                            if 8 + u1 + 8 + u2 == s.len() {
                                Some(GridV { cells, ways })
                            } else {
                                None
                            }
                        },
                    }
                }
            },
        }
    }
}

/// Whether an index view fits the blob layout: every count fits its eight
/// bytes and every cell key fits its nine.
pub open spec fn grid_ok(gv: GridV) -> bool {
    &&& gv.cells.len() < pow256(8)
    &&& gv.ways.len() < pow256(8)
    &&& forall|i: int| 0 <= i < gv.cells.len() ==> cell_ok(#[trigger] gv.cells[i])
    &&& forall|j: int| 0 <= j < gv.ways.len() ==> way_ok(#[trigger] gv.ways[j])
}

/// Round trip: the blob of any index that fits the layout carries exactly
/// that index, so restoring a snapshot yields an observationally equal
/// structure.
#[verifier::rlimit(50)]
pub proof fn lemma_dec_enc_grid(gv: GridV)
    requires
        grid_ok(gv),
    ensures
        dec_grid(enc_grid(gv)) == Some(gv),
{
    lemma_pow256_values();
    let e1 = enc_nat(gv.cells.len() as int, 8);
    let e2 = enc_list(gv.cells, cell_writer());
    let e3 = enc_nat(gv.ways.len() as int, 8);
    let e4 = enc_list(gv.ways, way_writer());
    lemma_enc_nat_len(gv.cells.len() as int, 8);
    lemma_enc_nat_len(gv.ways.len() as int, 8);
    let s = enc_grid(gv);
    assert(s =~= e1 + (e2 + (e3 + (e4 + Seq::<u8>::empty()))));
    assert(forall|i: int| 0 <= i < 8 ==> s[i] == e1[i]);
    lemma_dec_nat_eq(s, e1, 8);
    lemma_dec_enc_nat(gv.cells.len() as int, 8);
    assert(s.skip(8) =~= e2 + (e3 + (e4 + Seq::<u8>::empty())));
    assert forall|x: CellV, r: Seq<u8>| cell_ok(x) implies #[trigger] cell_reader()(
        cell_writer()(x) + r,
    ) == Some((x, cell_writer()(x).len() as int)) by {
        lemma_dec_enc_cell(x, r);
    }
    lemma_dec_enc_list(
        gv.cells,
        e3 + (e4 + Seq::<u8>::empty()),
        cell_writer(),
        cell_reader(),
        |x: CellV| cell_ok(x),
    );
    assert(s.skip(8 + e2.len() as int) =~= e3 + (e4 + Seq::<u8>::empty()));
    assert(forall|i: int| 0 <= i < 8 ==> s.skip(8 + e2.len() as int)[i] == e3[i]);
    lemma_dec_nat_eq(s.skip(8 + e2.len() as int), e3, 8);
    lemma_dec_enc_nat(gv.ways.len() as int, 8);
    assert(s.skip(8 + e2.len() as int + 8) =~= e4 + Seq::<u8>::empty());
    assert forall|x: WayV, r: Seq<u8>| way_ok(x) implies #[trigger] way_reader()(
        way_writer()(x) + r,
    ) == Some((x, way_writer()(x).len() as int)) by {
        lemma_dec_enc_way(x, r);
    }
    lemma_dec_enc_list(
        gv.ways,
        Seq::<u8>::empty(),
        way_writer(),
        way_reader(),
        |x: WayV| way_ok(x),
    );
    assert(8 + e2.len() as int + 8 + e4.len() as int == s.len());
    assert((GridV { cells: gv.cells, ways: gv.ways }) =~~= gv);
}

/// Strictness: a blob that decodes is exactly the encoding of what it
/// decodes to, so no corrupt blob silently yields a structure.
#[verifier::rlimit(50)]
pub proof fn lemma_enc_dec_grid(s: Seq<u8>)
    ensures
        dec_grid(s) matches Some(v) ==> s == enc_grid(v),
{
    if dec_grid(s) is Some {
        let v = dec_grid(s).unwrap();
        let nc = dec_nat(s, 8);
        let (cells, u1) = dec_list(s.skip(8), nc as nat, cell_reader()).unwrap();
        let nw = dec_nat(s.skip(8 + u1), 8);
        let (ways, u2) = dec_list(s.skip(8 + u1 + 8), nw as nat, way_reader()).unwrap();
        lemma_dec_nat_bound(s, 8);
        lemma_enc_dec_nat(s, 8);
        assert forall|t: Seq<u8>|
            (#[trigger] cell_reader()(t)) matches Some(w) ==> 0 <= w.1 <= t.len() && t.take(w.1)
                == cell_writer()(w.0) by {
            if cell_reader()(t) is Some {
                lemma_enc_dec_cell(t);
            }
        }
        lemma_enc_dec_list(s.skip(8), nc as nat, cell_writer(), cell_reader());
        lemma_dec_nat_bound(s.skip(8 + u1), 8);
        lemma_enc_dec_nat(s.skip(8 + u1), 8);
        assert forall|t: Seq<u8>|
            (#[trigger] way_reader()(t)) matches Some(w) ==> 0 <= w.1 <= t.len() && t.take(w.1)
                == way_writer()(w.0) by {
            if way_reader()(t) is Some {
                lemma_enc_dec_way(t);
            }
        }
        lemma_enc_dec_list(s.skip(8 + u1 + 8), nw as nat, way_writer(), way_reader());
        assert(cells.len() == nc);
        assert(ways.len() == nw);
        lemma_take_split(s, 8, u1);
        lemma_take_split(s, 8 + u1, 8);
        lemma_take_split(s, 8 + u1 + 8, u2);
        assert(s.skip(8 + u1).take(8) =~= s.take(8 + u1 + 8).skip(8 + u1));
        assert(s.take(8 + u1 + 8 + u2) =~= s);
        assert(s =~= enc_grid(v));
    }
}

/// Skipping twice is skipping the sum.
pub proof fn lemma_skip_skip(s: Seq<u8>, a: int, b: int)
    requires
        0 <= a,
        0 <= b,
        a + b <= s.len(),
    ensures
        s.skip(a).skip(b) == s.skip(a + b),
{
    assert(s.skip(a).skip(b) =~= s.skip(a + b));
}

/// Appends the bytes of one string.
#[verifier::loop_isolation(false)]
fn push_str(out: &mut Vec<u8>, s: &str)
    ensures
        final(out)@ == old(out)@ + enc_str(s@),
        str_ok(s@),
{
    proof {
        lemma_pow256_values();
    }
    let n = s.unicode_len();
    let ghost base = out@;
    push_nat(out, n as u64, 8);
    let mut i: usize = 0;
    while i < n
        invariant
            0 <= i <= n == s@.len(),
            out@ =~= base + enc_nat(s@.len() as int, 8) + enc_list(
                s@.take(i as int),
                char_writer(),
            ),
        decreases n - i,
    {
        let c = s.get_char(i);
        let ghost before = out@;
        let u: u32 = c as u32;
        push_nat(out, u as u64, 4);
        proof {
            assert((u as u64) as int == (c as u32) as int);
            assert(enc_char(c) == enc_nat((u as u64) as int, 4));
            lemma_enc_list_snoc(s@.take(i as int), s@[i as int], char_writer());
            assert(s@.take(i as int + 1) =~= s@.take(i as int).push(s@[i as int]));
            assert(out@ =~= base + enc_nat(s@.len() as int, 8) + enc_list(
                s@.take(i as int + 1),
                char_writer(),
            ));
        }
        i = i + 1;
    }
    assert(s@.take(n as int) =~= s@);
    assert(out@ =~= base + enc_str(s@));
}

/// Appends the bytes of a tag list.
#[verifier::loop_isolation(false)]
fn push_tags(out: &mut Vec<u8>, tags: &Vec<(String, String)>)
    ensures
        final(out)@ == old(out)@ + enc_tags(crate::way::tag_views(tags@)),
        tags_ok(crate::way::tag_views(tags@)),
{
    proof {
        lemma_pow256_values();
    }
    let ghost tv = crate::way::tag_views(tags@);
    let n = tags.len();
    assert(tv.len() == n);
    let ghost base = out@;
    push_nat(out, n as u64, 8);
    let mut i: usize = 0;
    while i < n
        invariant
            0 <= i <= n == tv.len(),
            out@ =~= base + enc_nat(tv.len() as int, 8) + enc_list(tv.take(i as int), tag_writer()),
            forall|m: int| 0 <= m < i ==> tag_ok(#[trigger] tv[m]),
        decreases n - i,
    {
        let ghost before = out@;
        push_str(out, tags[i].0.as_str());
        push_str(out, tags[i].1.as_str());
        proof {
            assert(tv[i as int] == (tags@[i as int].0@, tags@[i as int].1@));
            assert(enc_tag(tv[i as int]) == enc_str(tags@[i as int].0@) + enc_str(
                tags@[i as int].1@,
            ));
            assert(out@ =~= before + enc_tag(tv[i as int]));
            lemma_enc_list_snoc(tv.take(i as int), tv[i as int], tag_writer());
            assert(tv.take(i as int + 1) =~= tv.take(i as int).push(tv[i as int]));
            assert(out@ =~= base + enc_nat(tv.len() as int, 8) + enc_list(
                tv.take(i as int + 1),
                tag_writer(),
            ));
        }
        i = i + 1;
    }
    assert(tv.take(n as int) =~= tv);
    assert(out@ =~= base + enc_tags(tv));
}

/// Appends the bytes of an identity list.
#[verifier::loop_isolation(false)]
fn push_ids(out: &mut Vec<u8>, ids: &Vec<i64>)
    ensures
        final(out)@ == old(out)@ + enc_ids(ids@),
        ids_ok(ids@),
{
    proof {
        lemma_pow256_values();
    }
    let n = ids.len();
    let ghost base = out@;
    push_nat(out, n as u64, 8);
    let mut i: usize = 0;
    while i < n
        invariant
            0 <= i <= n == ids@.len(),
            out@ =~= base + enc_nat(ids@.len() as int, 8) + enc_list(
                ids@.take(i as int),
                i64_writer(),
            ),
        decreases n - i,
    {
        push_i64(out, ids[i]);
        proof {
            lemma_enc_list_snoc(ids@.take(i as int), ids@[i as int], i64_writer());
            assert(ids@.take(i as int + 1) =~= ids@.take(i as int).push(ids@[i as int]));
            assert(out@ =~= base + enc_nat(ids@.len() as int, 8) + enc_list(
                ids@.take(i as int + 1),
                i64_writer(),
            ));
        }
        i = i + 1;
    }
    assert(ids@.take(n as int) =~= ids@);
    assert(out@ =~= base + enc_ids(ids@));
}

/// The byte that stands for one road class.
fn class_byte_exec(h: Highway) -> (b: u8)
    ensures
        b == class_byte(h),
{
    match h {
        Highway::Motorway => 0,
        Highway::Trunk => 1,
        Highway::Primary => 2,
        Highway::Secondary => 3,
        Highway::Tertiary => 4,
        Highway::Unclassified => 5,
        Highway::Residential => 6,
        Highway::MotorwayLink => 7,
        Highway::TrunkLink => 8,
        Highway::PrimaryLink => 9,
        Highway::SecondaryLink => 10,
        Highway::TertiaryLink => 11,
        Highway::LivingStreet => 12,
        Highway::Road => 13,
    }
}

/// The road class a byte stands for.
fn byte_class_exec(b: u8) -> (o: Option<Highway>)
    ensures
        o == byte_class(b),
{
    if b == 0 {
        Some(Highway::Motorway)
    } else if b == 1 {
        Some(Highway::Trunk)
    } else if b == 2 {
        Some(Highway::Primary)
    } else if b == 3 {
        Some(Highway::Secondary)
    } else if b == 4 {
        Some(Highway::Tertiary)
    } else if b == 5 {
        Some(Highway::Unclassified)
    } else if b == 6 {
        Some(Highway::Residential)
    } else if b == 7 {
        Some(Highway::MotorwayLink)
    } else if b == 8 {
        Some(Highway::TrunkLink)
    } else if b == 9 {
        Some(Highway::PrimaryLink)
    } else if b == 10 {
        Some(Highway::SecondaryLink)
    } else if b == 11 {
        Some(Highway::TertiaryLink)
    } else if b == 12 {
        Some(Highway::LivingStreet)
    } else if b == 13 {
        Some(Highway::Road)
    } else {
        None
    }
}

/// Appends the byte of a classification.
fn push_class(out: &mut Vec<u8>, o: Option<Highway>)
    ensures
        final(out)@ == old(out)@ + enc_class(o),
{
    let ghost base = out@;
    match o {
        Some(h) => {
            let b = class_byte_exec(h);
            out.push(b);
        },
        None => {
            out.push(14u8);
        },
    }
    assert(out@ =~= base + enc_class(o));
}

/// Appends the bytes of a speed attribute.
fn push_speed(out: &mut Vec<u8>, o: Option<u8>)
    ensures
        final(out)@ == old(out)@ + enc_speed(o),
{
    let ghost base = out@;
    match o {
        Some(v) => {
            out.push(1u8);
            out.push(v);
        },
        None => {
            out.push(0u8);
        },
    }
    assert(out@ =~= base + enc_speed(o));
}

/// Appends the bytes of one node.
fn push_node(out: &mut Vec<u8>, n: &Node)
    ensures
        final(out)@ == old(out)@ + enc_node(n@),
        node_ok(n@),
{
    let ghost base = out@;
    push_i64(out, n.id);
    push_i64(out, n.lat);
    push_i64(out, n.lon);
    push_tags(out, &n.tags);
    push_ids(out, &n.way_refs);
    assert(out@ =~= base + enc_node(n@));
}

/// Appends the bytes of one cell.
#[verifier::loop_isolation(false)]
fn push_cell(out: &mut Vec<u8>, c: &Cell)
    ensures
        final(out)@ == old(out)@ + enc_cell(c@),
        cell_ok(c@),
{
    proof {
        lemma_pow256_values();
    }
    let ghost cv = c@;
    let ghost base = out@;
    push_i64(out, c.coord.0);
    push_i64(out, c.coord.1);
    proof {
        assert((cv.coord.0 as i64) == c.coord.0);
        assert((cv.coord.1 as i64) == c.coord.1);
    }
    let n = c.nodes.len();
    assert(cv.nodes.len() == n);
    push_nat(out, n as u64, 8);
    let ghost mid = out@;
    let mut i: usize = 0;
    while i < n
        invariant
            0 <= i <= n == cv.nodes.len(),
            out@ =~= mid + enc_list(cv.nodes.take(i as int), node_writer()),
            forall|m: int| 0 <= m < i ==> node_ok(#[trigger] cv.nodes[m]),
        decreases n - i,
    {
        let ghost before = out@;
        push_node(out, &c.nodes[i]);
        proof {
            assert(cv.nodes[i as int] == c.nodes@[i as int]@);
            lemma_enc_list_snoc(cv.nodes.take(i as int), cv.nodes[i as int], node_writer());
            assert(cv.nodes.take(i as int + 1) =~= cv.nodes.take(i as int).push(
                cv.nodes[i as int],
            ));
            assert(out@ =~= mid + enc_list(cv.nodes.take(i as int + 1), node_writer()));
        }
        i = i + 1;
    }
    assert(cv.nodes.take(n as int) =~= cv.nodes);
    assert(out@ =~= base + enc_cell(cv));
}

/// Appends the bytes of one way.
fn push_way(out: &mut Vec<u8>, w: &Way)
    ensures
        final(out)@ == old(out)@ + enc_way(w@),
        way_ok(w@),
{
    let ghost base = out@;
    push_i64(out, w.id);
    push_tags(out, &w.tags);
    push_ids(out, &w.node_ids);
    push_class(out, w.road_class);
    push_speed(out, w.max_speed);
    assert(out@ =~= base + enc_way(w@));
}

impl Grid {
    /// Serializes the whole index into one opaque blob, stable across runs
    /// of the same version: the blob is exactly `enc_grid` of the index.
    #[verifier::loop_isolation(false)]
    pub fn snapshot(&self) -> (out: Vec<u8>)
        ensures
            out@ == enc_grid(self@),
            grid_ok(self@),
    {
        proof {
            lemma_pow256_values();
        }
        let ghost gv = self@;
        let mut out: Vec<u8> = Vec::new();
        assert(out@ =~= Seq::<u8>::empty());
        let nc = self.cells.len();
        assert(gv.cells.len() == nc);
        push_nat(&mut out, nc as u64, 8);
        let mut i: usize = 0;
        while i < nc
            invariant
                0 <= i <= nc == gv.cells.len(),
                out@ =~= enc_nat(gv.cells.len() as int, 8) + enc_list(
                    gv.cells.take(i as int),
                    cell_writer(),
                ),
                forall|m: int| 0 <= m < i ==> cell_ok(#[trigger] gv.cells[m]),
            decreases nc - i,
        {
            push_cell(&mut out, &self.cells[i]);
            proof {
                assert(gv.cells[i as int] == self.cells@[i as int]@);
                lemma_enc_list_snoc(gv.cells.take(i as int), gv.cells[i as int], cell_writer());
                assert(gv.cells.take(i as int + 1) =~= gv.cells.take(i as int).push(
                    gv.cells[i as int],
                ));
            }
            i = i + 1;
        }
        assert(gv.cells.take(nc as int) =~= gv.cells);
        let ghost mid = out@;
        let nw = self.ways.len();
        assert(gv.ways.len() == nw);
        push_nat(&mut out, nw as u64, 8);
        let mut j: usize = 0;
        while j < nw
            invariant
                0 <= j <= nw == gv.ways.len(),
                out@ =~= mid + enc_nat(gv.ways.len() as int, 8) + enc_list(
                    gv.ways.take(j as int),
                    way_writer(),
                ),
                forall|m: int| 0 <= m < j ==> way_ok(#[trigger] gv.ways[m]),
            decreases nw - j,
        {
            push_way(&mut out, &self.ways[j]);
            proof {
                assert(gv.ways[j as int] == self.ways@[j as int]@);
                lemma_enc_list_snoc(gv.ways.take(j as int), gv.ways[j as int], way_writer());
                assert(gv.ways.take(j as int + 1) =~= gv.ways.take(j as int).push(
                    gv.ways[j as int],
                ));
            }
            j = j + 1;
        }
        assert(gv.ways.take(nw as int) =~= gv.ways);
        assert(out@ =~= enc_grid(gv));
        out
    }
}

/// Why a restore was refused: the blob does not decode.
#[derive(Clone, Copy, PartialEq, Eq, Structural, Debug)]
pub enum SnapshotError {
    Corrupt,
}

/// Reads one character.
fn read_char(data: &Vec<u8>, pos: usize) -> (r: Option<(char, usize)>)
    requires
        pos <= data@.len(),
    ensures
        match r {
            Some(v) => v.1 == pos + 4 && pos + 4 <= data@.len() && dec_char(
                data@.skip(pos as int),
            ) == Some((v.0, 4int)),
            None => dec_char(data@.skip(pos as int)) is None,
        },
{
    proof {
        lemma_pow256_values();
    }
    match read_nat(data, pos, 4) {
        None => {
            assert(data@.skip(pos as int).len() < 4);
            None
        },
        Some((u, p2)) => {
            proof {
                lemma_dec_nat_bound(data@.skip(pos as int), 4);
            }
            let u32v: u32 = u as u32;
            assert(u32v as int == dec_nat(data@.skip(pos as int), 4));
            match char_from_u32(u32v) {
                None => {
                    assert(dec_char(data@.skip(pos as int)) is None);
                    None
                },
                Some(c) => {
                    proof {
                        assert(c as u32 == u32v);
                        vstd::utf8::char_u32_cast(c, u32v);
                        assert((u32v as char) == c);
                    }
                    Some((c, p2))
                },
            }
        },
    }
}

/// Reads `count` characters into a string.
#[verifier::rlimit(30)]
fn read_chars(data: &Vec<u8>, pos: usize, count: u64) -> (r: Option<(String, usize)>)
    requires
        pos <= data@.len(),
    ensures
        match r {
            Some(v) => pos <= v.1 <= data@.len() && dec_list(
                data@.skip(pos as int),
                count as nat,
                char_reader(),
            ) == Some((v.0@, (v.1 - pos) as int)),
            None => dec_list(data@.skip(pos as int), count as nat, char_reader()) is None,
        },
    decreases count,
{
    if count == 0 {
        let s = String::new();
        assert(s@ =~= Seq::<char>::empty());
        return Some((s, pos));
    }
    match read_char(data, pos) {
        None => None,
        Some((c, p1)) => {
            match read_chars(data, p1, count - 1) {
                None => {
                    proof {
                        lemma_skip_skip(data@, pos as int, 4);
                    }
                    None
                },
                Some((rest, p2)) => {
                    let mut s = String::new();
                    string_push(&mut s, c);
                    s.append(rest.as_str());
                    proof {
                        lemma_skip_skip(data@, pos as int, 4);
                        assert(s@ =~= seq![c] + rest@);
                    }
                    Some((s, p2))
                },
            }
        },
    }
}

/// Reads one string.
fn read_str(data: &Vec<u8>, pos: usize) -> (r: Option<(String, usize)>)
    requires
        pos <= data@.len(),
    ensures
        match r {
            Some(v) => pos <= v.1 <= data@.len() && dec_str(data@.skip(pos as int)) == Some(
                (v.0@, (v.1 - pos) as int),
            ),
            None => dec_str(data@.skip(pos as int)) is None,
        },
{
    match read_nat(data, pos, 8) {
        None => {
            assert(data@.skip(pos as int).len() < 8);
            None
        },
        Some((n, p1)) => {
            match read_chars(data, p1, n) {
                None => {
                    proof {
                        lemma_skip_skip(data@, pos as int, 8);
                    }
                    None
                },
                Some((s, p2)) => {
                    proof {
                        lemma_skip_skip(data@, pos as int, 8);
                    }
                    Some((s, p2))
                },
            }
        },
    }
}

/// Reads one tag.
fn read_tag(data: &Vec<u8>, pos: usize) -> (r: Option<((String, String), usize)>)
    requires
        pos <= data@.len(),
    ensures
        match r {
            Some(v) => pos <= v.1 <= data@.len() && dec_tag(data@.skip(pos as int)) == Some(
                ((v.0.0@, v.0.1@), (v.1 - pos) as int),
            ),
            None => dec_tag(data@.skip(pos as int)) is None,
        },
{
    match read_str(data, pos) {
        None => None,
        Some((k, p1)) => {
            match read_str(data, p1) {
                None => {
                    proof {
                        lemma_skip_skip(data@, pos as int, p1 - pos);
                    }
                    None
                },
                Some((v, p2)) => {
                    proof {
                        lemma_skip_skip(data@, pos as int, p1 - pos);
                    }
                    Some(((k, v), p2))
                },
            }
        },
    }
}

/// Reads `count` tags.
#[verifier::rlimit(30)]
fn read_tags_n(data: &Vec<u8>, pos: usize, count: u64) -> (r: Option<
    (Vec<(String, String)>, usize),
>)
    requires
        pos <= data@.len(),
    ensures
        match r {
            Some(v) => pos <= v.1 <= data@.len() && dec_list(
                data@.skip(pos as int),
                count as nat,
                tag_reader(),
            ) == Some((crate::way::tag_views(v.0@), (v.1 - pos) as int)),
            None => dec_list(data@.skip(pos as int), count as nat, tag_reader()) is None,
        },
    decreases count,
{
    if count == 0 {
        let v: Vec<(String, String)> = Vec::new();
        assert(crate::way::tag_views(v@) =~= Seq::<(Seq<char>, Seq<char>)>::empty());
        return Some((v, pos));
    }
    match read_tag(data, pos) {
        None => None,
        Some((t, p1)) => {
            match read_tags_n(data, p1, count - 1) {
                None => {
                    proof {
                        lemma_skip_skip(data@, pos as int, p1 - pos);
                    }
                    None
                },
                Some((mut v, p2)) => {
                    let ghost oldv = v@;
                    v.insert(0, t);
                    proof {
                        lemma_skip_skip(data@, pos as int, p1 - pos);
                        assert(v@ =~= seq![t] + oldv);
                        assert(crate::way::tag_views(v@) =~= seq![(t.0@, t.1@)]
                            + crate::way::tag_views(oldv));
                    }
                    Some((v, p2))
                },
            }
        },
    }
}

/// Reads one tag list.
fn read_tags(data: &Vec<u8>, pos: usize) -> (r: Option<(Vec<(String, String)>, usize)>)
    requires
        pos <= data@.len(),
    ensures
        match r {
            Some(v) => pos <= v.1 <= data@.len() && dec_tags(data@.skip(pos as int)) == Some(
                (crate::way::tag_views(v.0@), (v.1 - pos) as int),
            ),
            None => dec_tags(data@.skip(pos as int)) is None,
        },
{
    match read_nat(data, pos, 8) {
        None => {
            assert(data@.skip(pos as int).len() < 8);
            None
        },
        Some((n, p1)) => {
            match read_tags_n(data, p1, n) {
                None => {
                    proof {
                        lemma_skip_skip(data@, pos as int, 8);
                    }
                    None
                },
                Some((v, p2)) => {
                    proof {
                        lemma_skip_skip(data@, pos as int, 8);
                    }
                    Some((v, p2))
                },
            }
        },
    }
}

/// Reads `count` identities.
#[verifier::rlimit(30)]
fn read_ids_n(data: &Vec<u8>, pos: usize, count: u64) -> (r: Option<(Vec<i64>, usize)>)
    requires
        pos <= data@.len(),
    ensures
        match r {
            Some(v) => pos <= v.1 <= data@.len() && dec_list(
                data@.skip(pos as int),
                count as nat,
                i64_reader(),
            ) == Some((v.0@, (v.1 - pos) as int)),
            None => dec_list(data@.skip(pos as int), count as nat, i64_reader()) is None,
        },
    decreases count,
{
    if count == 0 {
        let v: Vec<i64> = Vec::new();
        assert(v@ =~= Seq::<i64>::empty());
        return Some((v, pos));
    }
    match read_i64(data, pos) {
        None => None,
        Some((x, p1)) => {
            match read_ids_n(data, p1, count - 1) {
                None => {
                    proof {
                        lemma_skip_skip(data@, pos as int, 9);
                    }
                    None
                },
                Some((mut v, p2)) => {
                    let ghost oldv = v@;
                    v.insert(0, x);
                    proof {
                        lemma_skip_skip(data@, pos as int, 9);
                        assert(v@ =~= seq![x] + oldv);
                    }
                    Some((v, p2))
                },
            }
        },
    }
}

/// Reads one identity list.
fn read_ids(data: &Vec<u8>, pos: usize) -> (r: Option<(Vec<i64>, usize)>)
    requires
        pos <= data@.len(),
    ensures
        match r {
            Some(v) => pos <= v.1 <= data@.len() && dec_ids(data@.skip(pos as int)) == Some(
                (v.0@, (v.1 - pos) as int),
            ),
            None => dec_ids(data@.skip(pos as int)) is None,
        },
{
    match read_nat(data, pos, 8) {
        None => {
            assert(data@.skip(pos as int).len() < 8);
            None
        },
        Some((n, p1)) => {
            match read_ids_n(data, p1, n) {
                None => {
                    proof {
                        lemma_skip_skip(data@, pos as int, 8);
                    }
                    None
                },
                Some((v, p2)) => {
                    proof {
                        lemma_skip_skip(data@, pos as int, 8);
                    }
                    Some((v, p2))
                },
            }
        },
    }
}

/// Reads one classification byte.
fn read_class(data: &Vec<u8>, pos: usize) -> (r: Option<(Option<Highway>, usize)>)
    requires
        pos <= data@.len(),
    ensures
        match r {
            Some(v) => v.1 == pos + 1 && pos + 1 <= data@.len() && dec_class(
                data@.skip(pos as int),
            ) == Some((v.0, 1int)),
            None => dec_class(data@.skip(pos as int)) is None,
        },
{
    if data.len() - pos < 1 {
        return None;
    }
    let b = data[pos];
    assert(b == data@.skip(pos as int)[0]);
    if b == 14 {
        Some((None, pos + 1))
    } else {
        match byte_class_exec(b) {
            Some(h) => Some((Some(h), pos + 1)),
            None => None,
        }
    }
}

/// Reads one speed attribute.
fn read_speed(data: &Vec<u8>, pos: usize) -> (r: Option<(Option<u8>, usize)>)
    requires
        pos <= data@.len(),
    ensures
        match r {
            Some(v) => pos <= v.1 <= data@.len() && dec_speed(data@.skip(pos as int)) == Some(
                (v.0, (v.1 - pos) as int),
            ),
            None => dec_speed(data@.skip(pos as int)) is None,
        },
{
    if data.len() - pos < 1 {
        return None;
    }
    let b = data[pos];
    assert(b == data@.skip(pos as int)[0]);
    if b == 0 {
        Some((None, pos + 1))
    } else if b == 1 {
        if data.len() - pos < 2 {
            return None;
        }
        let v = data[pos + 1];
        assert(v == data@.skip(pos as int)[1]);
        Some((Some(v), pos + 2))
    } else {
        None
    }
}

/// Reads one node.
#[verifier::rlimit(30)]
fn read_node(data: &Vec<u8>, pos: usize) -> (r: Option<(Node, usize)>)
    requires
        pos <= data@.len(),
    ensures
        match r {
            Some(v) => pos <= v.1 <= data@.len() && dec_node(data@.skip(pos as int)) == Some(
                (v.0@, (v.1 - pos) as int),
            ),
            None => dec_node(data@.skip(pos as int)) is None,
        },
{
    let s0 = pos;
    match read_i64(data, pos) {
        None => None,
        Some((id, p1)) => {
            proof {
                lemma_skip_skip(data@, s0 as int, 9);
            }
            match read_i64(data, p1) {
                None => None,
                Some((lat, p2)) => {
                    proof {
                        lemma_skip_skip(data@, s0 as int, 18);
                    }
                    match read_i64(data, p2) {
                        None => None,
                        Some((lon, p3)) => {
                            proof {
                                lemma_skip_skip(data@, s0 as int, 27);
                            }
                            match read_tags(data, p3) {
                                None => None,
                                Some((tags, p4)) => {
                                    proof {
                                        lemma_skip_skip(data@, s0 as int, p4 - s0);
                                    }
                                    match read_ids(data, p4) {
                                        None => None,
                                        Some((refs, p5)) => {
                                            let n = Node { id, lat, lon, tags, way_refs: refs };
                                            proof {
                                                assert(n@ =~~= dec_node(
                                                    data@.skip(s0 as int),
                                                ).unwrap().0);
                                            }
                                            Some((n, p5))
                                        },
                                    }
                                },
                            }
                        },
                    }
                },
            }
        },
    }
}

/// Reads `count` nodes.
#[verifier::rlimit(30)]
fn read_nodes_n(data: &Vec<u8>, pos: usize, count: u64) -> (r: Option<(Vec<Node>, usize)>)
    requires
        pos <= data@.len(),
    ensures
        match r {
            Some(v) => pos <= v.1 <= data@.len() && dec_list(
                data@.skip(pos as int),
                count as nat,
                node_reader(),
            ) == Some((v.0@.map_values(|n: Node| n@), (v.1 - pos) as int)),
            None => dec_list(data@.skip(pos as int), count as nat, node_reader()) is None,
        },
    decreases count,
{
    if count == 0 {
        let v: Vec<Node> = Vec::new();
        assert(v@.map_values(|n: Node| n@) =~= Seq::<NodeV>::empty());
        return Some((v, pos));
    }
    match read_node(data, pos) {
        None => None,
        Some((x, p1)) => {
            match read_nodes_n(data, p1, count - 1) {
                None => {
                    proof {
                        lemma_skip_skip(data@, pos as int, p1 - pos);
                    }
                    None
                },
                Some((mut v, p2)) => {
                    let ghost oldv = v@;
                    let ghost xv = x@;
                    v.insert(0, x);
                    proof {
                        lemma_skip_skip(data@, pos as int, p1 - pos);
                        assert(v@.map_values(|n: Node| n@) =~= seq![xv] + oldv.map_values(
                            |n: Node| n@,
                        ));
                    }
                    Some((v, p2))
                },
            }
        },
    }
}

/// Reads one cell.
#[verifier::rlimit(30)]
fn read_cell(data: &Vec<u8>, pos: usize) -> (r: Option<(Cell, usize)>)
    requires
        pos <= data@.len(),
    ensures
        match r {
            Some(v) => pos <= v.1 <= data@.len() && dec_cell(data@.skip(pos as int)) == Some(
                (v.0@, (v.1 - pos) as int),
            ),
            None => dec_cell(data@.skip(pos as int)) is None,
        },
{
    let s0 = pos;
    match read_i64(data, pos) {
        None => None,
        Some((c0, p1)) => {
            proof {
                lemma_skip_skip(data@, s0 as int, 9);
            }
            match read_i64(data, p1) {
                None => None,
                Some((c1, p2)) => {
                    proof {
                        lemma_skip_skip(data@, s0 as int, 18);
                    }
                    match read_nat(data, p2, 8) {
                        None => None,
                        Some((n, p3)) => {
                            proof {
                                lemma_skip_skip(data@, s0 as int, 26);
                            }
                            match read_nodes_n(data, p3, n) {
                                None => None,
                                Some((nodes, p4)) => {
                                    let c = Cell { coord: (c0, c1), nodes };
                                    proof {
                                        assert(c@ =~~= dec_cell(data@.skip(s0 as int)).unwrap().0);
                                    }
                                    Some((c, p4))
                                },
                            }
                        },
                    }
                },
            }
        },
    }
}

/// Reads `count` cells.
#[verifier::rlimit(30)]
fn read_cells_n(data: &Vec<u8>, pos: usize, count: u64) -> (r: Option<(Vec<Cell>, usize)>)
    requires
        pos <= data@.len(),
    ensures
        match r {
            Some(v) => pos <= v.1 <= data@.len() && dec_list(
                data@.skip(pos as int),
                count as nat,
                cell_reader(),
            ) == Some((v.0@.map_values(|c: Cell| c@), (v.1 - pos) as int)),
            None => dec_list(data@.skip(pos as int), count as nat, cell_reader()) is None,
        },
    decreases count,
{
    if count == 0 {
        let v: Vec<Cell> = Vec::new();
        assert(v@.map_values(|c: Cell| c@) =~= Seq::<CellV>::empty());
        return Some((v, pos));
    }
    match read_cell(data, pos) {
        None => None,
        Some((x, p1)) => {
            match read_cells_n(data, p1, count - 1) {
                None => {
                    proof {
                        lemma_skip_skip(data@, pos as int, p1 - pos);
                    }
                    None
                },
                Some((mut v, p2)) => {
                    let ghost oldv = v@;
                    let ghost xv = x@;
                    v.insert(0, x);
                    proof {
                        lemma_skip_skip(data@, pos as int, p1 - pos);
                        assert(v@.map_values(|c: Cell| c@) =~= seq![xv] + oldv.map_values(
                            |c: Cell| c@,
                        ));
                    }
                    Some((v, p2))
                },
            }
        },
    }
}

/// Reads one way.
#[verifier::rlimit(30)]
fn read_way(data: &Vec<u8>, pos: usize) -> (r: Option<(Way, usize)>)
    requires
        pos <= data@.len(),
    ensures
        match r {
            Some(v) => pos <= v.1 <= data@.len() && dec_way(data@.skip(pos as int)) == Some(
                (v.0@, (v.1 - pos) as int),
            ),
            None => dec_way(data@.skip(pos as int)) is None,
        },
{
    let s0 = pos;
    match read_i64(data, pos) {
        None => None,
        Some((id, p1)) => {
            proof {
                lemma_skip_skip(data@, s0 as int, 9);
            }
            match read_tags(data, p1) {
                None => None,
                Some((tags, p2)) => {
                    proof {
                        lemma_skip_skip(data@, s0 as int, p2 - s0);
                    }
                    match read_ids(data, p2) {
                        None => None,
                        Some((nids, p3)) => {
                            proof {
                                lemma_skip_skip(data@, s0 as int, p3 - s0);
                            }
                            match read_class(data, p3) {
                                None => None,
                                Some((rc, p4)) => {
                                    proof {
                                        lemma_skip_skip(data@, s0 as int, p4 - s0);
                                    }
                                    match read_speed(data, p4) {
                                        None => None,
                                        Some((ms, p5)) => {
                                            let w = Way {
                                                id,
                                                tags,
                                                node_ids: nids,
                                                road_class: rc,
                                                max_speed: ms,
                                            };
                                            proof {
                                                assert(w@ =~~= dec_way(
                                                    data@.skip(s0 as int),
                                                ).unwrap().0);
                                            }
                                            Some((w, p5))
                                        },
                                    }
                                },
                            }
                        },
                    }
                },
            }
        },
    }
}

/// Reads `count` ways.
#[verifier::rlimit(30)]
fn read_ways_n(data: &Vec<u8>, pos: usize, count: u64) -> (r: Option<(Vec<Way>, usize)>)
    requires
        pos <= data@.len(),
    ensures
        match r {
            Some(v) => pos <= v.1 <= data@.len() && dec_list(
                data@.skip(pos as int),
                count as nat,
                way_reader(),
            ) == Some((v.0@.map_values(|w: Way| w@), (v.1 - pos) as int)),
            None => dec_list(data@.skip(pos as int), count as nat, way_reader()) is None,
        },
    decreases count,
{
    if count == 0 {
        let v: Vec<Way> = Vec::new();
        assert(v@.map_values(|w: Way| w@) =~= Seq::<WayV>::empty());
        return Some((v, pos));
    }
    match read_way(data, pos) {
        None => None,
        Some((x, p1)) => {
            match read_ways_n(data, p1, count - 1) {
                None => {
                    proof {
                        lemma_skip_skip(data@, pos as int, p1 - pos);
                    }
                    None
                },
                Some((mut v, p2)) => {
                    let ghost oldv = v@;
                    let ghost xv = x@;
                    v.insert(0, x);
                    proof {
                        lemma_skip_skip(data@, pos as int, p1 - pos);
                        assert(v@.map_values(|w: Way| w@) =~= seq![xv] + oldv.map_values(
                            |w: Way| w@,
                        ));
                    }
                    Some((v, p2))
                },
            }
        },
    }
}

impl Grid {
    /// Restores an index from a blob. Exactly the blobs that `enc_grid`
    /// produces are accepted, each yielding the index it encodes; every
    /// other blob is refused whole, never a partially populated structure.
    #[verifier::rlimit(30)]
    pub fn restore(bytes: &Vec<u8>) -> (r: Result<Grid, SnapshotError>)
        ensures
            match r {
                Ok(g) => dec_grid(bytes@) == Some(g@),
                Err(_) => dec_grid(bytes@) is None,
            },
    {
        assert(bytes@.skip(0) =~= bytes@);
        match read_nat(bytes, 0, 8) {
            None => Err(SnapshotError::Corrupt),
            Some((nc, p1)) => {
                match read_cells_n(bytes, p1, nc) {
                    None => {
                        proof {
                            lemma_skip_skip(bytes@, 0, 8);
                        }
                        Err(SnapshotError::Corrupt)
                    },
                    Some((cells, p2)) => {
                        proof {
                            lemma_skip_skip(bytes@, 0, 8);
                        }
                        match read_nat(bytes, p2, 8) {
                            None => Err(SnapshotError::Corrupt),
                            Some((nw, p3)) => {
                                match read_ways_n(bytes, p3, nw) {
                                    None => {
                                        proof {
                                            lemma_skip_skip(bytes@, p2 as int, 8);
                                        }
                                        Err(SnapshotError::Corrupt)
                                    },
                                    Some((ways, p4)) => {
                                        proof {
                                            lemma_skip_skip(bytes@, p2 as int, 8);
                                        }
                                        if p4 == bytes.len() {
                                            let g = Grid { cells, ways };
                                            proof {
                                                assert(g@ =~~= dec_grid(bytes@).unwrap());
                                            }
                                            Ok(g)
                                        } else {
                                            Err(SnapshotError::Corrupt)
                                        }
                                    },
                                }
                            },
                        }
                    },
                }
            },
        }
    }
}

} // verus!
