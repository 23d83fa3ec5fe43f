//! Balanced base-5 ("snafu") numerals with digits `=`, `-`, `0`, `1`, `2`
//! standing for -2 .. 2. Numbers are written most significant digit first;
//! digit vectors hold the least significant digit first.

use vstd::prelude::*;
use vstd::string::StringSliceAdditionalSpecFns;

verus! {

/// Value of a snafu digit character, given by its ASCII byte.
pub open spec fn digit_of(b: u8) -> int {
    if b == 61 {  // '='
        -2
    } else if b == 45 {  // '-'
        -1
    } else {
        b - 48  // '0' ..= '2'
    }
}

/// ASCII byte of a snafu digit value.
pub open spec fn byte_of(d: int) -> u8 {
    if d == -2 {
        61u8  // '='
    } else if d == -1 {
        45u8  // '-'
    } else if d == 0 {
        48u8
    } else if d == 1 {
        49u8
    } else {
        50u8
    }
}

pub open spec fn is_snafu_byte(b: u8) -> bool {
    b == 61 || b == 45 || b == 48 || b == 49 || b == 50
}

/// Integer value of a digit vector, least significant digit first.
pub open spec fn snafu_value(ds: Seq<i32>) -> int
    decreases ds.len(),
{
    if ds.len() == 0 {
        0
    } else {
        ds[0] + 5 * snafu_value(ds.drop_first())
    }
}

/// The digits a written numeral denotes, least significant first.
pub open spec fn digits_of(bytes: Seq<u8>) -> Seq<i32> {
    Seq::new(bytes.len(), |i: int| digit_of(bytes[bytes.len() - 1 - i]) as i32)
}

/// Relies on `String::from_utf8`: a vector of ASCII bytes decodes to the
/// string whose characters are exactly those bytes.
#[verifier::external_body]
fn ascii_to_string(v: Vec<u8>) -> (s: String)
    requires
        forall|i: int| 0 <= i < v@.len() ==> #[trigger] v@[i] < 128,
    ensures
        s@.len() == v@.len(),
        forall|i: int| 0 <= i < v@.len() ==> #[trigger] s@[i] as int == v@[i] as int,
{
    String::from_utf8(v).unwrap_or_default()
}

/// Digits of a written snafu numeral, least significant first.
#[verifier::loop_isolation(false)]
pub fn digitize(s: &str) -> (ds: Vec<i32>)
    requires
        forall|i: int|
            0 <= i < s.spec_bytes().len() ==> is_snafu_byte(#[trigger] s.spec_bytes()[i]),
    ensures
        ds@ == digits_of(s.spec_bytes()),
        forall|i: int| 0 <= i < ds@.len() ==> -2 <= #[trigger] ds@[i] <= 2,
{
    let bytes = s.as_bytes();
    let n = bytes.len();
    let mut ds: Vec<i32> = Vec::new();
    let mut i: usize = n;
    while i > 0
        invariant
            i <= n,
            n == s.spec_bytes().len(),
            bytes@ == s.spec_bytes(),
            ds@.len() == n - i,
            forall|k: int|
                0 <= k < ds@.len() ==> #[trigger] ds@[k] == digit_of(s.spec_bytes()[n - 1 - k])
                    && -2 <= ds@[k] <= 2,
        decreases i,
    {
        i -= 1;
        let b = bytes[i];
        let d: i32 = if b == 61 {
            -2
        } else if b == 45 {
            -1
        } else {
            (b - 48) as i32
        };
        ds.push(d);
    }
    proof {
        assert(ds@ =~= digits_of(s.spec_bytes()));
    }
    ds
}

/// Write a digit vector as a snafu numeral, most significant digit first.
#[verifier::loop_isolation(false)]
pub fn snafu(ds: &Vec<i32>) -> (s: String)
    requires
        forall|i: int| 0 <= i < ds@.len() ==> -2 <= #[trigger] ds@[i] <= 2,
    ensures
        s@.len() == ds@.len(),
        forall|i: int|
            0 <= i < s@.len() ==> #[trigger] s@[i] as int == byte_of(ds@[i] as int) as int,
{
    let mut bytes: Vec<u8> = Vec::new();
    let mut i: usize = 0;
    while i < ds.len()
        invariant
            i <= ds@.len(),
            bytes@.len() == i,
            forall|k: int| 0 <= k < i ==> #[trigger] bytes@[k] == byte_of(ds@[k] as int),
            forall|k: int| 0 <= k < i ==> #[trigger] bytes@[k] < 128,
        decreases ds@.len() - i,
    {
        let d = ds[i];
        let b: u8 = if d == -2 {
            61
        } else if d == -1 {
            45
        } else if d == 0 {
            48
        } else if d == 1 {
            49
        } else {
            50
        };
        bytes.push(b);
        i += 1;
    }
    ascii_to_string(bytes)
}

/// Digit-by-digit sum with carry, least significant digit first. Returns the
/// digits and the carry left after the last position.
pub open spec fn add_digits(a: Seq<i32>, b: Seq<i32>, w: int, carry: int) -> (Seq<i32>, int)
    decreases (if a.len() > b.len() {
        a.len() as int
    } else {
        b.len() as int
    }) - w,
{
    let n: int = if a.len() > b.len() {
        a.len() as int
    } else {
        b.len() as int
    };
    if w < 0 || w >= n {
        (Seq::empty(), carry)
    } else {
        let av: int = if w < a.len() {
            a[w] as int
        } else {
            0
        };
        let bv: int = if w < b.len() {
            b[w] as int
        } else {
            0
        };
        let sum = av + bv + carry;
        let q = sum / 5;
        let r = sum % 5;
        let q2: int = if r > 2 {
            q + 1
        } else {
            q
        };
        let r2: int = if r > 2 {
            r - 5
        } else {
            r
        };
        let (rest, fc) = add_digits(a, b, w + 1, q2);
        (seq![r2 as i32] + rest, fc)
    }
}

/// Euclidean quotient and remainder by five.
fn div_rem_euclid5(v: i32) -> (qr: (i32, i32))
    requires
        -100 <= v <= 100,
    ensures
        qr.0 == v as int / 5,
        qr.1 == v as int % 5,
{
    let q = v.checked_div_euclid(5).unwrap();
    let r = v.checked_rem_euclid(5).unwrap();
    (q, r)
}

/// Add two snafu numerals digit by digit: the result writes out exactly the
/// digits of `add_digits` over the operands' digits, most significant first.
/// A carry left after the last position is dropped, as the positional walk
/// describes.
#[verifier::loop_isolation(false)]
pub fn add_snafu(r: &str, s: &str) -> (t: String)
    requires
        forall|i: int|
            0 <= i < r.spec_bytes().len() ==> is_snafu_byte(#[trigger] r.spec_bytes()[i]),
        forall|i: int|
            0 <= i < s.spec_bytes().len() ==> is_snafu_byte(#[trigger] s.spec_bytes()[i]),
    ensures
        ({
            let sum = add_digits(digits_of(r.spec_bytes()), digits_of(s.spec_bytes()), 0, 0).0;
            t@.len() == sum.len() && forall|i: int|
                0 <= i < t@.len() ==> #[trigger] t@[i] as int == byte_of(
                    sum[sum.len() - 1 - i] as int,
                ) as int
        }),
{
    let da = digitize(r);
    let db = digitize(s);
    let ghost a = da@;
    let ghost b = db@;
    let n = if da.len() > db.len() {
        da.len()
    } else {
        db.len()
    };
    let mut result: Vec<i32> = Vec::new();
    let mut carry: i32 = 0;
    let mut w: usize = 0;
    while w < n
        invariant
            w <= n,
            n == (if a.len() > b.len() {
                a.len() as int
            } else {
                b.len() as int
            }),
            da@ == a,
            db@ == b,
            -1 <= carry <= 1,
            forall|k: int| 0 <= k < result@.len() ==> -2 <= #[trigger] result@[k] <= 2,
            result@.len() == w,
            result@ + add_digits(a, b, w as int, carry as int).0 == add_digits(a, b, 0, 0).0,
        decreases n - w,
    {
        let ghost carry0 = carry;
        let ghost res0 = result@;
        let av: i32 = if w < da.len() {
            da[w]
        } else {
            0
        };
        let bv: i32 = if w < db.len() {
            db[w]
        } else {
            0
        };
        let sum = av + bv + carry;
        let (q, rr) = div_rem_euclid5(sum);
        let (q2, r2) = if rr > 2 {
            (q + 1, rr - 5)
        } else {
            (q, rr)
        };
        result.push(r2);
        carry = q2;
        proof {
            let step = add_digits(a, b, w as int, carry0 as int);
            let next = add_digits(a, b, w + 1, carry as int);
            assert(step.0 == seq![r2] + next.0);
            assert(res0 + step.0 =~= result@ + next.0);
        }
        w += 1;
    }
    proof {
        assert(add_digits(a, b, w as int, carry as int).0 =~= Seq::<i32>::empty());
        assert(result@ + Seq::<i32>::empty() =~= result@);
    }

    // most significant digit first
    let mut rev: Vec<i32> = Vec::new();
    let mut j: usize = result.len();
    while j > 0
        invariant
            j <= result@.len(),
            rev@.len() == result@.len() - j,
            forall|k: int|
                0 <= k < rev@.len() ==> #[trigger] rev@[k] == result@[result@.len() - 1 - k],
            forall|k: int| 0 <= k < result@.len() ==> -2 <= #[trigger] result@[k] <= 2,
        decreases j,
    {
        j -= 1;
        rev.push(result[j]);
    }
    snafu(&rev)
}


pub open spec fn pow5(k: nat) -> int
    decreases k,
{
    if k == 0 {
        1
    } else {
        5 * pow5((k - 1) as nat)
    }
}

/// Value of the digits from position `w` on.
pub open spec fn value_from(s: Seq<i32>, w: int) -> int
    decreases s.len() - w,
{
    if w < 0 || w >= s.len() {
        0
    } else {
        s[w] + 5 * value_from(s, w + 1)
    }
}

proof fn lemma_value_shift(s: Seq<i32>, w: int)
    requires
        w >= 1,
        s.len() >= 1,
    ensures
        value_from(s, w) == value_from(s.drop_first(), w - 1),
    decreases s.len() - w,
{
    if w < s.len() {
        lemma_value_shift(s, w + 1);
        assert(s.drop_first()[w - 1] == s[w]);
    }
}

proof fn lemma_value_zero(s: Seq<i32>)
    ensures
        value_from(s, 0) == snafu_value(s),
    decreases s.len(),
{
    if s.len() > 0 {
        lemma_value_shift(s, 1);
        lemma_value_zero(s.drop_first());
    }
}

/// Positional correctness of the carry walk: up to the carry left after the
/// last position, the digits of `add_digits` stand for the sum of the
/// operands' values.
proof fn lemma_add_digits_value(a: Seq<i32>, b: Seq<i32>, w: int, carry: int)
    requires
        0 <= w,
    ensures
        ({
            let n: int = if a.len() > b.len() {
                a.len() as int
            } else {
                b.len() as int
            };
            let (ds, fc) = add_digits(a, b, w, carry);
            w <= n ==> snafu_value(ds) + fc * pow5((n - w) as nat) == value_from(a, w)
                + value_from(b, w) + carry
        }),
    decreases (if a.len() > b.len() {
        a.len() as int
    } else {
        b.len() as int
    }) - w,
{
    let n: int = if a.len() > b.len() {
        a.len() as int
    } else {
        b.len() as int
    };
    if w < n {
        let av: int = if w < a.len() {
            a[w] as int
        } else {
            0
        };
        let bv: int = if w < b.len() {
            b[w] as int
        } else {
            0
        };
        let sum = av + bv + carry;
        let q = sum / 5;
        let r = sum % 5;
        let q2: int = if r > 2 {
            q + 1
        } else {
            q
        };
        let r2: int = if r > 2 {
            r - 5
        } else {
            r
        };
        vstd::arithmetic::div_mod::lemma_fundamental_div_mod(sum, 5);
        assert(q2 * 5 + r2 == sum);
        let (rest, fc) = add_digits(a, b, w + 1, q2);
        lemma_add_digits_value(a, b, w + 1, q2);
        let ds = add_digits(a, b, w, carry).0;
        assert(ds == seq![r2 as i32] + rest);
        assert(ds.drop_first() =~= rest);
        assert(snafu_value(ds) == r2 + 5 * snafu_value(rest));
        assert(value_from(a, w) == av + 5 * value_from(a, w + 1));
        assert(value_from(b, w) == bv + 5 * value_from(b, w + 1));
        assert(pow5((n - w) as nat) == 5 * pow5((n - w - 1) as nat));
        assert(snafu_value(rest) + fc * pow5((n - w - 1) as nat) == value_from(a, w + 1)
            + value_from(b, w + 1) + q2);
        assert(fc * pow5((n - w) as nat) == 5 * (fc * pow5((n - w - 1) as nat)))
            by (nonlinear_arith)
            requires
                pow5((n - w) as nat) == 5 * pow5((n - w - 1) as nat),
        ;
    }
}

/// The snafu sum is value-correct: the digits written by `add_digits` stand
/// for the exact sum of the operands whenever no carry is left after the
/// last position.
pub proof fn lemma_add_snafu_value(a: Seq<i32>, b: Seq<i32>)
    ensures
        ({
            let n: nat = if a.len() > b.len() {
                a.len()
            } else {
                b.len()
            };
            let (ds, fc) = add_digits(a, b, 0, 0);
            snafu_value(ds) + fc * pow5(n) == snafu_value(a) + snafu_value(b)
        }),
{
    lemma_add_digits_value(a, b, 0, 0);
    lemma_value_zero(a);
    lemma_value_zero(b);
    if a.len() == 0 && b.len() == 0 {
        assert(pow5(0) == 1);
    }
}

} // verus!
