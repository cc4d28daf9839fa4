//! Numbers as ASCII digit text: the octal fields of a header record and the
//! decimal ids of an account database.
use vstd::prelude::*;

verus! {

/// ASCII `'0'`.
pub const ZERO_DIGIT: u8 = 48;

/// ASCII `'+'`.
pub const PLUS_SIGN: u8 = 43;

/// `b` is a digit of the given radix (at most 10).
pub open spec fn is_digit(b: u8, radix: nat) -> bool {
    48 <= b && b < 48 + radix
}

/// Every byte of `s` is a digit of the given radix.
pub open spec fn all_digits(s: Seq<u8>, radix: nat) -> bool {
    forall|i: int| 0 <= i < s.len() ==> is_digit(#[trigger] s[i], radix)
}

/// The value of one digit; bytes below `'0'` count as zero.
pub open spec fn digit_value(b: u8) -> nat {
    if b >= 48 {
        (b - 48) as nat
    } else {
        0
    }
}

/// The number that the digit string `s` denotes, most significant digit first.
pub open spec fn digits_value(s: Seq<u8>, radix: nat) -> nat
    decreases s.len(),
{
    if s.len() == 0 {
        0
    } else {
        digits_value(s.drop_last(), radix) * radix + digit_value(s.last())
    }
}

/// The text without one leading `'+'`, if it has one.
pub open spec fn unsigned_body(s: Seq<u8>) -> Seq<u8> {
    if s.len() > 0 && s[0] == 43 {
        s.skip(1)
    } else {
        s
    }
}

/// Reading of `s` as an unsigned number: an optional `'+'`, then one or more
/// digits, whose value is at most `limit`.  Anything else has no value.
pub open spec fn parse_unsigned(s: Seq<u8>, radix: nat, limit: nat) -> Option<nat> {
    let body = unsigned_body(s);
    if body.len() > 0 && all_digits(body, radix) && digits_value(body, radix) <= limit {
        Some(digits_value(body, radix))
    } else {
        None
    }
}

/// The octal digits of `n`, most significant first, without leading zeros
/// (a single `'0'` for zero).
pub open spec fn octal_digits(n: nat) -> Seq<u8>
    decreases n,
{
    if n < 8 {
        seq![(48 + n) as u8]
    } else {
        octal_digits(n / 8).push((48 + n % 8) as u8)
    }
}

/// `n` in octal, padded on the left with `'0'` to at least `width` digits.
pub open spec fn octal_text(n: nat, width: nat) -> Seq<u8> {
    let digits = octal_digits(n);
    if digits.len() >= width {
        digits
    } else {
        Seq::new((width - digits.len()) as nat, |i: int| 48u8) + digits
    }
}

/// Eight to the power `k`.
pub open spec fn pow8(k: nat) -> nat
    decreases k,
{
    if k == 0 {
        1
    } else {
        8 * pow8((k - 1) as nat)
    }
}

/// A prefix of a digit string never denotes more than the whole string.
pub proof fn lemma_digits_value_prefix(s: Seq<u8>, k: int, radix: nat)
    requires
        0 <= k <= s.len(),
        radix >= 1,
    ensures
        digits_value(s.take(k), radix) <= digits_value(s, radix),
    decreases s.len() - k,
{
    if k == s.len() {
        assert(s.take(k) =~= s);
    } else {
        lemma_digits_value_prefix(s, k + 1, radix);
        let t = s.take(k + 1);
        assert(t.drop_last() =~= s.take(k));
        let v = digits_value(s.take(k), radix);
        assert(v * radix >= v) by (nonlinear_arith)
            requires
                radix >= 1,
                v >= 0,
        ;
    }
}

/// The octal digits of a number are octal digits, at least one of them, and
/// denote that number.
pub proof fn lemma_octal_digits(n: nat)
    ensures
        octal_digits(n).len() >= 1,
        all_digits(octal_digits(n), 8),
        digits_value(octal_digits(n), 8) == n,
    decreases n,
{
    if n < 8 {
        let s = octal_digits(n);
        assert(s.drop_last() =~= Seq::<u8>::empty());
        assert(digits_value(s.drop_last(), 8) == 0);
    } else {
        lemma_octal_digits(n / 8);
        let s = octal_digits(n);
        assert(s.drop_last() =~= octal_digits(n / 8));
        assert(s.last() == (48 + n % 8) as u8);
    }
}

/// Leading zeros do not change the number that a digit string denotes.
pub proof fn lemma_leading_zeros(zeros: nat, digits: Seq<u8>, radix: nat)
    ensures
        digits_value(Seq::new(zeros, |i: int| 48u8) + digits, radix) == digits_value(
            digits,
            radix,
        ),
    decreases digits.len(),
{
    let z = Seq::new(zeros, |i: int| 48u8);
    if digits.len() == 0 {
        assert(z + digits =~= z);
        lemma_all_zero_value(zeros, radix);
    } else {
        lemma_leading_zeros(zeros, digits.drop_last(), radix);
        assert((z + digits).drop_last() =~= z + digits.drop_last());
        assert((z + digits).last() == digits.last());
    }
}

/// A string of zeros denotes zero.
pub proof fn lemma_all_zero_value(zeros: nat, radix: nat)
    ensures
        digits_value(Seq::new(zeros, |i: int| 48u8), radix) == 0,
    decreases zeros,
{
    let z = Seq::new(zeros, |i: int| 48u8);
    if zeros > 0 {
        lemma_all_zero_value((zeros - 1) as nat, radix);
        assert(z.drop_last() =~= Seq::new((zeros - 1) as nat, |i: int| 48u8));
        assert(z.last() == 48u8);
        assert(0 * radix == 0) by (nonlinear_arith);
    }
}

/// Octal text is made of octal digits, is at least as wide as asked, and
/// denotes the number it was made from.
pub proof fn lemma_octal_text(n: nat, width: nat)
    ensures
        octal_text(n, width).len() >= width,
        octal_text(n, width).len() >= 1,
        octal_text(n, width).len() == if octal_digits(n).len() >= width {
            octal_digits(n).len()
        } else {
            width
        },
        all_digits(octal_text(n, width), 8),
        digits_value(octal_text(n, width), 8) == n,
{
    lemma_octal_digits(n);
    let digits = octal_digits(n);
    if digits.len() < width {
        lemma_leading_zeros((width - digits.len()) as nat, digits, 8);
    }
}

/// A number below `8^k` has at most `k` octal digits, and conversely.
pub proof fn lemma_octal_digits_len(n: nat, k: nat)
    requires
        k >= 1,
    ensures
        octal_digits(n).len() <= k <==> n < pow8(k),
    decreases k,
{
    reveal_with_fuel(pow8, 2);
    if n < 8 {
        lemma_pow8_at_least_8(k);
    } else {
        if k == 1 {
            lemma_octal_digits(n / 8);
        } else {
            lemma_octal_digits_len(n / 8, (k - 1) as nat);
        }
    }
}

/// `8^k` is at least 8 for `k >= 1`.
pub proof fn lemma_pow8_at_least_8(k: nat)
    requires
        k >= 1,
    ensures
        pow8(k) >= 8,
    decreases k,
{
    reveal_with_fuel(pow8, 2);
    if k > 1 {
        lemma_pow8_at_least_8((k - 1) as nat);
    }
}

/// The powers of eight that bound the numeric fields of a header.
pub proof fn lemma_pow8_values()
    ensures
        pow8(1) == 8,
        pow8(3) == 512,
        pow8(6) == 262144,
        pow8(7) == 2097152,
        pow8(8) == 16777216,
        pow8(11) == 8589934592,
        pow8(12) == 68719476736,
{
    reveal_with_fuel(pow8, 13);
}

/// Writes `n` in octal, padded on the left with `'0'` to at least `width`
/// digits.
pub fn format_octal(n: u64, width: usize) -> (text: Vec<u8>)
    ensures
        text@ == octal_text(n as nat, width as nat),
{
    let mut digits: Vec<u8> = Vec::new();
    digits.push(ZERO_DIGIT + (n % 8) as u8);
    let mut rest: u64 = n / 8;
    while rest > 0
        invariant
            octal_digits(n as nat) == (if rest > 0 {
                octal_digits(rest as nat)
            } else {
                Seq::<u8>::empty()
            }) + digits@,
        decreases rest,
    {
        let ghost before = digits@;
        digits.insert(0, ZERO_DIGIT + (rest % 8) as u8);
        proof {
            let d = (48 + rest % 8) as u8;
            assert(digits@ =~= seq![d] + before);
            if rest < 8 {
                assert(octal_digits(rest as nat) + before =~= Seq::<u8>::empty() + digits@);
            } else {
                assert(octal_digits(rest as nat) + before =~= octal_digits((rest / 8) as nat)
                    + digits@);
            }
        }
        rest = rest / 8;
    }
    assert(digits@ =~= octal_digits(n as nat));
    let mut text: Vec<u8> = Vec::new();
    while text.len() < width && width - text.len() > digits.len()
        invariant
            text@ == Seq::new(text@.len(), |i: int| 48u8),
            text@.len() <= width,
            text@.len() + digits@.len() <= width || text@.len() == 0,
        decreases width - text.len(),
    {
        text.push(ZERO_DIGIT);
        assert(text@ =~= Seq::new(text@.len(), |i: int| 48u8));
    }
    let ghost padding = text@;
    text.extend_from_slice(digits.as_slice());
    assert(text@ =~= padding + digits@);
    assert(padding + digits@ =~= octal_text(n as nat, width as nat)) by {
        if digits@.len() >= width {
            assert(padding =~= Seq::<u8>::empty());
        }
    }
    text
}

/// Reads `text` as an unsigned number of the given radix that is at most
/// `limit`: an optional `'+'`, then digits only, at least one.
pub fn parse_number(text: &[u8], radix: u64, limit: u64) -> (value: Option<u64>)
    requires
        2 <= radix <= 10,
    ensures
        value == match parse_unsigned(text@, radix as nat, limit as nat) {
            Some(n) => Some(n as u64),
            None => None,
        },
        value matches Some(n) ==> n <= limit,
{
    let start: usize = if text.len() > 0 && text[0] == PLUS_SIGN {
        1
    } else {
        0
    };
    let ghost body = unsigned_body(text@);
    assert(body =~= text@.skip(start as int));
    if start == text.len() {
        return None;
    }
    let mut i: usize = start;
    let mut acc: u64 = 0;
    while i < text.len()
        invariant
            start <= i <= text@.len(),
            2 <= radix <= 10,
            body == unsigned_body(text@),
            body == text@.skip(start as int),
            all_digits(body.take(i - start), radix as nat),
            acc == digits_value(body.take(i - start), radix as nat),
            acc <= limit,
        decreases text.len() - i,
    {
        let b = text[i];
        let ghost k = i - start;
        proof {
            assert(body.take(k + 1).drop_last() =~= body.take(k));
            assert(body.take(k + 1).last() == b);
            assert(body[k] == b);
        }
        if b < ZERO_DIGIT || (b - ZERO_DIGIT) as u64 >= radix {
            assert(!is_digit(body[k], radix as nat));
            return None;
        }
        let d: u64 = (b - ZERO_DIGIT) as u64;
        if d > limit || acc > (limit - d) / radix {
            proof {
                let next = digits_value(body.take(k + 1), radix as nat);
                lemma_digits_value_prefix(body, k + 1, radix as nat);
                assert(acc * radix + d > limit) by (nonlinear_arith)
                    requires
                        d > limit || acc > (limit - d) / (radix as int),
                        radix >= 2,
                        acc >= 0,
                ;
                assert(next > limit);
            }
            return None;
        }
        proof {
            assert(acc * radix + d <= limit) by (nonlinear_arith)
                requires
                    acc <= (limit - d) / (radix as int),
                    radix >= 2,
                    d <= limit,
                    acc >= 0,
            ;
            assert forall|j: int| 0 <= j < k + 1 implies is_digit(
                #[trigger] body.take(k + 1)[j],
                radix as nat,
            ) by {
                if j < k {
                    assert(body.take(k)[j] == body.take(k + 1)[j]);
                }
            }
        }
        acc = acc * radix + d;
        i = i + 1;
    }
    assert(body.take(i - start) =~= body);
    Some(acc)
}

} // verus!
