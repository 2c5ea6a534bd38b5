//! The numeric value model.
//!
//! A numeric text is an optional sign, a run of digits, and at most one dot
//! (`"22"`, `"-3.5"`, `".5"`, `"7."`).  Every such text is valued exactly as
//! a fixed-point integer scaled by `10^18`; fractional digits beyond the
//! eighteenth are truncated, and an integer part of more than `10^18 - 1`
//! makes the text unparsable.  Any text that is not numeric — including the
//! empty text — is valued `0` rather than rejected: the evaluator's
//! comparisons are total.

use vstd::prelude::*;

verus! {

use vstd::arithmetic::power::pow;
use vstd::arithmetic::power::lemma_pow_adds;
use vstd::arithmetic::power::lemma_pow_positive;
use vstd::arithmetic::power::lemma_pow_increases;

/// How many fractional decimal digits the value model keeps.
pub const FRAC_DIGITS: usize = 18;

/// One unit is `10^-18`: the scale factor between a text's mathematical
/// value and its fixed-point value.
pub const SCALE: i128 = 1_000_000_000_000_000_000;

/// The largest integer-part value a numeric text may carry.
pub const MAX_INT_PART: u64 = 999_999_999_999_999_999;

/// A decimal digit.
pub open spec fn is_digit(c: char) -> bool {
    '0' <= c && c <= '9'
}

/// The numeric value of one digit character.
pub open spec fn digit_val(c: char) -> int {
    c as int - '0' as int
}

/// Every character of `s` is a decimal digit.
pub open spec fn all_digits(s: Seq<char>) -> bool {
    forall|i: int| 0 <= i < s.len() ==> is_digit(s[i])
}

/// The value of a digit run read in base ten.
pub open spec fn digits_val(s: Seq<char>) -> int
    decreases s.len(),
{
    if s.len() == 0 {
        0
    } else {
        digits_val(s.drop_last()) * 10 + digit_val(s.last())
    }
}

/// The length of the sign prefix of a numeric text: one for `+` or `-`.
pub open spec fn sign_len(s: Seq<char>) -> int {
    if s.len() > 0 && (s[0] == '-' || s[0] == '+') {
        1
    } else {
        0
    }
}

/// A numeric text is negative when it starts with `-`.
pub open spec fn is_negative(s: Seq<char>) -> bool {
    s.len() > 0 && s[0] == '-'
}

/// The text with its sign stripped.
pub open spec fn body_of(s: Seq<char>) -> Seq<char> {
    s.skip(sign_len(s))
}

/// The index of the first dot of `s`, or `s.len()` if there is none.
pub open spec fn first_dot(s: Seq<char>) -> int
    decreases s.len(),
{
    if s.len() == 0 {
        0
    } else if s[0] == '.' {
        0
    } else {
        1 + first_dot(s.skip(1))
    }
}

/// The digits before the first dot.
pub open spec fn int_part(s: Seq<char>) -> Seq<char> {
    body_of(s).take(first_dot(body_of(s)))
}

/// The digits after the first dot; empty when there is no dot.
pub open spec fn frac_part(s: Seq<char>) -> Seq<char> {
    let b = body_of(s);
    if first_dot(b) == b.len() {
        Seq::empty()
    } else {
        b.skip(first_dot(b) + 1)
    }
}

/// The fractional digits the value model keeps.
pub open spec fn frac_kept(fp: Seq<char>) -> Seq<char> {
    if fp.len() <= FRAC_DIGITS {
        fp
    } else {
        fp.take(FRAC_DIGITS as int)
    }
}

/// Whether a text is numeric: at least one digit, all digits around at most
/// one dot, and an integer part that fits the model.
pub open spec fn dec_valid(s: Seq<char>) -> bool {
    &&& int_part(s).len() + frac_part(s).len() >= 1
    &&& all_digits(int_part(s))
    &&& all_digits(frac_part(s))
    &&& digits_val(int_part(s)) <= MAX_INT_PART as int
}

/// The magnitude of a valid numeric text, in units of `10^-18`.
pub open spec fn dec_mag(s: Seq<char>) -> int {
    let f = frac_kept(frac_part(s));
    digits_val(int_part(s)) * pow(10, FRAC_DIGITS as nat) + digits_val(f) * pow(
        10,
        (FRAC_DIGITS as int - f.len()) as nat,
    )
}

/// The value of any text, in units of `10^-18`: signed magnitude for numeric
/// texts, and `0` for everything else.
pub open spec fn dec_val(s: Seq<char>) -> int {
    if dec_valid(s) {
        if is_negative(s) {
            -dec_mag(s)
        } else {
            dec_mag(s)
        }
    } else {
        0
    }
}

/// The value a `LIMIT` argument denotes: the integer part of the text's
/// value, truncated toward zero, saturated to `usize`, and `0` for
/// non-positive or unparsable texts.
pub open spec fn limit_of(s: Seq<char>) -> int {
    let v = if dec_val(s) <= 0 {
        0
    } else {
        dec_val(s) / pow(10, FRAC_DIGITS as nat)
    };
    if v > usize::MAX as int {
        usize::MAX as int
    } else {
        v
    }
}

/// The scale constant is ten to the kept fractional digits.
pub proof fn lemma_scale()
    ensures
        SCALE as int == pow(10, FRAC_DIGITS as nat),
{
    reveal_with_fuel(pow, 19);
}

/// A digit run values to at least zero and below ten to its length.
pub proof fn lemma_digits_val_bounds(s: Seq<char>)
    requires
        all_digits(s),
    ensures
        0 <= digits_val(s) < pow(10, s.len()),
    decreases s.len(),
{
    reveal(pow);
    if s.len() == 0 {
        assert(pow(10, 0) == 1);
    } else {
        let d = s.drop_last();
        assert(forall|i: int| 0 <= i < d.len() ==> d[i] == s[i]);
        lemma_digits_val_bounds(d);
        assert(pow(10, s.len()) == 10 * pow(10, (s.len() - 1) as nat));
        assert(is_digit(s.last()));
    }
}

/// Reading more digits never shrinks the value.
pub proof fn lemma_digits_val_prefix(s: Seq<char>, i: int)
    requires
        all_digits(s),
        0 <= i <= s.len(),
    ensures
        digits_val(s.take(i)) <= digits_val(s),
    decreases s.len(),
{
    if i == s.len() {
        assert(s.take(i) =~= s);
    } else {
        let d = s.drop_last();
        assert(forall|j: int| 0 <= j < d.len() ==> d[j] == s[j]);
        lemma_digits_val_bounds(d);
        assert(is_digit(s.last()));
        lemma_digits_val_prefix(d, i);
        assert(s.take(i) =~= d.take(i));
    }
}

/// `first_dot` is the one index whose prefix is dot-free and which holds a
/// dot or ends the text.
pub proof fn lemma_first_dot_is(s: Seq<char>, k: int)
    requires
        0 <= k <= s.len(),
        forall|i: int| 0 <= i < k ==> s[i] != '.',
        k < s.len() ==> s[k] == '.',
    ensures
        first_dot(s) == k,
    decreases s.len(),
{
    if k == 0 {
        if s.len() > 0 {
            assert(s[0] == '.');
        }
    } else {
        let t = s.skip(1);
        assert(forall|i: int| 0 <= i < k - 1 ==> t[i] == s[i + 1] && s[i + 1] != '.');
        assert(k - 1 < t.len() ==> t[k - 1] == s[k]);
        lemma_first_dot_is(t, k - 1);
    }
}

/// Scans the maximal digit run of `s` that starts at `from`.
fn scan_digits(s: &str, from: usize) -> (end: usize)
    requires
        from <= s@.len(),
    ensures
        from <= end <= s@.len(),
        forall|j: int| from <= j < end ==> is_digit(s@[j]),
        end < s@.len() ==> !is_digit(s@[end as int]),
{
    let n = s.unicode_len();
    let mut i = from;
    loop
        invariant
            from <= i <= n,
            n == s@.len(),
            forall|j: int| from <= j < i ==> is_digit(s@[j]),
        ensures
            from <= i <= n,
            forall|j: int| from <= j < i ==> is_digit(s@[j]),
            i < n ==> !is_digit(s@[i as int]),
        decreases n - i,
    {
        if i >= n {
            break ;
        }
        let c = s.get_char(i);
        if !('0' <= c && c <= '9') {
            break ;
        }
        i = i + 1;
    }
    i
}

/// Values the digit run `s[from..to]`, or reports that it exceeds the
/// integer-part bound.
fn digits_value(s: &str, from: usize, to: usize) -> (r: Option<u64>)
    requires
        from <= to <= s@.len(),
        forall|j: int| from <= j < to ==> is_digit(s@[j]),
    ensures
        match r {
            Some(v) => v == digits_val(s@.subrange(from as int, to as int)) && v
                <= MAX_INT_PART,
            None => digits_val(s@.subrange(from as int, to as int)) > MAX_INT_PART as int,
        },
{
    let mut acc: u64 = 0;
    let mut i = from;
    while i < to
        invariant
            from <= i <= to <= s@.len(),
            forall|j: int| from <= j < to ==> is_digit(s@[j]),
            acc == digits_val(s@.subrange(from as int, i as int)),
            acc <= MAX_INT_PART,
        decreases to - i,
    {
        let c = s.get_char(i);
        let d: u64 = (c as u32 as u64) - 48;
        proof {
            assert(is_digit(s@[i as int]));
            assert(d == digit_val(s@[i as int]));
            let cur = s@.subrange(from as int, i as int);
            let next = s@.subrange(from as int, i + 1);
            assert(next.drop_last() =~= cur);
            assert(next.last() == s@[i as int]);
        }
        let next_acc: u64 = acc * 10 + d;
        i = i + 1;
        if next_acc > MAX_INT_PART {
            proof {
                let whole = s@.subrange(from as int, to as int);
                let pre = s@.subrange(from as int, i as int);
                assert(forall|j: int| 0 <= j < whole.len() ==> is_digit(whole[j]));
                assert(pre =~= whole.take(i - from));
                lemma_digits_val_prefix(whole, i - from);
            }
            return None;
        }
        acc = next_acc;
    }
    Some(acc)
}

/// Computes `10^e` for the small exponents the value model uses.
fn pow10(e: usize) -> (r: i128)
    requires
        e <= FRAC_DIGITS,
    ensures
        r == pow(10, e as nat),
{
    proof {
        lemma_scale();
        reveal(pow);
    }
    let mut r: i128 = 1;
    let mut j: usize = 0;
    while j < e
        invariant
            j <= e <= FRAC_DIGITS,
            r == pow(10, j as nat),
            SCALE as int == pow(10, FRAC_DIGITS as nat),
        decreases e - j,
    {
        proof {
            lemma_pow_increases(10, j as nat, FRAC_DIGITS as nat);
            lemma_pow_positive(10, j as nat);
            assert(pow(10, (j + 1) as nat) == 10 * pow(10, j as nat)) by {
                reveal(pow);
            }
        }
        r = r * 10;
        j = j + 1;
    }
    r
}

/// Parses any text into its exact fixed-point value: `dec_val` of the text.
#[verifier::rlimit(60)]
pub fn parse_number(s: &str) -> (r: i128)
    ensures
        r == dec_val(s@),
{
    let n = s.unicode_len();
    let mut start: usize = 0;
    let mut neg = false;
    if n > 0 {
        let c = s.get_char(0);
        if c == '-' {
            neg = true;
            start = 1;
        } else if c == '+' {
            start = 1;
        }
    }
    proof {
        assert(sign_len(s@) == start as int);
        assert(neg == is_negative(s@));
    }
    let ghost b = body_of(s@);
    let int_end = scan_digits(s, start);
    let mut has_dot = false;
    let mut frac_end = int_end;
    if int_end < n {
        let c = s.get_char(int_end);
        if c == '.' {
            has_dot = true;
            frac_end = scan_digits(s, int_end + 1);
        }
    }
    proof {
        assert(b =~= s@.skip(start as int));
    }
    if frac_end != n {
        // A character that is neither a digit nor the single dot: the text
        // is not numeric.
        proof {
            if dec_valid(s@) {
                lemma_valid_shape(s@, start as int, int_end as int, has_dot, frac_end as int);
            }
        }
        return 0;
    }
    let int_len = int_end - start;
    let frac_len = if has_dot {
        n - (int_end + 1)
    } else {
        0
    };
    if int_len + frac_len == 0 {
        proof {
            if dec_valid(s@) {
                lemma_valid_shape(s@, start as int, int_end as int, has_dot, frac_end as int);
            }
        }
        return 0;
    }
    proof {
        if has_dot {
            lemma_first_dot_is(b, int_end - start);
        } else {
            lemma_first_dot_is(b, b.len() as int);
        }
        assert(int_part(s@) =~= s@.subrange(start as int, int_end as int));
        if has_dot {
            assert(frac_part(s@) =~= s@.subrange(int_end + 1, n as int));
        } else {
            assert(frac_part(s@) =~= Seq::<char>::empty());
        }
    }
    let iv = match digits_value(s, start, int_end) {
        Some(v) => v,
        None => {
            // Integer part beyond the model's bound: not numeric.
            return 0;
        },
    };
    let kept_end = if has_dot {
        if n - (int_end + 1) > FRAC_DIGITS {
            int_end + 1 + FRAC_DIGITS
        } else {
            n
        }
    } else {
        int_end
    };
    let ghost kept = frac_kept(frac_part(s@));
    proof {
        if has_dot {
            assert(kept =~= s@.subrange(int_end + 1, kept_end as int));
        } else {
            assert(kept =~= s@.subrange(int_end as int, int_end as int));
        }
    }
    let fv = match digits_value(s, if has_dot { int_end + 1 } else { int_end }, if has_dot { kept_end } else { int_end }) {
        Some(v) => v,
        None => {
            proof {
                lemma_digits_val_bounds(kept);
                lemma_pow_increases(10, kept.len(), FRAC_DIGITS as nat);
                lemma_scale();
            }
            assert(false);
            0
        },
    };
    let m = pow10(FRAC_DIGITS - (kept_end - (if has_dot { int_end + 1 } else { int_end })));
    let ghost flen = kept.len();
    proof {
        lemma_digits_val_bounds(kept);
        lemma_pow_adds(10, flen, (FRAC_DIGITS as int - flen) as nat);
        lemma_pow_positive(10, flen);
        lemma_pow_positive(10, (FRAC_DIGITS as int - flen) as nat);
        lemma_scale();
        assert((fv as int) * (m as int) < pow(10, FRAC_DIGITS as nat)) by (nonlinear_arith)
            requires
                0 <= fv as int,
                (fv as int) < pow(10, flen),
                m as int == pow(10, (FRAC_DIGITS as int - flen) as nat),
                pow(10, flen) * pow(10, (FRAC_DIGITS as int - flen) as nat) == pow(
                    10,
                    FRAC_DIGITS as nat,
                ),
                pow(10, flen) >= 1,
                pow(10, (FRAC_DIGITS as int - flen) as nat) >= 1,
        ;
        assert((iv as int) * (SCALE as int) <= (MAX_INT_PART as int) * (SCALE as int))
            by (nonlinear_arith)
            requires
                0 <= iv as int <= MAX_INT_PART as int,
                SCALE as int > 0,
        ;
        assert((fv as int) * (m as int) >= 0) by (nonlinear_arith)
            requires
                fv as int >= 0,
                m as int >= 1,
        ;
    }
    let mag: i128 = (iv as i128) * SCALE + (fv as i128) * m;
    proof {
        assert(dec_valid(s@));
        assert(mag == dec_mag(s@));
    }
    if neg {
        -mag
    } else {
        mag
    }
}

/// A valid text's magnitude stays below `10^36`.
pub proof fn lemma_dec_mag_bound(s: Seq<char>)
    requires
        dec_valid(s),
    ensures
        0 <= dec_mag(s) < pow(10, 36),
        pow(10, 36) == pow(10, FRAC_DIGITS as nat) * pow(10, FRAC_DIGITS as nat),
{
    let ip = int_part(s);
    let f = frac_kept(frac_part(s));
    assert(all_digits(f));
    lemma_digits_val_bounds(ip);
    lemma_digits_val_bounds(f);
    let flen = f.len();
    lemma_pow_adds(10, flen, (FRAC_DIGITS as int - flen) as nat);
    lemma_pow_adds(10, FRAC_DIGITS as nat, FRAC_DIGITS as nat);
    lemma_pow_positive(10, flen);
    lemma_pow_positive(10, (FRAC_DIGITS as int - flen) as nat);
    lemma_scale();
    assert(digits_val(f) * pow(10, (FRAC_DIGITS as int - flen) as nat) < pow(
        10,
        FRAC_DIGITS as nat,
    )) by (nonlinear_arith)
        requires
            0 <= digits_val(f),
            digits_val(f) < pow(10, flen),
            pow(10, flen) * pow(10, (FRAC_DIGITS as int - flen) as nat) == pow(
                10,
                FRAC_DIGITS as nat,
            ),
            pow(10, flen) >= 1,
            pow(10, (FRAC_DIGITS as int - flen) as nat) >= 1,
    ;
    assert(digits_val(ip) * pow(10, FRAC_DIGITS as nat) <= (MAX_INT_PART as int) * pow(
        10,
        FRAC_DIGITS as nat,
    )) by (nonlinear_arith)
        requires
            0 <= digits_val(ip) <= MAX_INT_PART as int,
            pow(10, FRAC_DIGITS as nat) >= 1,
    ;
    assert((MAX_INT_PART as int) * pow(10, FRAC_DIGITS as nat) + pow(10, FRAC_DIGITS as nat)
        == pow(10, FRAC_DIGITS as nat) * pow(10, FRAC_DIGITS as nat)) by (nonlinear_arith)
        requires
            MAX_INT_PART as int + 1 == pow(10, FRAC_DIGITS as nat),
    ;
    assert(digits_val(ip) * pow(10, FRAC_DIGITS as nat) >= 0) by (nonlinear_arith)
        requires
            0 <= digits_val(ip),
            pow(10, FRAC_DIGITS as nat) >= 1,
    ;
    assert(digits_val(f) * pow(10, (FRAC_DIGITS as int - flen) as nat) >= 0) by (nonlinear_arith)
        requires
            0 <= digits_val(f),
            pow(10, (FRAC_DIGITS as int - flen) as nat) >= 1,
    ;
}

/// Parses a `LIMIT` argument: the integer part of the text's value,
/// truncated toward zero and saturated to `usize`.
pub fn limit_value(s: &str) -> (r: usize)
    ensures
        r == limit_of(s@),
{
    let v = parse_number(s);
    if v <= 0 {
        return 0;
    }
    proof {
        assert(dec_valid(s@));
        lemma_dec_mag_bound(s@);
        lemma_scale();
    }
    let q: u128 = (v as u128) / (SCALE as u128);
    proof {
        assert(q as int == dec_val(s@) / pow(10, FRAC_DIGITS as nat));
        assert((q as int) < pow(10, FRAC_DIGITS as nat)) by (nonlinear_arith)
            requires
                q as int == dec_val(s@) / pow(10, FRAC_DIGITS as nat),
                0 <= dec_val(s@),
                dec_val(s@) < pow(10, FRAC_DIGITS as nat) * pow(10, FRAC_DIGITS as nat),
                pow(10, FRAC_DIGITS as nat) >= 1,
        ;
    }
    if q > (usize::MAX as u128) {
        usize::MAX
    } else {
        q as usize
    }
}

/// A valid text's shape matches what the scanner finds: digits up to the
/// dot (or the end), then digits to the end.
proof fn lemma_valid_shape(s: Seq<char>, start: int, int_end: int, has_dot: bool, frac_end: int)
    requires
        dec_valid(s),
        start == sign_len(s),
        start <= int_end <= s.len(),
        forall|j: int| start <= j < int_end ==> is_digit(s[j]),
        int_end < s.len() ==> !is_digit(s[int_end]),
        has_dot <==> (int_end < s.len() && s[int_end] == '.'),
        has_dot ==> int_end + 1 <= frac_end <= s.len() && (forall|j: int|
            int_end + 1 <= j < frac_end ==> is_digit(s[j])) && (frac_end < s.len()
            ==> !is_digit(s[frac_end])),
        !has_dot ==> frac_end == int_end,
    ensures
        frac_end == s.len(),
        int_end - start + if has_dot {
            s.len() - (int_end + 1)
        } else {
            0
        } >= 1,
{
    let b = body_of(s);
    let k = first_dot(b);
    lemma_first_dot_char(b);
    // Every character of the body is a digit or the first dot.
    assert(forall|i: int| 0 <= i < b.len() ==> b[i] == s[i + start]);
    if int_end - start < k {
        // The scanner stopped inside the dot-free prefix: the character
        // there is a digit of int_part, a contradiction.
        assert(int_part(s)[int_end - start] == b[int_end - start]);
        assert(is_digit(s[int_end]));
        assert(false);
    }
    if int_end - start > k {
        // The scanner ran past the first dot, which is not a digit.
        assert(b[k] == '.');
        assert(is_digit(s[k + start]));
        assert(false);
    }
    assert(int_end - start == k);
    if k == b.len() {
        assert(!has_dot);
        assert(int_end == s.len());
        assert(int_part(s) =~= b);
        assert(frac_part(s).len() == 0);
    } else {
        assert(b[k] == '.');
        assert(has_dot);
        let fp = frac_part(s);
        assert(fp =~= s.subrange(int_end + 1, s.len() as int));
        if frac_end < s.len() {
            assert(is_digit(fp[frac_end - (int_end + 1)]));
            assert(fp[frac_end - (int_end + 1)] == s[frac_end]);
            assert(false);
        }
    }
}

/// The character at `first_dot`, when inside the text, is a dot, and no dot
/// comes before it.
pub proof fn lemma_first_dot_char(s: Seq<char>)
    ensures
        0 <= first_dot(s) <= s.len(),
        first_dot(s) < s.len() ==> s[first_dot(s)] == '.',
        forall|i: int| 0 <= i < first_dot(s) ==> s[i] != '.',
    decreases s.len(),
{
    if s.len() > 0 && s[0] != '.' {
        let t = s.skip(1);
        lemma_first_dot_char(t);
        assert forall|i: int| 0 <= i < first_dot(s) implies s[i] != '.' by {
            if i > 0 {
                assert(t[i - 1] == s[i]);
            }
        }
    }
}

} // verus!
