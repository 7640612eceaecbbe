//! The spelling of a number in a saved model.
//!
//! An entry of a saved matrix is read by the caller as a floating-point
//! number. The strings that are sure to be read are, letters taken in either
//! case:
//!
//! ```text
//! Float  ::= Sign? ( 'inf' | 'infinity' | 'nan' | Number )
//! Number ::= ( Digit+ | Digit+ '.' Digit* | Digit* '.' Digit+ ) Exp?
//! Exp    ::= 'e' Sign? Digit+
//! Sign   ::= [+-]
//! Digit  ::= [0-9]
//! ```

use crate::text::{has_byte, is_digit, DIGIT_NINE, DIGIT_ZERO, NEWLINE, PLUS, RETURN, SPACE};
use vstd::prelude::*;
use vstd::string::StringSliceAdditionalSpecFns;

verus! {

/// The byte of a minus sign.
pub const MINUS: u8 = 45;

/// The byte of a full stop.
pub const POINT: u8 = 46;

/// The byte of a small `e`.
pub const SMALL_E: u8 = 101;

/// The small letter of a capital one; every other byte is left as it is.
pub open spec fn lower(b: u8) -> u8 {
    if 65 <= b <= 90 {
        (b + 32) as u8
    } else {
        b
    }
}

/// A text with every capital letter made small.
pub open spec fn lowered(s: Seq<u8>) -> Seq<u8> {
    Seq::new(s.len(), |i: int| lower(s[i]))
}

/// Whether `b` is a plus or a minus sign.
pub open spec fn is_sign(b: u8) -> bool {
    b == PLUS || b == MINUS
}

/// What follows the sign that may open a text.
pub open spec fn unsigned(s: Seq<u8>) -> Seq<u8> {
    if s.len() > 0 && is_sign(s[0]) {
        s.skip(1)
    } else {
        s
    }
}

/// The number of digits that `s` begins with.
pub open spec fn digit_run(s: Seq<u8>) -> nat
    decreases s.len(),
{
    if s.len() > 0 && is_digit(s[0]) {
        1 + digit_run(s.skip(1))
    } else {
        0
    }
}

/// Whether `s` is an exponent: `e`, an optional sign, and one or more digits
/// up to the end.
pub open spec fn is_exponent(s: Seq<u8>) -> bool {
    &&& s.len() > 0
    &&& lower(s[0]) == SMALL_E
    &&& unsigned(s.skip(1)).len() > 0
    &&& digit_run(unsigned(s.skip(1))) == unsigned(s.skip(1)).len()
}

/// Whether `s` is nothing or an exponent.
pub open spec fn ends_number(s: Seq<u8>) -> bool {
    s.len() == 0 || is_exponent(s)
}

/// Whether `s` is a `Number`: digits with at most one point among them, at
/// least one digit in all, and then nothing or an exponent.
pub open spec fn is_number(s: Seq<u8>) -> bool {
    let whole: nat = digit_run(s);
    let rest: Seq<u8> = s.skip(whole as int);
    if rest.len() > 0 && rest[0] == POINT {
        let fraction: nat = digit_run(rest.skip(1));
        whole + fraction >= 1 && ends_number(rest.skip(1 + fraction as int))
    } else {
        whole >= 1 && ends_number(rest)
    }
}

/// Whether `s` is one of the three names, in either case.
pub open spec fn is_special(s: Seq<u8>) -> bool {
    lowered(s) == "inf".spec_bytes() || lowered(s) == "infinity".spec_bytes() || lowered(s)
        == "nan".spec_bytes()
}

/// Whether `s` is a `Float`.
pub open spec fn is_float(s: Seq<u8>) -> bool {
    is_special(unsigned(s)) || is_number(unsigned(s))
}

/// The bytes of the three names, written out.
pub proof fn lemma_specials()
    ensures
        "inf".spec_bytes() == seq![105u8, 110, 102],
        "infinity".spec_bytes() == seq![105u8, 110, 102, 105, 110, 105, 116, 121],
        "nan".spec_bytes() == seq![110u8, 97, 110],
{
    reveal_strlit("inf");
    reveal_strlit("infinity");
    reveal_strlit("nan");
    vstd::string::is_ascii_spec_bytes("inf");
    vstd::string::is_ascii_spec_bytes("infinity");
    vstd::string::is_ascii_spec_bytes("nan");
    assert("inf"@ =~= seq!['i', 'n', 'f']);
    assert("infinity"@ =~= seq!['i', 'n', 'f', 'i', 'n', 'i', 't', 'y']);
    assert("nan"@ =~= seq!['n', 'a', 'n']);
    assert(vstd::string::is_ascii("inf"));
    assert(vstd::string::is_ascii("infinity"));
    assert(vstd::string::is_ascii("nan"));
    assert("inf".spec_bytes() =~= seq![105u8, 110, 102]);
    assert("infinity".spec_bytes() =~= seq![105u8, 110, 102, 105, 110, 105, 116, 121]);
    assert("nan".spec_bytes() =~= seq![110u8, 97, 110]);
}

/// The digits that `s` begins with are digits, and what follows them is not
/// one.
pub proof fn lemma_digit_run(s: Seq<u8>)
    ensures
        digit_run(s) <= s.len(),
        forall|i: int| 0 <= i < digit_run(s) ==> is_digit(#[trigger] s[i]),
        digit_run(s) < s.len() ==> !is_digit(s[digit_run(s) as int]),
    decreases s.len(),
{
    if s.len() > 0 && is_digit(s[0]) {
        let rest: Seq<u8> = s.skip(1);
        lemma_digit_run(rest);
        assert forall|i: int| 0 <= i < digit_run(s) implies is_digit(#[trigger] s[i]) by {
            if i > 0 {
                assert(s[i] == rest[i - 1]);
            }
        }
        if digit_run(s) < s.len() {
            assert(s[digit_run(s) as int] == rest[digit_run(rest) as int]);
        }
    }
}

/// A run of `k` digits that ends the text or stands before something else
/// is the run of digits that the text begins with.
pub proof fn lemma_digit_run_is(s: Seq<u8>, k: int)
    requires
        0 <= k <= s.len(),
        forall|i: int| 0 <= i < k ==> is_digit(#[trigger] s[i]),
        k < s.len() ==> !is_digit(s[k]),
    ensures
        digit_run(s) == k,
    decreases k,
{
    if k > 0 {
        let rest: Seq<u8> = s.skip(1);
        assert(is_digit(s[0]));
        assert forall|i: int| 0 <= i < k - 1 implies is_digit(#[trigger] rest[i]) by {
            assert(rest[i] == s[i + 1]);
        }
        if k < s.len() {
            assert(rest[k - 1] == s[k]);
        }
        lemma_digit_run_is(rest, k - 1);
    }
}

/// A `Float` holds no space, no line feed and no carriage return.
pub proof fn lemma_float_is_plain(s: Seq<u8>)
    requires
        is_float(s),
    ensures
        s.len() > 0,
        !has_byte(s, SPACE),
        !has_byte(s, NEWLINE),
        !has_byte(s, RETURN),
{
    let body: Seq<u8> = unsigned(s);
    let shift: int = s.len() - body.len();
    assert(shift == 0 || shift == 1);
    assert forall|i: int| 0 <= i < body.len() implies body[i] > SPACE by {
        lemma_body_byte(body, i);
    }
    if is_special(body) {
        lemma_specials();
        assert(lowered(body).len() == body.len());
    } else {
        lemma_digit_run(body);
    }
    assert forall|i: int| 0 <= i < s.len() implies s[i] > SPACE by {
        if i >= shift {
            assert(s[i] == body[i - shift]);
        }
    }
}

/// Every byte of a name or a `Number` is a letter, a digit, a sign or a
/// point.
proof fn lemma_body_byte(body: Seq<u8>, i: int)
    requires
        is_special(body) || is_number(body),
        0 <= i < body.len(),
    ensures
        body[i] > SPACE,
{
    if is_special(body) {
        lemma_specials();
        let low: Seq<u8> = lowered(body);
        assert(low.len() == body.len());
        assert(low[i] == lower(body[i]));
        assert(low[i] >= 97);
    } else {
        lemma_digit_run(body);
        let whole: int = digit_run(body) as int;
        let rest: Seq<u8> = body.skip(whole);
        if i < whole {
            assert(is_digit(body[i]));
        } else if rest.len() > 0 && rest[0] == POINT {
            let after: Seq<u8> = rest.skip(1);
            lemma_digit_run(after);
            let fraction: int = digit_run(after) as int;
            if i == whole {
                assert(body[i] == rest[0]);
            } else if i < whole + 1 + fraction {
                assert(body[i] == after[i - whole - 1]);
                assert(is_digit(after[i - whole - 1]));
            } else {
                let tail: Seq<u8> = rest.skip(1 + fraction);
                assert(body[i] == tail[i - whole - 1 - fraction]);
                lemma_exponent_byte(tail, i - whole - 1 - fraction);
            }
        } else {
            assert(body[i] == rest[i - whole]);
            lemma_exponent_byte(rest, i - whole);
        }
    }
}

/// Every byte of an exponent is the letter, a sign or a digit.
proof fn lemma_exponent_byte(tail: Seq<u8>, i: int)
    requires
        is_exponent(tail),
        0 <= i < tail.len(),
    ensures
        tail[i] > SPACE,
{
    let after: Seq<u8> = tail.skip(1);
    let digits: Seq<u8> = unsigned(after);
    lemma_digit_run(digits);
    if i == 0 {
        assert(lower(tail[0]) == SMALL_E);
    } else {
        assert(tail[i] == after[i - 1]);
        let shift: int = after.len() - digits.len();
        if i - 1 >= shift {
            assert(after[i - 1] == digits[i - 1 - shift]);
            assert(is_digit(digits[i - 1 - shift]));
        } else {
            assert(is_sign(after[0]));
        }
    }
}

/// Counts the digits that `s` holds from `start` on.
fn count_digits(s: &[u8], start: usize) -> (k: usize)
    requires
        start <= s@.len(),
    ensures
        k == digit_run(s@.skip(start as int)),
        start + k <= s@.len(),
{
    let mut k: usize = 0;
    let n: usize = s.len();
    let ghost rest: Seq<u8> = s@.skip(start as int);
    while start + k < n && s[start + k] >= DIGIT_ZERO && s[start + k] <= DIGIT_NINE
        invariant
            n == s@.len(),
            start + k <= s@.len(),
            rest == s@.skip(start as int),
            forall|i: int| 0 <= i < k ==> is_digit(#[trigger] rest[i]),
        decreases s@.len() - start - k,
    {
        assert(rest[k as int] == s@[start + k]);
        k = k + 1;
    }
    proof {
        if k < rest.len() {
            assert(rest[k as int] == s@[start + k]);
        }
        lemma_digit_run_is(rest, k as int);
    }
    k
}

/// Tells whether `s` spells one of the three names from `start` on.
fn special_from(s: &[u8], start: usize) -> (r: bool)
    requires
        start <= s@.len(),
    ensures
        r == is_special(s@.skip(start as int)),
{
    let ghost rest: Seq<u8> = s@.skip(start as int);
    let mut low: Vec<u8> = Vec::new();
    let mut i: usize = start;
    while i < s.len()
        invariant
            start <= i <= s@.len(),
            rest == s@.skip(start as int),
            low@.len() == i - start,
            forall|k: int| 0 <= k < low@.len() ==> low@[k] == lower(rest[k]),
        decreases s@.len() - i,
    {
        let b: u8 = s[i];
        assert(rest[i - start] == b);
        if b >= 65 && b <= 90 {
            low.push(b + 32);
        } else {
            low.push(b);
        }
        i = i + 1;
    }
    assert(low@ =~= lowered(rest));
    crate::text::same_bytes(low.as_slice(), "inf".as_bytes()) || crate::text::same_bytes(
        low.as_slice(),
        "infinity".as_bytes(),
    ) || crate::text::same_bytes(low.as_slice(), "nan".as_bytes())
}

/// Tells whether what `s` holds from `start` on is nothing or an exponent.
fn ends_number_from(s: &[u8], start: usize) -> (r: bool)
    requires
        start <= s@.len(),
    ensures
        r == ends_number(s@.skip(start as int)),
{
    let ghost tail: Seq<u8> = s@.skip(start as int);
    if start == s.len() {
        return true;
    }
    let e: u8 = s[start];
    assert(tail[0] == e);
    if e != SMALL_E && e != 69 {
        return false;
    }
    let ghost after: Seq<u8> = tail.skip(1);
    assert(after =~= s@.skip(start + 1));
    let mut at: usize = start + 1;
    if at < s.len() && (s[at] == PLUS || s[at] == MINUS) {
        assert(after[0] == s@[at as int]);
        at = at + 1;
        assert(unsigned(after) =~= s@.skip(at as int));
    } else {
        proof {
            if at < s.len() {
                assert(after[0] == s@[at as int]);
            }
        }
        assert(unsigned(after) =~= s@.skip(at as int));
    }
    let digits: usize = count_digits(s, at);
    digits > 0 && at + digits == s.len()
}

/// Tells whether `s` is a `Float`: whether it is sure to be read as a
/// number.
pub fn is_float_literal(s: &[u8]) -> (r: bool)
    ensures
        r == is_float(s@),
{
    let start: usize = if s.len() > 0 && (s[0] == PLUS || s[0] == MINUS) {
        1
    } else {
        0
    };
    let ghost body: Seq<u8> = unsigned(s@);
    assert(body =~= s@.skip(start as int));
    if special_from(s, start) {
        return true;
    }
    let whole: usize = count_digits(s, start);
    let point: usize = start + whole;
    let ghost rest: Seq<u8> = body.skip(whole as int);
    assert(rest =~= s@.skip(point as int));
    if point < s.len() && s[point] == POINT {
        assert(rest[0] == s@[point as int]);
        assert(rest.skip(1) =~= s@.skip(point + 1));
        let fraction: usize = count_digits(s, point + 1);
        assert(rest.skip(1 + fraction) =~= s@.skip(point + 1 + fraction));
        whole + fraction >= 1 && ends_number_from(s, point + 1 + fraction)
    } else {
        proof {
            if point < s.len() {
                assert(rest[0] == s@[point as int]);
            }
        }
        whole >= 1 && ends_number_from(s, point)
    }
}

} // verus!
