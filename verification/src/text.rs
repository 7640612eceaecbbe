//! Bytes of text: comparing, searching, splitting, joining, and decimal
//! numbers.

use vstd::prelude::*;

verus! {

/// The byte of a space.
pub const SPACE: u8 = 32;

/// The byte of a line feed.
pub const NEWLINE: u8 = 10;

/// The byte of a carriage return.
pub const RETURN: u8 = 13;

/// The byte of a plus sign.
pub const PLUS: u8 = 43;

/// The byte of the digit zero.
pub const DIGIT_ZERO: u8 = 48;

/// The byte of the digit nine.
pub const DIGIT_NINE: u8 = 57;

/// The contents of a list of byte strings.
pub open spec fn views(list: Seq<Vec<u8>>) -> Seq<Seq<u8>> {
    Seq::new(list.len(), |i: int| list[i]@)
}

/// Whether `needle` stands in `hay` at offset `k`.
pub open spec fn occurs_at(hay: Seq<u8>, needle: Seq<u8>, k: int) -> bool {
    0 <= k && k + needle.len() <= hay.len() && hay.subrange(k, k + needle.len()) == needle
}

/// Whether `needle` stands somewhere in `hay`.
pub open spec fn contains(hay: Seq<u8>, needle: Seq<u8>) -> bool {
    exists|k: int| occurs_at(hay, needle, k)
}

/// Whether the byte `b` occurs in `s`.
pub open spec fn has_byte(s: Seq<u8>, b: u8) -> bool {
    exists|i: int| 0 <= i < s.len() && s[i] == b
}

/// The pieces of `s` between the occurrences of `sep`: one more piece than
/// there are separators, so at least one, and empty where two separators
/// touch or one stands at an end.
pub open spec fn split(s: Seq<u8>, sep: u8) -> Seq<Seq<u8>>
    decreases s.len(),
{
    if s.len() == 0 {
        seq![Seq::<u8>::empty()]
    } else {
        let before: Seq<Seq<u8>> = split(s.drop_last(), sep);
        if s.last() == sep {
            before.push(Seq::<u8>::empty())
        } else {
            before.drop_last().push(before.last().push(s.last()))
        }
    }
}

/// The pieces put together with `sep` between each two.
pub open spec fn join(parts: Seq<Seq<u8>>, sep: u8) -> Seq<u8>
    decreases parts.len(),
{
    if parts.len() == 0 {
        Seq::<u8>::empty()
    } else if parts.len() == 1 {
        parts[0]
    } else {
        join(parts.drop_last(), sep) + seq![sep] + parts.last()
    }
}

/// A line without the carriage return that may end it.
pub open spec fn strip_return(line: Seq<u8>) -> Seq<u8> {
    if line.len() > 0 && line.last() == RETURN {
        line.drop_last()
    } else {
        line
    }
}

/// The lines of a text. A line ends at a line feed, and a carriage return
/// just before that line feed is not part of the line. What follows the last
/// line feed is a line too unless it is empty, and keeps a carriage return
/// that ends it.
pub open spec fn lines(text: Seq<u8>) -> Seq<Seq<u8>> {
    let parts: Seq<Seq<u8>> = split(text, NEWLINE);
    let ended: Seq<Seq<u8>> = Seq::new(
        (parts.len() - 1) as nat,
        |i: int| strip_return(parts[i]),
    );
    if parts.last().len() == 0 {
        ended
    } else {
        ended.push(parts.last())
    }
}

/// Whether `b` is a decimal digit.
pub open spec fn is_digit(b: u8) -> bool {
    DIGIT_ZERO <= b <= DIGIT_NINE
}

/// Whether `s` is made of decimal digits only.
pub open spec fn all_digits(s: Seq<u8>) -> bool {
    forall|i: int| 0 <= i < s.len() ==> is_digit(#[trigger] s[i])
}

/// The number that a run of digits stands for.
pub open spec fn digits_value(s: Seq<u8>) -> nat
    decreases s.len(),
{
    if s.len() == 0 {
        0
    } else if is_digit(s.last()) {
        digits_value(s.drop_last()) * 10 + (s.last() - DIGIT_ZERO) as nat
    } else {
        digits_value(s.drop_last()) * 10
    }
}

/// The decimal digits of `n`, without leading zeros.
pub open spec fn decimal(n: nat) -> Seq<u8>
    decreases n,
{
    if n < 10 {
        seq![(DIGIT_ZERO + n) as u8]
    } else {
        decimal(n / 10).push((DIGIT_ZERO + n % 10) as u8)
    }
}

/// What follows the plus sign that may open a number.
pub open spec fn unsigned_part(s: Seq<u8>) -> Seq<u8> {
    if s.len() > 0 && s[0] == PLUS {
        s.skip(1)
    } else {
        s
    }
}

/// The number written in `s`: an optional plus sign, then one or more decimal
/// digits, with a value that fits a `usize`. Anything else is no number.
pub open spec fn number(s: Seq<u8>) -> Option<usize> {
    let body: Seq<u8> = unsigned_part(s);
    if body.len() > 0 && all_digits(body) && digits_value(body) <= usize::MAX {
        Some(digits_value(body) as usize)
    } else {
        None
    }
}

/// There is always at least one piece.
pub proof fn lemma_split_some(s: Seq<u8>, sep: u8)
    ensures
        split(s, sep).len() >= 1,
    decreases s.len(),
{
    if s.len() > 0 {
        lemma_split_some(s.drop_last(), sep);
    }
}

/// Splitting what stands on both sides of a separator gives the pieces of the
/// left side followed by the pieces of the right side.
pub proof fn lemma_split_concat(a: Seq<u8>, b: Seq<u8>, sep: u8)
    ensures
        split(a + seq![sep] + b, sep) == split(a, sep) + split(b, sep),
    decreases b.len(),
{
    let whole: Seq<u8> = a + seq![sep] + b;
    lemma_split_some(a, sep);
    if b.len() == 0 {
        assert(whole.drop_last() =~= a);
        assert(whole.last() == sep);
        assert(split(b, sep) =~= seq![Seq::<u8>::empty()]);
        assert(split(whole, sep) =~= split(a, sep) + split(b, sep));
    } else {
        let shorter: Seq<u8> = b.drop_last();
        lemma_split_concat(a, shorter, sep);
        lemma_split_some(shorter, sep);
        assert(whole.drop_last() =~= a + seq![sep] + shorter);
        assert(whole.last() == b.last());
        let left: Seq<Seq<u8>> = split(a, sep);
        let right: Seq<Seq<u8>> = split(shorter, sep);
        assert((left + right).last() == right.last());
        assert((left + right).drop_last() =~= left + right.drop_last());
        if b.last() == sep {
            assert(split(whole, sep) =~= left + split(b, sep));
        } else {
            assert(split(whole, sep) =~= left + split(b, sep));
        }
    }
}

/// A text without the separator is one piece.
pub proof fn lemma_split_plain(s: Seq<u8>, sep: u8)
    requires
        !has_byte(s, sep),
    ensures
        split(s, sep) == seq![s],
    decreases s.len(),
{
    if s.len() > 0 {
        assert forall|i: int| 0 <= i < s.drop_last().len() implies s.drop_last()[i] != sep by {
            assert(s.drop_last()[i] == s[i]);
        }
        lemma_split_plain(s.drop_last(), sep);
        assert(s.last() == s[s.len() - 1]);
        assert(s.last() != sep);
        let before: Seq<Seq<u8>> = split(s.drop_last(), sep);
        assert(before.len() == 1 && before.last() == s.drop_last());
        assert(before.drop_last() =~= Seq::<Seq<u8>>::empty());
        assert(s.drop_last().push(s.last()) =~= s);
        let whole: Seq<Seq<u8>> = before.drop_last().push(before.last().push(s.last()));
        assert(split(s, sep) == whole);
        assert(whole.len() == 1);
        assert(whole[0] == s);
        assert(whole =~= seq![s]);
    } else {
        assert(s =~= Seq::<u8>::empty());
    }
}

/// Pieces that hold no separator come back from their own join.
pub proof fn lemma_split_join(parts: Seq<Seq<u8>>, sep: u8)
    requires
        parts.len() >= 1,
        forall|i: int| 0 <= i < parts.len() ==> !has_byte(#[trigger] parts[i], sep),
    ensures
        split(join(parts, sep), sep) == parts,
    decreases parts.len(),
{
    if parts.len() == 1 {
        lemma_split_plain(parts[0], sep);
        assert(seq![parts[0]] =~= parts);
    } else {
        let front: Seq<Seq<u8>> = parts.drop_last();
        assert forall|i: int| 0 <= i < front.len() implies !has_byte(#[trigger] front[i], sep) by {
            assert(front[i] == parts[i]);
        }
        lemma_split_join(front, sep);
        lemma_split_concat(join(front, sep), parts.last(), sep);
        lemma_split_plain(parts.last(), sep);
        assert(front + seq![parts.last()] =~= parts);
    }
}

/// No piece holds the separator, and the pieces joined are the text: the two
/// facts that make `split` what it is.
pub proof fn lemma_split_is_inverse_of_join(s: Seq<u8>, sep: u8)
    ensures
        join(split(s, sep), sep) == s,
        forall|i: int| 0 <= i < split(s, sep).len() ==> !has_byte(#[trigger] split(s, sep)[i], sep),
    decreases s.len(),
{
    lemma_split_some(s, sep);
    if s.len() == 0 {
        assert(join(split(s, sep), sep) =~= s);
    } else {
        let before: Seq<Seq<u8>> = split(s.drop_last(), sep);
        lemma_split_is_inverse_of_join(s.drop_last(), sep);
        lemma_split_some(s.drop_last(), sep);
        let now: Seq<Seq<u8>> = split(s, sep);
        if s.last() == sep {
            assert(now.drop_last() =~= before);
            assert(join(now, sep) =~= join(before, sep) + seq![sep] + Seq::<u8>::empty());
            assert(join(now, sep) =~= s.drop_last().push(sep));
            assert(s.drop_last().push(s.last()) =~= s);
            assert forall|i: int| 0 <= i < now.len() implies !has_byte(#[trigger] now[i], sep) by {
                if i < before.len() {
                    assert(now[i] == before[i]);
                }
            }
        } else {
            let grown: Seq<u8> = before.last().push(s.last());
            assert(now.drop_last() =~= before.drop_last());
            assert(now.last() == grown);
            if before.len() == 1 {
                assert(join(before, sep) == before[0]);
                assert(join(now, sep) =~= grown);
                assert(join(now, sep) =~= s.drop_last().push(s.last()));
            } else {
                assert(join(before, sep) == join(before.drop_last(), sep) + seq![sep]
                    + before.last());
                assert(join(now, sep) =~= join(before.drop_last(), sep) + seq![sep] + grown);
                assert(join(now, sep) =~= join(before, sep).push(s.last()));
            }
            assert(s.drop_last().push(s.last()) =~= s);
            assert forall|i: int| 0 <= i < now.len() implies !has_byte(#[trigger] now[i], sep) by {
                if i < now.len() - 1 {
                    assert(now[i] == before[i]);
                } else {
                    assert(!has_byte(before.last(), sep));
                    if has_byte(grown, sep) {
                        let w: int = choose|w: int| 0 <= w < grown.len() && grown[w] == sep;
                        if w < before.last().len() {
                            assert(before.last()[w] == sep);
                        }
                    }
                }
            }
        }
    }
}

/// The digits of a number are digits, at least one of them.
pub proof fn lemma_decimal_digits(n: nat)
    ensures
        decimal(n).len() >= 1,
        all_digits(decimal(n)),
        digits_value(decimal(n)) == n,
    decreases n,
{
    if n >= 10 {
        lemma_decimal_digits(n / 10);
        let d: Seq<u8> = decimal(n);
        assert(d.drop_last() =~= decimal(n / 10));
        assert(is_digit(d.last()));
        assert forall|i: int| 0 <= i < d.len() implies is_digit(#[trigger] d[i]) by {
            if i < d.len() - 1 {
                assert(d[i] == decimal(n / 10)[i]);
            }
        }
    } else {
        let d: Seq<u8> = decimal(n);
        assert(d.drop_last() =~= Seq::<u8>::empty());
        assert(digits_value(d.drop_last()) == 0);
    }
}

/// A number written in decimal is read back as itself.
pub proof fn lemma_number_round_trip(n: usize)
    ensures
        number(decimal(n as nat)) == Some(n),
        !has_byte(decimal(n as nat), SPACE),
        !has_byte(decimal(n as nat), NEWLINE),
        !has_byte(decimal(n as nat), RETURN),
{
    lemma_decimal_digits(n as nat);
    let d: Seq<u8> = decimal(n as nat);
    assert(is_digit(d[0]));
    assert(unsigned_part(d) == d);
}

/// Writing more digits behind a run of digits never makes its value smaller.
pub proof fn lemma_digits_grow(s: Seq<u8>, k: int)
    requires
        0 <= k <= s.len(),
    ensures
        digits_value(s.take(k)) <= digits_value(s),
    decreases s.len() - k,
{
    if k < s.len() {
        lemma_digits_grow(s, k + 1);
        assert(s.take(k + 1).drop_last() =~= s.take(k));
        assert(digits_value(s.take(k)) <= digits_value(s.take(k + 1))) by (nonlinear_arith)
            requires
                digits_value(s.take(k + 1)) >= digits_value(s.take(k)) * 10,
        ;
    } else {
        assert(s.take(k) =~= s);
    }
}

/// Tells whether two runs of bytes are the same.
pub fn same_bytes(a: &[u8], b: &[u8]) -> (r: bool)
    ensures
        r == (a@ == b@),
{
    if a.len() != b.len() {
        return false;
    }
    let mut i: usize = 0;
    while i < a.len()
        invariant
            a.len() == b.len(),
            i <= a.len(),
            forall|k: int| 0 <= k < i ==> a[k] == b[k],
        decreases a.len() - i,
    {
        if a[i] != b[i] {
            return false;
        }
        i = i + 1;
    }
    assert(a@ =~= b@);
    true
}

/// Tells whether `needle` stands in `hay` at offset `k`.
fn stands_at(hay: &[u8], needle: &[u8], k: usize) -> (r: bool)
    requires
        k + needle@.len() <= hay@.len(),
    ensures
        r == occurs_at(hay@, needle@, k as int),
{
    let mut i: usize = 0;
    let total: usize = hay.len();
    while i < needle.len()
        invariant
            k + needle@.len() <= hay@.len(),
            hay@.len() == total,
            i <= needle.len(),
            forall|j: int| 0 <= j < i ==> hay[k + j] == needle[j],
        decreases needle.len() - i,
    {
        if hay[k + i] != needle[i] {
            assert(hay@.subrange(k as int, k + needle@.len())[i as int] != needle@[i as int]);
            return false;
        }
        i = i + 1;
    }
    assert(hay@.subrange(k as int, k + needle@.len()) =~= needle@);
    true
}

/// Tells whether `needle` stands somewhere in `hay`.
pub fn find(hay: &[u8], needle: &[u8]) -> (r: bool)
    ensures
        r == contains(hay@, needle@),
{
    if needle.len() > hay.len() {
        return false;
    }
    let last: usize = hay.len() - needle.len();
    let mut k: usize = 0;
    loop
        invariant
            last == hay@.len() - needle@.len(),
            k <= last,
            forall|j: int| 0 <= j < k ==> !occurs_at(hay@, needle@, j),
        decreases last - k,
    {
        if stands_at(hay, needle, k) {
            return true;
        }
        if k == last {
            return false;
        }
        k = k + 1;
    }
}

/// Cuts `s` into the pieces between the occurrences of `sep`.
pub fn split_bytes(s: &[u8], sep: u8) -> (parts: Vec<Vec<u8>>)
    ensures
        views(parts@) == split(s@, sep),
{
    let mut parts: Vec<Vec<u8>> = Vec::new();
    let mut current: Vec<u8> = Vec::new();
    let mut i: usize = 0;
    assert(s@.take(0) =~= Seq::<u8>::empty());
    assert(views(parts@).push(current@) =~= seq![Seq::<u8>::empty()]);
    while i < s.len()
        invariant
            i <= s.len(),
            split(s@.take(i as int), sep) == views(parts@).push(current@),
        decreases s.len() - i,
    {
        let ghost before: Seq<Seq<u8>> = views(parts@).push(current@);
        let ghost old_parts: Seq<Seq<u8>> = views(parts@);
        let ghost old_current: Seq<u8> = current@;
        let b: u8 = s[i];
        if b == sep {
            parts.push(current);
            current = Vec::new();
        } else {
            current.push(b);
        }
        i = i + 1;
        proof {
            let prefix: Seq<u8> = s@.take(i as int);
            assert(prefix.drop_last() =~= s@.take(i - 1));
            assert(prefix.last() == b);
            assert(before.last() == old_current);
            assert(before.drop_last() =~= old_parts);
            if b == sep {
                assert(views(parts@) =~= before);
                assert(views(parts@).push(current@) =~= before.push(Seq::<u8>::empty()));
            } else {
                assert(views(parts@) =~= old_parts);
                assert(views(parts@).push(current@) =~= before.drop_last().push(
                    before.last().push(b),
                ));
            }
        }
    }
    proof {
        assert(s@.take(s.len() as int) =~= s@);
    }
    let ghost done: Seq<Seq<u8>> = views(parts@).push(current@);
    parts.push(current);
    assert(views(parts@) =~= done);
    parts
}

/// Cuts a text into its lines.
pub fn split_lines(text: &[u8]) -> (out: Vec<Vec<u8>>)
    ensures
        views(out@) == lines(text@),
{
    let mut pieces: Vec<Vec<u8>> = split_bytes(text, NEWLINE);
    proof {
        lemma_split_some(text@, NEWLINE);
    }
    let ghost parts: Seq<Seq<u8>> = split(text@, NEWLINE);
    let last: Vec<u8> = pieces.pop().unwrap();
    assert(last@ == parts.last());
    assert(views(pieces@) =~= parts.drop_last());
    let mut i: usize = 0;
    while i < pieces.len()
        invariant
            i <= pieces.len(),
            pieces.len() == parts.len() - 1,
            forall|k: int| 0 <= k < i ==> (#[trigger] pieces[k])@ == strip_return(parts[k]),
            forall|k: int| i <= k < pieces.len() ==> (#[trigger] pieces[k])@ == parts[k],
        decreases pieces.len() - i,
    {
        let n: usize = pieces[i].len();
        if n > 0 && pieces[i][n - 1] == RETURN {
            let mut line: Vec<u8> = Vec::new();
            let mut j: usize = 0;
            while j < n - 1
                invariant
                    i < pieces.len(),
                    n == pieces[i as int].len(),
                    j <= n - 1,
                    line@ == pieces[i as int]@.take(j as int),
                decreases n - 1 - j,
            {
                line.push(pieces[i][j]);
                j = j + 1;
                assert(line@ =~= pieces[i as int]@.take(j as int));
            }
            assert(line@ =~= strip_return(parts[i as int]));
            pieces.set(i, line);
        }
        i = i + 1;
    }
    if last.len() > 0 {
        pieces.push(last);
    }
    assert(views(pieces@) =~= lines(text@));
    pieces
}

/// Reads the number written in `s`, if it is one.
pub fn parse_number(s: &[u8]) -> (r: Option<usize>)
    ensures
        r == number(s@),
{
    let start: usize = if s.len() > 0 && s[0] == PLUS {
        1
    } else {
        0
    };
    let ghost body: Seq<u8> = unsigned_part(s@);
    assert(body =~= s@.skip(start as int));
    if start == s.len() {
        return None;
    }
    let mut value: usize = 0;
    let mut i: usize = start;
    assert(body.take(0) =~= Seq::<u8>::empty());
    while i < s.len()
        invariant
            start <= i <= s.len(),
            body == s@.skip(start as int),
            body == unsigned_part(s@),
            all_digits(body.take(i - start)),
            value == digits_value(body.take(i - start)),
        decreases s.len() - i,
    {
        let b: u8 = s[i];
        let ghost shorter: Seq<u8> = body.take(i - start);
        let ghost longer: Seq<u8> = body.take(i - start + 1);
        proof {
            assert(longer.drop_last() =~= shorter);
            assert(longer.last() == b);
            assert(body[i - start] == b);
        }
        if b < DIGIT_ZERO || b > DIGIT_NINE {
            return None;
        }
        let digit: usize = (b - DIGIT_ZERO) as usize;
        let grown: Option<usize> = match value.checked_mul(10) {
            Some(tens) => tens.checked_add(digit),
            None => None,
        };
        match grown {
            Some(v) => {
                value = v;
            },
            None => {
                proof {
                    assert(digits_value(longer) > usize::MAX);
                    lemma_digits_grow(body, i - start + 1);
                }
                return None;
            },
        }
        i = i + 1;
        proof {
            assert forall|k: int| 0 <= k < longer.len() implies is_digit(#[trigger] longer[k]) by {
                if k < shorter.len() {
                    assert(longer[k] == shorter[k]);
                }
            }
        }
    }
    proof {
        assert(body.take(i - start) =~= body);
    }
    Some(value)
}

/// Writes `n` in decimal behind what `out` holds.
pub fn push_decimal(n: usize, out: &mut Vec<u8>)
    ensures
        final(out)@ == old(out)@ + decimal(n as nat),
    decreases n,
{
    if n >= 10 {
        push_decimal(n / 10, out);
    }
    let digit: u8 = (n % 10) as u8;
    out.push(DIGIT_ZERO + digit);
    proof {
        if n >= 10 {
            assert(final(out)@ =~= old(out)@ + decimal(n as nat));
        } else {
            assert(final(out)@ =~= old(out)@ + decimal(n as nat));
        }
    }
}

/// Writes `bytes` behind what `out` holds.
pub fn push_bytes(bytes: &[u8], out: &mut Vec<u8>)
    ensures
        final(out)@ == old(out)@ + bytes@,
{
    let mut i: usize = 0;
    assert(out@ =~= old(out)@ + bytes@.take(0));
    while i < bytes.len()
        invariant
            i <= bytes.len(),
            out@ == old(out)@ + bytes@.take(i as int),
        decreases bytes.len() - i,
    {
        out.push(bytes[i]);
        i = i + 1;
        assert(out@ =~= old(out)@ + bytes@.take(i as int));
    }
    assert(bytes@.take(bytes.len() as int) =~= bytes@);
}

/// Writes the pieces behind what `out` holds, with `sep` between each two.
pub fn push_joined(parts: &Vec<Vec<u8>>, sep: u8, out: &mut Vec<u8>)
    ensures
        final(out)@ == old(out)@ + join(views(parts@), sep),
{
    let mut i: usize = 0;
    let ghost all: Seq<Seq<u8>> = views(parts@);
    assert(all.take(0) =~= Seq::<Seq<u8>>::empty());
    assert(out@ =~= old(out)@ + join(all.take(0), sep));
    while i < parts.len()
        invariant
            i <= parts.len(),
            all == views(parts@),
            out@ == old(out)@ + join(all.take(i as int), sep),
        decreases parts.len() - i,
    {
        let ghost so_far: Seq<u8> = out@;
        if i > 0 {
            out.push(sep);
        }
        push_bytes(parts[i].as_slice(), out);
        i = i + 1;
        proof {
            let now: Seq<Seq<u8>> = all.take(i as int);
            assert(now.drop_last() =~= all.take(i - 1));
            assert(now.last() == parts[i - 1]@);
            if i == 1 {
                assert(join(now, sep) == now[0]);
                assert(join(all.take(0), sep) =~= Seq::<u8>::empty());
                assert(out@ =~= old(out)@ + join(now, sep));
            } else {
                assert(join(now, sep) == join(now.drop_last(), sep) + seq![sep] + now.last());
                assert(out@ =~= old(out)@ + join(now, sep));
            }
        }
    }
    assert(all.take(parts.len() as int) =~= all);
}

} // verus!
