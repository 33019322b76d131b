//! Characters, fields and decimal numbers of position text.
use vstd::prelude::*;

verus! {

/// Appends one character with `String::push`: the string afterwards is the
/// string before followed by `c`.
#[verifier::external_body]
pub(crate) fn push_char(s: &mut String, c: char)
    ensures
        final(s)@ == old(s)@.push(c),
{
    s.push(c);
}

/// The characters of `s`, in order.
pub fn to_chars(s: &str) -> (v: Vec<char>)
    ensures
        v@ == s@,
{
    let mut v: Vec<char> = Vec::new();
    for c in it: s.chars()
        invariant
            it.seq() == s@,
            v@ == it.seq().take(it.index() as int),
    {
        v.push(c);
        proof {
            assert(v@ =~= it.seq().take(it.index() + 1));
        }
    }
    proof {
        assert(v@ =~= s@);
    }
    v
}

/// The parts of `t` between occurrences of `sep`. There is always one part
/// more than there are separators, and parts may be empty.
pub open spec fn split(t: Seq<char>, sep: char) -> Seq<Seq<char>>
    decreases t.len(),
{
    if t.len() == 0 {
        seq![Seq::empty()]
    } else {
        let parts = split(t.drop_last(), sep);
        if t.last() == sep {
            parts.push(Seq::empty())
        } else {
            parts.update(parts.len() - 1, parts.last().push(t.last()))
        }
    }
}

/// The first `n` of `parts` with `sep` between them.
pub open spec fn join(parts: Seq<Seq<char>>, sep: char, n: nat) -> Seq<char>
    decreases n,
{
    if n == 0 {
        Seq::empty()
    } else if n == 1 {
        parts[0]
    } else {
        join(parts, sep, (n - 1) as nat).push(sep) + parts[n - 1]
    }
}

/// Whether `sep` does not occur in `t`.
pub open spec fn free_of(t: Seq<char>, sep: char) -> bool {
    forall|i: int| 0 <= i < t.len() ==> t[i] != sep
}

/// A text always splits into at least one part.
pub proof fn lemma_split_nonempty(t: Seq<char>, sep: char)
    ensures
        split(t, sep).len() >= 1,
    decreases t.len(),
{
    if t.len() > 0 {
        lemma_split_nonempty(t.drop_last(), sep);
    }
}

/// Appending text without a separator extends the last part.
pub proof fn lemma_split_extend(t: Seq<char>, u: Seq<char>, sep: char)
    requires
        free_of(u, sep),
    ensures
        split(t + u, sep).len() == split(t, sep).len(),
        split(t + u, sep) == split(t, sep).update(
            split(t, sep).len() - 1,
            split(t, sep).last() + u,
        ),
    decreases u.len(),
{
    lemma_split_nonempty(t, sep);
    let parts = split(t, sep);
    if u.len() == 0 {
        assert(t + u =~= t);
        assert(parts.last() + u =~= parts.last());
        assert(parts.update(parts.len() - 1, parts.last()) =~= parts);
    } else {
        lemma_split_extend(t, u.drop_last(), sep);
        assert((t + u).drop_last() =~= t + u.drop_last());
        assert((t + u).last() == u.last());
        let shorter = split(t + u.drop_last(), sep);
        assert(shorter.last().push(u.last()) =~= parts.last() + u);
        assert(shorter.update(shorter.len() - 1, shorter.last().push(u.last())) =~= parts.update(
            parts.len() - 1,
            parts.last() + u,
        ));
    }
}

/// Splitting what was joined gives the parts back, if no part holds the
/// separator.
pub proof fn lemma_split_join(parts: Seq<Seq<char>>, sep: char, n: nat)
    requires
        1 <= n <= parts.len(),
        forall|i: int| 0 <= i < n ==> free_of(#[trigger] parts[i], sep),
    ensures
        split(join(parts, sep, n), sep) == parts.take(n as int),
    decreases n,
{
    if n == 1 {
        let empty = Seq::<char>::empty();
        lemma_split_extend(empty, parts[0], sep);
        assert(empty + parts[0] =~= parts[0]);
        assert(split(empty, sep) =~= seq![empty]);
        assert(seq![empty].update(0, empty + parts[0]) =~= parts.take(1));
    } else {
        lemma_split_join(parts, sep, (n - 1) as nat);
        let before = join(parts, sep, (n - 1) as nat);
        assert(before.push(sep).drop_last() =~= before);
        assert(split(before.push(sep), sep) == parts.take(n - 1).push(Seq::empty()));
        lemma_split_extend(before.push(sep), parts[n - 1], sep);
        assert(Seq::<char>::empty() + parts[n - 1] =~= parts[n - 1]);
        assert(parts.take(n - 1).push(Seq::empty()).update(n - 1, parts[n - 1]) =~= parts.take(
            n as int,
        ));
    }
}

/// The parts of `text` between occurrences of `sep`.
pub fn split_chars(text: &[char], sep: char) -> (parts: Vec<Vec<char>>)
    ensures
        parts.len() == split(text@, sep).len(),
        forall|i: int| 0 <= i < parts.len() ==> (#[trigger] parts[i])@ == split(text@, sep)[i],
{
    let mut parts: Vec<Vec<char>> = Vec::new();
    let mut current: Vec<char> = Vec::new();
    let mut i: usize = 0;
    proof {
        assert(text@.take(0) =~= Seq::<char>::empty());
    }
    while i < text.len()
        invariant
            i <= text.len(),
            split(text@.take(i as int), sep).len() == parts.len() + 1,
            forall|k: int|
                0 <= k < parts.len() ==> (#[trigger] parts[k])@ == split(
                    text@.take(i as int),
                    sep,
                )[k],
            current@ == split(text@.take(i as int), sep).last(),
        decreases text.len() - i,
    {
        proof {
            assert(text@.take(i + 1).drop_last() =~= text@.take(i as int));
            assert(text@.take(i + 1).last() == text@[i as int]);
        }
        if text[i] == sep {
            parts.push(current);
            current = Vec::new();
        } else {
            current.push(text[i]);
        }
        i += 1;
    }
    proof {
        assert(text@.take(i as int) =~= text@);
    }
    parts.push(current);
    parts
}

/// The character of a decimal digit.
pub open spec fn digit_char(d: int) -> char {
    if d == 0 {
        '0'
    } else if d == 1 {
        '1'
    } else if d == 2 {
        '2'
    } else if d == 3 {
        '3'
    } else if d == 4 {
        '4'
    } else if d == 5 {
        '5'
    } else if d == 6 {
        '6'
    } else if d == 7 {
        '7'
    } else if d == 8 {
        '8'
    } else {
        '9'
    }
}

/// The digit that a character shows, if it is a decimal digit.
pub open spec fn char_digit(c: char) -> Option<int> {
    if c == '0' {
        Some(0int)
    } else if c == '1' {
        Some(1int)
    } else if c == '2' {
        Some(2int)
    } else if c == '3' {
        Some(3int)
    } else if c == '4' {
        Some(4int)
    } else if c == '5' {
        Some(5int)
    } else if c == '6' {
        Some(6int)
    } else if c == '7' {
        Some(7int)
    } else if c == '8' {
        Some(8int)
    } else if c == '9' {
        Some(9int)
    } else {
        None
    }
}

/// The decimal text of `n`, without leading zeros.
pub open spec fn decimal(n: nat) -> Seq<char>
    decreases n,
{
    if n < 10 {
        seq![digit_char(n as int)]
    } else {
        decimal(n / 10).push(digit_char((n % 10) as int))
    }
}

/// Whether every character of `t` is a decimal digit.
pub open spec fn all_digits(t: Seq<char>) -> bool {
    forall|i: int| 0 <= i < t.len() ==> char_digit(#[trigger] t[i]) is Some
}

/// The number that a text of decimal digits shows.
pub open spec fn digits_value(t: Seq<char>) -> nat
    decreases t.len(),
{
    if t.len() == 0 {
        0
    } else {
        digits_value(t.drop_last()) * 10 + (match char_digit(t.last()) {
            Some(d) => d as nat,
            None => 0,
        })
    }
}

/// The number that `t` shows, if `t` is a non-empty text of decimal digits
/// and the number fits in 16 bits.
pub open spec fn number(t: Seq<char>) -> Option<u16> {
    if t.len() > 0 && all_digits(t) && digits_value(t) <= u16::MAX {
        Some(digits_value(t) as u16)
    } else {
        None
    }
}

/// The decimal text of a number is made of digits only and shows that number.
pub proof fn lemma_decimal(n: nat)
    ensures
        decimal(n).len() > 0,
        all_digits(decimal(n)),
        digits_value(decimal(n)) == n,
    decreases n,
{
    if n < 10 {
        let t = decimal(n);
        assert(t.drop_last() =~= Seq::<char>::empty());
        assert(digits_value(t.drop_last()) == 0);
    } else {
        lemma_decimal(n / 10);
        let t = decimal(n);
        assert(t.drop_last() =~= decimal(n / 10));
        assert(char_digit(digit_char((n % 10) as int)) == Some((n % 10) as int));
    }
}

/// The value of a text of digits is at least the value of each of its
/// beginnings.
pub proof fn lemma_digits_value_grows(t: Seq<char>, i: int)
    requires
        0 <= i <= t.len(),
    ensures
        digits_value(t.take(i)) <= digits_value(t),
    decreases t.len() - i,
{
    if i < t.len() {
        lemma_digits_value_grows(t, i + 1);
        assert(t.take(i + 1).drop_last() =~= t.take(i));
    } else {
        assert(t.take(i) =~= t);
    }
}

/// The digit that `c` shows, if it is a decimal digit.
pub fn digit_of_char(c: char) -> (d: Option<u32>)
    ensures
        d is Some <==> char_digit(c) is Some,
        d is Some ==> d->0 as int == char_digit(c)->0,
        d is Some ==> d->0 <= 9,
{
    if c == '0' {
        Some(0)
    } else if c == '1' {
        Some(1)
    } else if c == '2' {
        Some(2)
    } else if c == '3' {
        Some(3)
    } else if c == '4' {
        Some(4)
    } else if c == '5' {
        Some(5)
    } else if c == '6' {
        Some(6)
    } else if c == '7' {
        Some(7)
    } else if c == '8' {
        Some(8)
    } else if c == '9' {
        Some(9)
    } else {
        None
    }
}

/// The character of the digit `d`.
pub fn char_of_digit(d: u16) -> (c: char)
    requires
        d <= 9,
    ensures
        c == digit_char(d as int),
{
    if d == 0 {
        '0'
    } else if d == 1 {
        '1'
    } else if d == 2 {
        '2'
    } else if d == 3 {
        '3'
    } else if d == 4 {
        '4'
    } else if d == 5 {
        '5'
    } else if d == 6 {
        '6'
    } else if d == 7 {
        '7'
    } else if d == 8 {
        '8'
    } else {
        '9'
    }
}

/// Reads a number in decimal digits. `None` if `text` is empty, holds
/// anything but digits, or shows a number above 65535.
pub fn parse_number(text: &[char]) -> (n: Option<u16>)
    ensures
        n == number(text@),
{
    if text.len() == 0 {
        return None;
    }
    let mut value: u32 = 0;
    let mut i: usize = 0;
    proof {
        assert(text@.take(0) =~= Seq::<char>::empty());
    }
    while i < text.len()
        invariant
            i <= text.len(),
            all_digits(text@.take(i as int)),
            value == digits_value(text@.take(i as int)),
            value <= u16::MAX,
        decreases text.len() - i,
    {
        proof {
            assert(text@.take(i + 1).drop_last() =~= text@.take(i as int));
            assert(text@.take(i + 1).last() == text@[i as int]);
        }
        match digit_of_char(text[i]) {
            None => {
                proof {
                    assert(char_digit(text@[i as int]) is None);
                }
                return None;
            },
            Some(d) => {
                value = value * 10 + d;
                proof {
                    assert forall|k: int| 0 <= k < i + 1 implies char_digit(
                        #[trigger] text@.take(i + 1)[k],
                    ) is Some by {
                        if k < i {
                            assert(text@.take(i + 1)[k] == text@.take(i as int)[k]);
                        }
                    }
                }
                if value > 65535 {
                    proof {
                        lemma_digits_value_grows(text@, i + 1);
                    }
                    return None;
                }
            },
        }
        i += 1;
    }
    proof {
        assert(text@.take(i as int) =~= text@);
    }
    Some(value as u16)
}

/// Appends the decimal text of `n` to `s`.
pub fn push_number(s: &mut String, n: u16)
    ensures
        final(s)@ == old(s)@ + decimal(n as nat),
    decreases n,
{
    if n >= 10 {
        push_number(s, n / 10);
    }
    push_char(s, char_of_digit(n % 10));
    proof {
        assert(s@ =~= old(s)@ + decimal(n as nat));
    }
}

} // verus!
