//! Byte-level helpers shared by the protocol and path code.

use vstd::prelude::*;
use vstd::string::*;
use vstd::utf8::*;

verus! {

/// The decimal digits of `n` in ASCII, most significant first, without
/// leading zeros (`0` is the single digit `"0"`).
pub open spec fn decimal_digits(n: nat) -> Seq<u8>
    decreases n,
{
    if n < 10 {
        seq![(48 + n) as u8]
    } else {
        decimal_digits(n / 10).push((48 + n % 10) as u8)
    }
}

/// The digits that stand before the last one: none for a number below ten.
spec fn leading_digits(n: nat) -> Seq<u8> {
    if n == 0 {
        Seq::empty()
    } else {
        decimal_digits(n)
    }
}

proof fn lemma_decimal_unfold(n: nat)
    ensures
        decimal_digits(n) == leading_digits(n / 10).push((48 + n % 10) as u8),
{
    if n < 10 {
        assert(n / 10 == 0);
        assert(n % 10 == n);
        assert(decimal_digits(n) =~= Seq::<u8>::empty().push((48 + n) as u8));
    } else {
        assert(n / 10 > 0);
    }
}

/// A decimal rendering is well-formed UTF-8.
pub proof fn lemma_decimal_is_utf8(n: nat)
    ensures
        valid_utf8(decimal_digits(n)),
    decreases n,
{
    let digit = seq![(48 + n % 10) as u8];
    assert(valid_utf8(digit)) by {
        reveal_with_fuel(valid_utf8, 2);
        assert(pop_first_scalar(digit) =~= Seq::<u8>::empty());
    }
    if n < 10 {
        assert(decimal_digits(n) =~= digit);
    } else {
        lemma_decimal_is_utf8(n / 10);
        valid_utf8_concat(decimal_digits(n / 10), digit);
        assert(decimal_digits(n) =~= decimal_digits(n / 10) + digit);
    }
}

/// Appends the decimal rendering of `n` to `out`.
pub fn push_decimal(out: &mut Vec<u8>, n: usize)
    ensures
        final(out)@ == old(out)@ + decimal_digits(n as nat),
{
    let mut low_first: Vec<u8> = Vec::new();
    low_first.push(48u8 + (n % 10) as u8);
    let mut rest: usize = n / 10;
    proof {
        lemma_decimal_unfold(n as nat);
        assert(low_first@.reverse() =~= seq![(48 + n % 10) as u8]);
        assert(decimal_digits(n as nat) =~= leading_digits(rest as nat) + low_first@.reverse());
    }
    while rest > 0
        invariant
            low_first@.len() >= 1,
            decimal_digits(n as nat) == leading_digits(rest as nat) + low_first@.reverse(),
        decreases rest,
    {
        let ghost before = low_first@;
        let digit: u8 = 48u8 + (rest % 10) as u8;
        low_first.push(digit);
        proof {
            lemma_decimal_unfold(rest as nat);
            assert(low_first@.reverse() =~= seq![digit] + before.reverse());
            assert(leading_digits(rest as nat) + before.reverse() =~= leading_digits(
                (rest / 10) as nat,
            ) + low_first@.reverse());
        }
        rest = rest / 10;
    }
    let mut i: usize = low_first.len();
    let ghost digits = low_first@.reverse();
    assert(digits == decimal_digits(n as nat)) by {
        assert(leading_digits(0) + digits =~= digits);
    }
    while i > 0
        invariant
            i <= low_first@.len(),
            digits == low_first@.reverse(),
            out@ == old(out)@ + digits.subrange(0, low_first@.len() - i),
        decreases i,
    {
        i = i - 1;
        out.push(low_first[i]);
        assert(out@ =~= old(out)@ + digits.subrange(0, low_first@.len() - i));
    }
    assert(digits.subrange(0, low_first@.len() as int) =~= digits);
}

/// Appends every byte of `bytes` to `out`.
pub fn push_bytes(out: &mut Vec<u8>, bytes: &[u8])
    ensures
        final(out)@ == old(out)@ + bytes@,
{
    let mut i: usize = 0;
    while i < bytes.len()
        invariant
            i <= bytes@.len(),
            out@ == old(out)@ + bytes@.subrange(0, i as int),
        decreases bytes@.len() - i,
    {
        out.push(bytes[i]);
        i = i + 1;
        assert(out@ =~= old(out)@ + bytes@.subrange(0, i as int));
    }
    assert(bytes@.subrange(0, bytes@.len() as int) =~= bytes@);
}

/// Whether `pattern` stands in `bytes` at index `at`.
pub open spec fn occurs_at(bytes: Seq<u8>, pattern: Seq<u8>, at: int) -> bool {
    0 <= at && at + pattern.len() <= bytes.len() && bytes.subrange(at, at + pattern.len())
        == pattern
}

/// Whether `bytes` begins with `prefix`.
pub open spec fn starts_with(bytes: Seq<u8>, prefix: Seq<u8>) -> bool {
    occurs_at(bytes, prefix, 0)
}

/// Whether `bytes` ends with `suffix`.
pub open spec fn ends_with(bytes: Seq<u8>, suffix: Seq<u8>) -> bool {
    occurs_at(bytes, suffix, bytes.len() - suffix.len())
}

/// Whether `at` is the least index at which `pattern` stands in `bytes`.
pub open spec fn is_first_occurrence(bytes: Seq<u8>, pattern: Seq<u8>, at: int) -> bool {
    occurs_at(bytes, pattern, at) && forall|earlier: int|
        0 <= earlier < at ==> !occurs_at(bytes, pattern, earlier)
}

/// The least index at which `pattern` stands in `bytes`; meaningful only
/// where it stands there at all.
pub open spec fn first_occurrence(bytes: Seq<u8>, pattern: Seq<u8>) -> int {
    choose|at: int| is_first_occurrence(bytes, pattern, at)
}

/// There is at most one first occurrence, so finding one fixes
/// [`first_occurrence`].
pub proof fn lemma_first_occurrence_is(bytes: Seq<u8>, pattern: Seq<u8>, at: int)
    requires
        is_first_occurrence(bytes, pattern, at),
    ensures
        first_occurrence(bytes, pattern) == at,
{
    let chosen = first_occurrence(bytes, pattern);
    assert(is_first_occurrence(bytes, pattern, chosen));
    if chosen < at {
        assert(!occurs_at(bytes, pattern, chosen));
    } else if at < chosen {
        assert(!occurs_at(bytes, pattern, at));
    }
}

/// Whether `pattern` stands in `bytes` at index `at`.
pub fn matches_at(bytes: &[u8], pattern: &[u8], at: usize) -> (found: bool)
    ensures
        found == occurs_at(bytes@, pattern@, at as int),
{
    if pattern.len() > bytes.len() || at > bytes.len() - pattern.len() {
        return false;
    }
    let mut i: usize = 0;
    while i < pattern.len()
        invariant
            i <= pattern@.len(),
            at + pattern@.len() <= bytes@.len() <= usize::MAX,
            bytes@.subrange(at as int, at + i) == pattern@.subrange(0, i as int),
        decreases pattern@.len() - i,
    {
        if bytes[at + i] != pattern[i] {
            assert(bytes@.subrange(at as int, at + pattern@.len())[i as int] != pattern@[i as int]);
            return false;
        }
        i = i + 1;
        assert(bytes@.subrange(at as int, at + i) =~= pattern@.subrange(0, i as int)) by {
            let a = bytes@.subrange(at as int, at + i);
            let b = pattern@.subrange(0, i as int);
            assert forall|k: int| 0 <= k < i implies a[k] == b[k] by {
                if k < i - 1 {
                    assert(a[k] == bytes@.subrange(at as int, at + i - 1)[k]);
                    assert(b[k] == pattern@.subrange(0, i - 1)[k]);
                }
            }
        }
    }
    assert(pattern@.subrange(0, pattern@.len() as int) =~= pattern@);
    true
}

/// Whether `bytes` begins with `prefix`.
pub fn has_prefix(bytes: &[u8], prefix: &[u8]) -> (found: bool)
    ensures
        found == starts_with(bytes@, prefix@),
{
    matches_at(bytes, prefix, 0)
}

/// Whether `bytes` ends with `suffix`.
pub fn has_suffix(bytes: &[u8], suffix: &[u8]) -> (found: bool)
    ensures
        found == ends_with(bytes@, suffix@),
{
    if suffix.len() > bytes.len() {
        return false;
    }
    matches_at(bytes, suffix, bytes.len() - suffix.len())
}

/// The least index from `from` on at which `pattern` stands in `bytes`.
pub fn find_from(bytes: &[u8], pattern: &[u8], from: usize) -> (found: Option<usize>)
    ensures
        match found {
            Some(at) => from <= at && occurs_at(bytes@, pattern@, at as int) && forall|earlier: int|
                from <= earlier < at ==> !occurs_at(bytes@, pattern@, earlier),
            None => forall|at: int| from <= at ==> !occurs_at(bytes@, pattern@, at),
        },
{
    let mut at: usize = from;
    while at < bytes.len()
        invariant
            from <= at,
            forall|earlier: int| from <= earlier < at ==> !occurs_at(bytes@, pattern@, earlier),
        decreases bytes@.len() - at,
    {
        if matches_at(bytes, pattern, at) {
            return Some(at);
        }
        at = at + 1;
    }
    if matches_at(bytes, pattern, at) {
        return Some(at);
    }
    None
}

/// In well-formed UTF-8 a character begins at every byte below 128.
pub proof fn lemma_ascii_byte_is_boundary(bytes: Seq<u8>, at: int)
    requires
        valid_utf8(bytes),
        0 <= at < bytes.len(),
        bytes[at] < 0x80,
    ensures
        is_char_boundary(bytes, at),
{
    is_char_boundary_iff_not_is_continuation_byte(bytes, at);
}

/// In well-formed UTF-8 a character ends with every byte below 128: what
/// follows it is the end of the text or the first byte of a character.
pub proof fn lemma_boundary_behind_ascii_byte(bytes: Seq<u8>, at: int)
    requires
        valid_utf8(bytes),
        0 <= at < bytes.len(),
        bytes[at] < 0x80,
    ensures
        is_char_boundary(bytes, at + 1),
{
    if at + 1 == bytes.len() {
        is_char_boundary_start_end_of_seq(bytes);
    } else {
        lemma_ascii_byte_is_boundary(bytes, at);
        valid_utf8_split(bytes, at);
        let tail = bytes.subrange(at, bytes.len() as int);
        assert(tail[0] == bytes[at]);
        assert(valid_first_scalar(tail) && valid_utf8(pop_first_scalar(tail)));
        let rest = pop_first_scalar(tail);
        assert(rest =~= bytes.subrange(at + 1, bytes.len() as int));
        assert(valid_first_scalar(rest));
        assert(rest[0] == bytes[at + 1]);
        is_char_boundary_iff_is_leading_byte(bytes, at + 1);
    }
}

/// The part of `text` from byte `from` up to byte `to`, where a character
/// begins at either of them.
pub(crate) fn part_between<'a>(text: &'a str, from: usize, to: usize) -> (part: &'a str)
    requires
        from <= to <= text.spec_bytes().len(),
        is_char_boundary(text.spec_bytes(), from as int),
        is_char_boundary(text.spec_bytes(), to as int),
    ensures
        part.spec_bytes() == text.spec_bytes().subrange(from as int, to as int),
{
    let ghost bytes = text.spec_bytes();
    proof {
        encode_utf8_valid_utf8(text@);
        valid_utf8_split(bytes, to as int);
    }
    let (head, _) = text.split_at(to);
    proof {
        let head_bytes = head.spec_bytes();
        assert(head_bytes == bytes.subrange(0, to as int));
        if from < to {
            is_char_boundary_iff_not_is_continuation_byte(bytes, from as int);
            is_char_boundary_iff_not_is_continuation_byte(head_bytes, from as int);
        } else {
            is_char_boundary_start_end_of_seq(head_bytes);
        }
    }
    let (_, part) = head.split_at(from);
    assert(part.spec_bytes() =~= bytes.subrange(from as int, to as int));
    part
}

/// Whether the two hold the same bytes.
pub fn same_bytes(left: &[u8], right: &[u8]) -> (same: bool)
    ensures
        same == (left@ == right@),
{
    if left.len() != right.len() {
        return false;
    }
    let same = matches_at(left, right, 0);
    assert(left@.subrange(0, left@.len() as int) =~= left@);
    same
}

/// The length of the first line of `input`: up to its first line feed and
/// with it, or all of `input` where it holds none.
pub open spec fn line_len(input: Seq<u8>) -> nat
    decreases input.len(),
{
    if input.len() == 0 {
        0
    } else if input[0] == 0x0a {
        1
    } else {
        1 + line_len(input.drop_first())
    }
}

/// A line is never longer than the input that it is taken from, and is
/// empty only where the input is.
pub proof fn lemma_line_len_bounds(input: Seq<u8>)
    ensures
        line_len(input) <= input.len(),
        input.len() > 0 ==> line_len(input) > 0,
    decreases input.len(),
{
    if input.len() > 0 && input[0] != 0x0a {
        lemma_line_len_bounds(input.drop_first());
    }
}

/// The index behind the line that begins at `from`: behind its line feed,
/// or the end of `input` where none follows.
pub(crate) fn line_end(input: &[u8], from: usize) -> (end: usize)
    requires
        from <= input@.len(),
    ensures
        end == from + line_len(input@.skip(from as int)),
        end <= input@.len(),
{
    let mut at: usize = from;
    while at < input.len()
        invariant
            from <= at <= input@.len(),
            from + line_len(input@.skip(from as int)) == at + line_len(input@.skip(at as int)),
        decreases input@.len() - at,
    {
        assert(input@.skip(at as int).drop_first() =~= input@.skip(at + 1));
        if input[at] == 0x0a {
            return at + 1;
        }
        at = at + 1;
    }
    at
}

/// Whether `left` comes before `right` in the order of byte strings: at
/// the first byte in which they differ `left` has the lesser byte, or
/// `left` is a proper prefix of `right`.
pub open spec fn lex_less(left: Seq<u8>, right: Seq<u8>) -> bool
    decreases left.len(),
{
    if right.len() == 0 {
        false
    } else if left.len() == 0 {
        true
    } else if left[0] != right[0] {
        left[0] < right[0]
    } else {
        lex_less(left.drop_first(), right.drop_first())
    }
}

/// No byte string comes before itself.
pub proof fn lemma_lex_less_irreflexive(bytes: Seq<u8>)
    ensures
        !lex_less(bytes, bytes),
    decreases bytes.len(),
{
    if bytes.len() > 0 {
        lemma_lex_less_irreflexive(bytes.drop_first());
    }
}

/// The bytes of `bytes` in reverse order.
pub fn reversed(bytes: &[u8]) -> (back: Vec<u8>)
    ensures
        back@ == bytes@.reverse(),
{
    let mut back: Vec<u8> = Vec::new();
    let mut left: usize = bytes.len();
    while left > 0
        invariant
            left <= bytes@.len(),
            back@ == bytes@.reverse().subrange(0, bytes@.len() - left),
        decreases left,
    {
        left = left - 1;
        back.push(bytes[left]);
        assert(back@ =~= bytes@.reverse().subrange(0, bytes@.len() - left));
    }
    assert(bytes@.reverse().subrange(0, bytes@.len() as int) =~= bytes@.reverse());
    back
}

/// Reversing twice gives the bytes back.
pub proof fn lemma_reverse_twice(bytes: Seq<u8>)
    ensures
        bytes.reverse().reverse() == bytes,
{
    assert(bytes.reverse().reverse() =~= bytes);
}

/// A byte string ends with `suffix` exactly when its reverse begins with
/// the reverse of `suffix`.
pub proof fn lemma_suffix_is_reversed_prefix(bytes: Seq<u8>, suffix: Seq<u8>)
    ensures
        ends_with(bytes, suffix) == starts_with(bytes.reverse(), suffix.reverse()),
{
    let back = bytes.reverse();
    let xiffus = suffix.reverse();
    let n = bytes.len() as int;
    let m = suffix.len() as int;
    if m <= n {
        let tail = bytes.subrange(n - m, n);
        let front = back.subrange(0, m);
        assert(front =~= tail.reverse());
        if tail == suffix {
            assert(front == xiffus);
        }
        if front == xiffus {
            lemma_reverse_twice(tail);
            lemma_reverse_twice(suffix);
            assert(tail == suffix);
        }
    }
}

} // verus!
