//! Text as a sequence of characters: comparison, search, and division into
//! pieces and numbers.

use vstd::prelude::*;
use vstd::string::StrSliceExecFns;
use vstd::utf8::{encode_utf8, encode_utf8_decode_utf8};

verus! {

/// The place of the first `mark` in the text, or the length of the text where
/// it holds none.
pub open spec fn first_of(text: Seq<char>, mark: char) -> int
    decreases text.len(),
{
    if text.len() == 0 || text[0] == mark {
        0
    } else {
        1 + first_of(text.drop_first(), mark)
    }
}

/// The pieces of the text that lie between the marks. A text without mark is
/// one piece; two marks in a row have an empty piece between them.
pub open spec fn split(text: Seq<char>, mark: char) -> Seq<Seq<char>>
    decreases text.len(),
{
    let at = first_of(text, mark);
    if 0 <= at < text.len() {
        seq![text.take(at)] + split(text.skip(at + 1), mark)
    } else {
        seq![text]
    }
}

/// Tells the pieces that hold something.
pub open spec fn filled() -> spec_fn(Seq<char>) -> bool {
    |piece: Seq<char>| piece.len() > 0
}

/// The words of the text: what stands between spaces.
pub open spec fn words(text: Seq<char>) -> Seq<Seq<char>> {
    split(text, ' ').filter(filled())
}

/// The character is one of the digits `0` to `9`.
pub open spec fn is_digit(c: char) -> bool {
    '0' <= c <= '9'
}

/// The number that the digits spell in base ten.
pub open spec fn decimal_value(digits: Seq<char>) -> int
    decreases digits.len(),
{
    if digits.len() == 0 {
        0
    } else {
        decimal_value(digits.drop_last()) * 10 + (digits.last() as int - '0' as int)
    }
}

/// The number that the text spells: it is made of digits, at least one, and the
/// number fits the machine.
pub open spec fn decimal(text: Seq<char>) -> Option<usize> {
    if text.len() > 0 && (forall|i: int| 0 <= i < text.len() ==> is_digit(#[trigger] text[i]))
        && decimal_value(text) <= usize::MAX {
        Some(decimal_value(text) as usize)
    } else {
        None
    }
}

/// `first_of` is the least place that holds the mark.
pub proof fn lemma_first_of(text: Seq<char>, mark: char)
    ensures
        0 <= first_of(text, mark) <= text.len(),
        first_of(text, mark) < text.len() ==> text[first_of(text, mark)] == mark,
        forall|i: int| 0 <= i < first_of(text, mark) ==> text[i] != mark,
    decreases text.len(),
{
    if text.len() == 0 || text[0] == mark {
    } else {
        let rest = text.drop_first();
        lemma_first_of(rest, mark);
        assert forall|i: int| 0 <= i < first_of(text, mark) implies text[i] != mark by {
            if i > 0 {
                assert(text[i] == rest[i - 1]);
            }
        }
    }
}

/// The least place that holds the mark is `first_of`.
pub proof fn lemma_first_of_is(text: Seq<char>, mark: char, at: int)
    requires
        0 <= at <= text.len(),
        at < text.len() ==> text[at] == mark,
        forall|i: int| 0 <= i < at ==> text[i] != mark,
    ensures
        first_of(text, mark) == at,
{
    lemma_first_of(text, mark);
}

/// The words of a text are its first piece, if it holds something, and the
/// words of what follows the first space.
pub proof fn lemma_words(text: Seq<char>)
    ensures
        words(text) == (if first_of(text, ' ') > 0 {
            seq![text.take(first_of(text, ' '))]
        } else {
            seq![]
        }) + (if first_of(text, ' ') < text.len() {
            words(text.skip(first_of(text, ' ') + 1))
        } else {
            seq![]
        }),
{
    lemma_first_of(text, ' ');
    let at = first_of(text, ' ');
    let first = seq![text.take(at)];
    assert(first.filter(filled()) =~= if at > 0 {
        first
    } else {
        seq![]
    }) by {
        reveal_with_fuel(Seq::filter, 2);
        assert(first.drop_last() =~= Seq::empty());
    }
    if at < text.len() {
        Seq::filter_distributes_over_add(first, split(text.skip(at + 1), ' '), filled());
    } else {
        assert(text.take(at) =~= text);
        assert(first + Seq::<Seq<char>>::empty() =~= first);
    }
}

/// A number does not get smaller when digits are added to it.
pub proof fn lemma_decimal_grows(digits: Seq<char>, upto: int)
    requires
        0 <= upto <= digits.len(),
        forall|i: int| 0 <= i < digits.len() ==> is_digit(#[trigger] digits[i]),
    ensures
        0 <= decimal_value(digits.take(upto)) <= decimal_value(digits),
    decreases digits.len() - upto,
{
    lemma_decimal_positive(digits.take(upto));
    if upto < digits.len() {
        lemma_decimal_grows(digits, upto + 1);
        assert(digits.take(upto + 1).drop_last() =~= digits.take(upto));
        assert(is_digit(digits[upto]));
    } else {
        assert(digits.take(upto) =~= digits);
    }
}

/// Digits spell a number that is not negative.
pub proof fn lemma_decimal_positive(digits: Seq<char>)
    requires
        forall|i: int| 0 <= i < digits.len() ==> is_digit(#[trigger] digits[i]),
    ensures
        0 <= decimal_value(digits),
    decreases digits.len(),
{
    if digits.len() > 0 {
        lemma_decimal_positive(digits.drop_last());
        assert(is_digit(digits[digits.len() - 1]));
    }
}

/// Tells whether two string slices hold the same characters.
pub fn same(a: &str, b: &str) -> (equal: bool)
    ensures
        equal == (a@ == b@),
{
    let x = a.as_bytes();
    let y = b.as_bytes();
    if x.len() != y.len() {
        return false;
    }
    let mut i: usize = 0;
    while i < x.len()
        invariant
            i <= x.len(),
            x.len() == y.len(),
            x@ == encode_utf8(a@),
            y@ == encode_utf8(b@),
            forall|k: int| 0 <= k < i ==> x@[k] == y@[k],
        decreases x.len() - i,
    {
        if x[i] != y[i] {
            return false;
        }
        i += 1;
    }
    proof {
        assert(x@ =~= y@);
        encode_utf8_decode_utf8(a@);
        encode_utf8_decode_utf8(b@);
    }
    true
}

/// The characters of the text.
pub fn chars_of(text: &str) -> (chars: Vec<char>)
    ensures
        chars@ == text@,
{
    let mut chars: Vec<char> = Vec::new();
    for c in iter: text.chars()
        invariant
            iter.seq() == text@,
            chars@ == text@.take(iter.index()),
    {
        let ghost at = iter.index();
        chars.push(c);
        assert(chars@ =~= text@.take(at + 1));
    }
    assert(text@.take(text@.len() as int) =~= text@);
    chars
}

/// The place of the first `mark` between `from` and `to`, or `to` where
/// there is none.
pub fn find(chars: &Vec<char>, from: usize, to: usize, mark: char) -> (at: usize)
    requires
        from <= to <= chars.len(),
    ensures
        from <= at <= to,
        at - from == first_of(chars@.subrange(from as int, to as int), mark),
{
    let ghost part = chars@.subrange(from as int, to as int);
    let mut at: usize = from;
    while at < to
        invariant
            from <= at <= to <= chars.len(),
            part == chars@.subrange(from as int, to as int),
            forall|i: int| 0 <= i < at - from ==> part[i] != mark,
        decreases to - at,
    {
        if chars[at] == mark {
            proof {
                assert(part[at - from] == mark);
                lemma_first_of_is(part, mark, at - from);
            }
            return at;
        }
        at += 1;
    }
    proof {
        lemma_first_of_is(part, mark, at - from);
    }
    at
}

/// The words that stand between `from` and `to` in the text, whose
/// characters are `chars`.
pub fn words_in(text: &str, chars: &Vec<char>, from: usize, to: usize) -> (found: Vec<String>)
    requires
        chars@ == text@,
        from <= to <= chars.len(),
    ensures
        found.deep_view() == words(chars@.subrange(from as int, to as int)),
{
    let ghost all = words(chars@.subrange(from as int, to as int));
    let mut found: Vec<String> = Vec::new();
    let mut pos: usize = from;
    assert(found.deep_view() =~= Seq::empty());
    loop
        invariant_except_break
            all == found.deep_view() + words(chars@.subrange(pos as int, to as int)),
        invariant
            chars@ == text@,
            from <= pos <= to <= chars.len(),
        ensures
            all == found.deep_view(),
        decreases to - pos,
    {
        let ghost rest = chars@.subrange(pos as int, to as int);
        let ghost so_far = found.deep_view();
        let end = find(chars, pos, to, ' ');
        proof {
            lemma_words(rest);
            assert(rest.take(end - pos) =~= chars@.subrange(pos as int, end as int));
        }
        if end > pos {
            let word = text.substring_char(pos, end);
            found.push(word.to_owned());
            assert(found.deep_view() =~= so_far.push(rest.take(end - pos)));
        }
        if end >= to {
            assert(all =~= found.deep_view());
            break ;
        }
        proof {
            assert(rest.skip(end - pos + 1) =~= chars@.subrange(end + 1, to as int));
        }
        pos = end + 1;
    }
    found
}

/// The number that the characters between `from` and `to` spell, if they
/// spell one.
pub fn decimal_in(chars: &Vec<char>, from: usize, to: usize) -> (number: Option<usize>)
    requires
        from <= to <= chars.len(),
    ensures
        number == decimal(chars@.subrange(from as int, to as int)),
{
    let ghost digits = chars@.subrange(from as int, to as int);
    if from == to {
        return None;
    }
    let mut value: usize = 0;
    let mut i: usize = from;
    while i < to
        invariant
            from <= i <= to <= chars.len(),
            digits == chars@.subrange(from as int, to as int),
            forall|k: int| 0 <= k < i - from ==> is_digit(#[trigger] digits[k]),
            value == decimal_value(digits.take(i - from)),
        decreases to - i,
    {
        let c = chars[i];
        if c < '0' || c > '9' {
            assert(!is_digit(digits[i - from]));
            return None;
        }
        let digit = (c as u32 - '0' as u32) as usize;
        proof {
            assert(digits.take(i - from + 1).drop_last() =~= digits.take(i - from));
            assert(digits.take(i - from + 1).last() == c);
        }
        if value > (usize::MAX - digit) / 10 {
            proof {
                if forall|k: int| 0 <= k < digits.len() ==> is_digit(#[trigger] digits[k]) {
                    lemma_decimal_grows(digits, i - from + 1);
                }
            }
            return None;
        }
        value = value * 10 + digit;
        i += 1;
    }
    assert(digits.take(to - from) =~= digits);
    Some(value)
}

} // verus!
