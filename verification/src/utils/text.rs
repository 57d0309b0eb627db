//! The text form of an identifier, and why texts sort as identifiers do.
use vstd::prelude::*;
use vstd::arithmetic::div_mod::{
    lemma_basic_div, lemma_div_denominator, lemma_div_is_ordered, lemma_div_pos_is_pos,
    lemma_fundamental_div_mod, lemma_mod_pos_bound,
};
use vstd::arithmetic::power::{lemma_pow_positive, pow};
use vstd::string::StrSliceExecFns;

verus! {

/// The number of characters in the text form of an identifier.
pub const TEXT_LEN: usize = 26;

/// The character that stands for a five-bit digit in the text form.
pub open spec fn digit_char(digit: int) -> char {
    "0123456789ABCDEFGHJKMNPQRSTVWXYZ"@[digit]
}

/// The five-bit digit at a place of the text form; place 0 is the most
/// significant.
pub open spec fn digit(value: u128, place: int) -> int {
    (value as int / pow(32, (25 - place) as nat)) % 32
}

/// The text form of an identifier: its value written in base 32 with 26
/// digits, the most significant first.
pub open spec fn ulid_text(value: u128) -> Seq<char> {
    Seq::new(26, |place: int| digit_char(digit(value, place)))
}

/// Whether a character stands for a digit: the character of the digit
/// itself or, for a letter, its lower-case form.
pub open spec fn stands_for(c: char, digit: int) -> bool {
    &&& 0 <= digit < 32
    &&& (c == digit_char(digit) || (10 <= digit && c as u32 == digit_char(digit) as u32 + 32))
}

/// The digit that a character stands for, if it stands for one.
pub open spec fn char_digit(c: char) -> Option<int> {
    if exists|digit: int| stands_for(c, digit) {
        Some(choose|digit: int| stands_for(c, digit))
    } else {
        None
    }
}

/// The number that the digits of a text spell in base 32, the most
/// significant first.
pub open spec fn text_number(text: Seq<char>) -> int
    decreases text.len(),
{
    if text.len() == 0 {
        0
    } else {
        32 * text_number(text.drop_last()) + char_digit(text.last()).unwrap()
    }
}

/// The value that a text is read as: a text of 26 characters that all
/// stand for digits is read as the number they spell, of which the lowest
/// 128 bits are kept; no other text is read.
pub open spec fn text_value(text: Seq<char>) -> Option<u128> {
    if text.len() == TEXT_LEN && (forall|i: int| 0 <= i < text.len() ==> char_digit(text[i]) is Some) {
        Some((text_number(text) % (u128::MAX + 1)) as u128)
    } else {
        None
    }
}

/// Whether two texts part at a place with the first on the lesser side:
/// they agree before it, and there the first has the lesser character, or
/// the first ends and the second goes on.
pub open spec fn parts_at(a: Seq<char>, b: Seq<char>, place: int) -> bool {
    &&& 0 <= place <= a.len()
    &&& place <= b.len()
    &&& forall|i: int| 0 <= i < place ==> a[i] == b[i]
    &&& if place == a.len() {
        place < b.len()
    } else {
        place < b.len() && (a[place] as u32) < (b[place] as u32)
    }
}

/// Whether one text sorts before another, character by character, as
/// strings compare.
pub open spec fn text_before(a: Seq<char>, b: Seq<char>) -> bool {
    exists|place: int| parts_at(a, b, place)
}

/// The identifier whose text form a text is, if it is that of one.
pub open spec fn identifier_of(text: Seq<char>) -> Option<u128> {
    if exists|value: u128| #[trigger] ulid_text(value) == text {
        Some(choose|value: u128| #[trigger] ulid_text(value) == text)
    } else {
        None
    }
}

/// A greater digit has a greater character.
pub proof fn lemma_digit_chars_ascend(low: int, high: int)
    requires
        0 <= low < high < 32,
    ensures
        (digit_char(low) as u32) < (digit_char(high) as u32),
{
    reveal_strlit("0123456789ABCDEFGHJKMNPQRSTVWXYZ");
    let alphabet = "0123456789ABCDEFGHJKMNPQRSTVWXYZ"@;
    assert forall|d: int| 0 <= d < 31 implies (#[trigger] alphabet[d] as u32) < (alphabet[d
        + 1] as u32) by {}
    lemma_chain(alphabet, low, high);
}

/// Along a run whose neighbours ascend, every later character is greater.
proof fn lemma_chain(run: Seq<char>, low: int, high: int)
    requires
        0 <= low < high < run.len(),
        forall|d: int| 0 <= d < run.len() - 1 ==> (#[trigger] run[d] as u32) < (run[d + 1] as u32),
    ensures
        (run[low] as u32) < (run[high] as u32),
    decreases high - low,
{
    if low + 1 < high {
        lemma_chain(run, low, high - 1);
    }
    assert((run[high - 1] as u32) < (run[high - 1 + 1] as u32));
}

/// The character of a digit stands for that digit and no other.
pub proof fn lemma_digit_char_is_read_back(digit: int)
    requires
        0 <= digit < 32,
    ensures
        char_digit(digit_char(digit)) == Some(digit),
{
    let c = digit_char(digit);
    assert(stands_for(c, digit));
    let read = choose|d: int| stands_for(c, d);
    assert(stands_for(c, read));
    reveal_strlit("0123456789ABCDEFGHJKMNPQRSTVWXYZ");
    assert(digit_char(10) == 'A' && digit_char(31) == 'Z');
    if read < digit {
        lemma_digit_chars_ascend(read, digit);
    } else if digit < read {
        lemma_digit_chars_ascend(digit, read);
    }
    if digit < 31 {
        lemma_digit_chars_ascend(digit, 31);
    }
    if 10 < read {
        lemma_digit_chars_ascend(10, read);
    }
}

/// The number that the digits before a place spell.
pub open spec fn leading_digits(value: u128, place: int) -> int {
    value as int / pow(32, (26 - place) as nat)
}

/// The digits before a place and the digit at it spell the digits before
/// the next place.
proof fn lemma_leading_digits_step(value: u128, place: int)
    requires
        0 <= place < 26,
    ensures
        leading_digits(value, place + 1) == 32 * leading_digits(value, place) + digit(
            value,
            place,
        ),
        0 <= digit(value, place) < 32,
        0 <= leading_digits(value, place),
{
    let unit = pow(32, (25 - place) as nat);
    lemma_pow_positive(32, (25 - place) as nat);
    assert(pow(32, (26 - place) as nat) == 32 * unit) by {
        reveal(pow);
    }
    let upper = value as int / unit;
    lemma_div_pos_is_pos(value as int, unit);
    lemma_div_denominator(value as int, unit, 32);
    assert(unit * 32 == 32 * unit);
    lemma_fundamental_div_mod(upper, 32);
    lemma_mod_pos_bound(upper, 32);
    lemma_div_pos_is_pos(upper, 32);
}

/// No digit stands before place 0, and the digits before place 26 spell
/// the value.
proof fn lemma_leading_digits_ends(value: u128)
    ensures
        leading_digits(value, 0) == 0,
        leading_digits(value, 26) == value,
{
    assert(pow(32, 26) == 0x4_0000_0000_0000_0000_0000_0000_0000_0000) by {
        reveal_with_fuel(pow, 27);
    }
    lemma_basic_div(value as int, pow(32, 26));
    assert(pow(32, 0) == 1) by {
        reveal(pow);
    }
}

/// The first so many characters of the text of a value spell its digits
/// before that place.
proof fn lemma_text_number_of_prefix(value: u128, place: int)
    requires
        0 <= place <= 26,
    ensures
        text_number(ulid_text(value).take(place)) == leading_digits(value, place),
    decreases place,
{
    let text = ulid_text(value);
    if place == 0 {
        lemma_leading_digits_ends(value);
    } else {
        lemma_text_number_of_prefix(value, place - 1);
        lemma_leading_digits_step(value, place - 1);
        assert(text.take(place).drop_last() =~= text.take(place - 1));
        assert(text.take(place).last() == digit_char(digit(value, place - 1)));
        lemma_digit_char_is_read_back(digit(value, place - 1));
    }
}

/// The text of a value is read back as that value.
pub proof fn lemma_text_round_trip(value: u128)
    ensures
        text_value(ulid_text(value)) == Some(value),
{
    let text = ulid_text(value);
    assert forall|i: int| 0 <= i < text.len() implies char_digit(text[i]) is Some by {
        lemma_leading_digits_step(value, i);
        lemma_digit_char_is_read_back(digit(value, i));
    }
    lemma_text_number_of_prefix(value, 26);
    lemma_leading_digits_ends(value);
    assert(text.take(26) =~= text);
}

/// Of two values the lesser has, at the first place where their digits
/// differ, the lesser digit.
proof fn lemma_first_difference(a: u128, b: u128, from: int) -> (at: int)
    requires
        a < b,
        0 <= from <= 26,
        leading_digits(a, from) == leading_digits(b, from),
    ensures
        from <= at < 26,
        forall|i: int| from <= i < at ==> digit(a, i) == digit(b, i),
        0 <= digit(a, at) < digit(b, at) < 32,
    decreases 26 - from,
{
    lemma_leading_digits_ends(a);
    lemma_leading_digits_ends(b);
    assert(from < 26);
    lemma_leading_digits_step(a, from);
    lemma_leading_digits_step(b, from);
    lemma_pow_positive(32, (25 - from) as nat);
    lemma_div_is_ordered(a as int, b as int, pow(32, (25 - from) as nat));
    if digit(a, from) == digit(b, from) {
        lemma_first_difference(a, b, from + 1)
    } else {
        from
    }
}

/// The text of the lesser of two values sorts before the text of the
/// greater.
proof fn lemma_lesser_sorts_first(a: u128, b: u128)
    requires
        a < b,
    ensures
        text_before(ulid_text(a), ulid_text(b)),
        !text_before(ulid_text(b), ulid_text(a)),
{
    lemma_leading_digits_ends(a);
    lemma_leading_digits_ends(b);
    let at = lemma_first_difference(a, b, 0);
    let ta = ulid_text(a);
    let tb = ulid_text(b);
    lemma_digit_chars_ascend(digit(a, at), digit(b, at));
    assert(ta[at] == digit_char(digit(a, at)));
    assert(tb[at] == digit_char(digit(b, at)));
    assert forall|i: int| 0 <= i < at implies ta[i] == tb[i] by {
        assert(digit(a, i) == digit(b, i));
    }
    assert(parts_at(ta, tb, at));
    if text_before(tb, ta) {
        let k = choose|k: int| parts_at(tb, ta, k);
        if k < at {
            assert(ta[k] == tb[k]);
        } else if k > at {
            assert(tb[at] == ta[at]);
        }
    }
}

/// Texts sort as the identifiers do: one identifier is less than another
/// exactly when its text sorts before the other's.  Stored and compared as
/// text, identifiers keep the order in which they were issued.
pub proof fn lemma_text_order(a: u128, b: u128)
    ensures
        ulid_text(a).len() == TEXT_LEN,
        a < b <==> text_before(ulid_text(a), ulid_text(b)),
        a == b <==> ulid_text(a) == ulid_text(b),
{
    if a < b {
        lemma_lesser_sorts_first(a, b);
        let k = choose|k: int| parts_at(ulid_text(a), ulid_text(b), k);
        assert(ulid_text(a)[k] != ulid_text(b)[k]);
    } else if b < a {
        lemma_lesser_sorts_first(b, a);
        let k = choose|k: int| parts_at(ulid_text(b), ulid_text(a), k);
        assert(ulid_text(a)[k] != ulid_text(b)[k]);
    } else {
        lemma_text_before_one_way(ulid_text(a), ulid_text(b));
    }
}

/// A text is the text form of at most one identifier, and the text form
/// of an identifier is that of this one.
pub proof fn lemma_identifier_of_text(value: u128)
    ensures
        identifier_of(ulid_text(value)) == Some(value),
{
    let found = choose|other: u128| #[trigger] ulid_text(other) == ulid_text(value);
    lemma_text_order(found, value);
}

/// A text that is read as no value, or whose value is written otherwise,
/// is the text form of no identifier.
pub proof fn lemma_identifier_of_other_text(text: Seq<char>)
    ensures
        identifier_of(text) == match text_value(text) {
            Some(value) if ulid_text(value) == text => Some(value),
            _ => None::<u128>,
        },
{
    if exists|value: u128| #[trigger] ulid_text(value) == text {
        let found = choose|value: u128| #[trigger] ulid_text(value) == text;
        lemma_text_round_trip(found);
    } else {
        match text_value(text) {
            Some(value) => {
                if ulid_text(value) == text {
                    assert(false);
                }
            },
            None => {},
        }
    }
}

/// Sorting before is transitive.
pub proof fn lemma_text_before_transitive(a: Seq<char>, b: Seq<char>, c: Seq<char>)
    requires
        text_before(a, b),
        text_before(b, c),
    ensures
        text_before(a, c),
{
    let first = choose|k: int| parts_at(a, b, k);
    let second = choose|k: int| parts_at(b, c, k);
    let place = if first <= second {
        first
    } else {
        second
    };
    assert forall|i: int| 0 <= i < place implies a[i] == c[i] by {
        assert(a[i] == b[i]);
        assert(b[i] == c[i]);
    }
    if first < second {
        assert(b[first] == c[first]);
    } else if second < first {
        assert(a[second] == b[second]);
    }
    assert(parts_at(a, c, place));
}

/// No text sorts before itself, and of two texts at most one sorts before
/// the other.
pub proof fn lemma_text_before_one_way(a: Seq<char>, b: Seq<char>)
    ensures
        !(text_before(a, b) && text_before(b, a)),
        a == b ==> !text_before(a, b),
{
    if text_before(a, b) {
        let first = choose|k: int| parts_at(a, b, k);
        if a == b {
            assert(false);
        }
        if text_before(b, a) {
            let second = choose|k: int| parts_at(b, a, k);
            if first < second {
                assert(b[first] == a[first]);
            } else if second < first {
                assert(a[second] == b[second]);
            }
        }
    }
}

/// The texts of lesser identifiers sort before whatever the text of a
/// greater one sorts before.
pub proof fn lemma_before_is_closed_downwards(lesser: u128, greater: u128, bound: Seq<char>)
    requires
        lesser <= greater,
        text_before(ulid_text(greater), bound),
    ensures
        text_before(ulid_text(lesser), bound),
{
    if lesser < greater {
        lemma_text_order(lesser, greater);
        lemma_text_before_transitive(ulid_text(lesser), ulid_text(greater), bound);
    }
}

/// Whatever sorts before the text of an identifier sorts before the texts
/// of greater ones.
pub proof fn lemma_after_is_closed_upwards(lesser: u128, greater: u128, bound: Seq<char>)
    requires
        lesser <= greater,
        text_before(bound, ulid_text(lesser)),
    ensures
        text_before(bound, ulid_text(greater)),
{
    if lesser < greater {
        lemma_text_order(lesser, greater);
        lemma_text_before_transitive(bound, ulid_text(lesser), ulid_text(greater));
    }
}

/// Compares two texts as strings compare.
pub fn sorts_before(a: &str, b: &str) -> (r: bool)
    ensures
        r == text_before(a@, b@),
{
    let a_len: usize = a.unicode_len();
    let b_len: usize = b.unicode_len();
    let mut at: usize = 0;
    while at < a_len && at < b_len
        invariant
            a_len == a@.len(),
            b_len == b@.len(),
            at <= a_len,
            at <= b_len,
            forall|i: int| 0 <= i < at ==> a@[i] == b@[i],
        decreases a_len - at,
    {
        let left: char = a.get_char(at);
        let right: char = b.get_char(at);
        if left != right {
            let less: bool = (left as u32) < (right as u32);
            proof {
                if less {
                    assert(parts_at(a@, b@, at as int));
                } else if text_before(a@, b@) {
                    let k = choose|k: int| parts_at(a@, b@, k);
                    if k > at {
                        assert(a@[at as int] == b@[at as int]);
                    }
                }
            }
            return less;
        }
        at = at + 1;
    }
    proof {
        if a_len < b_len {
            assert(parts_at(a@, b@, at as int));
        } else if text_before(a@, b@) {
            let k = choose|k: int| parts_at(a@, b@, k);
            assert(k <= b_len);
        }
    }
    a_len < b_len
}

} // verus!
