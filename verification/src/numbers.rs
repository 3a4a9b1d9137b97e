//! The text form in which a draw's numbers are stored: decimal numbers
//! separated by commas. Reading is tolerant: each field is trimmed, and a field
//! that is not a number from 0 to 255 is dropped.

use vstd::prelude::*;
use crate::text::{chars_of, push_char};

verus! {

/// The characters that Unicode gives the property White_Space.
pub open spec fn is_white_space(c: char) -> bool {
    let code = c as u32;
    ||| 0x09 <= code <= 0x0D
    ||| code == 0x20
    ||| code == 0x85
    ||| code == 0xA0
    ||| code == 0x1680
    ||| 0x2000 <= code <= 0x200A
    ||| code == 0x2028
    ||| code == 0x2029
    ||| code == 0x202F
    ||| code == 0x205F
    ||| code == 0x3000
}

/// One of the ten ASCII digits.
pub open spec fn is_digit(c: char) -> bool {
    '0' <= c <= '9'
}

/// The value of an ASCII digit.
pub open spec fn digit_value(c: char) -> nat {
    (c as u32 - 0x30) as nat
}

/// The fields of `text`: the stretches between its commas. A text without a
/// comma is one field, and the empty text is one empty field.
pub open spec fn split_fields(text: Seq<char>) -> Seq<Seq<char>>
    decreases text.len(),
{
    if text.len() == 0 {
        seq![Seq::empty()]
    } else {
        let before = split_fields(text.drop_last());
        if text.last() == ',' {
            before.push(Seq::empty())
        } else {
            before.drop_last().push(before.last().push(text.last()))
        }
    }
}

/// `field` without the white space at its start.
pub open spec fn trim_start(field: Seq<char>) -> Seq<char>
    decreases field.len(),
{
    if field.len() > 0 && is_white_space(field.first()) {
        trim_start(field.drop_first())
    } else {
        field
    }
}

/// `field` without the white space at its end.
pub open spec fn trim_end(field: Seq<char>) -> Seq<char>
    decreases field.len(),
{
    if field.len() > 0 && is_white_space(field.last()) {
        trim_end(field.drop_last())
    } else {
        field
    }
}

/// `field` without the white space at either end.
pub open spec fn trim(field: Seq<char>) -> Seq<char> {
    trim_end(trim_start(field))
}

/// The number that a run of digits writes in base ten.
pub open spec fn decimal_value(digits: Seq<char>) -> nat
    decreases digits.len(),
{
    if digits.len() == 0 {
        0
    } else {
        decimal_value(digits.drop_last()) * 10 + digit_value(digits.last())
    }
}

/// Every character of `digits` is an ASCII digit.
pub open spec fn all_digits(digits: Seq<char>) -> bool {
    forall|i: int| 0 <= i < digits.len() ==> is_digit(#[trigger] digits[i])
}

/// `token` without one leading plus sign, if more follows the sign.
pub open spec fn unsigned_part(token: Seq<char>) -> Seq<char> {
    if token.len() > 1 && token.first() == '+' {
        token.drop_first()
    } else {
        token
    }
}

/// The number that `token` writes: an optional plus sign, then one or more
/// digits whose value is at most 255. Anything else is no number.
pub open spec fn parse_number(token: Seq<char>) -> Option<u8> {
    let digits = unsigned_part(token);
    if digits.len() > 0 && all_digits(digits) && decimal_value(digits) <= 255 {
        Some(decimal_value(digits) as u8)
    } else {
        None
    }
}

/// The numbers that the fields write, in order; a field that writes none is
/// passed over.
pub open spec fn collect_numbers(fields: Seq<Seq<char>>) -> Seq<u8>
    decreases fields.len(),
{
    if fields.len() == 0 {
        Seq::empty()
    } else {
        let before = collect_numbers(fields.drop_last());
        match parse_number(trim(fields.last())) {
            Some(number) => before.push(number),
            None => before,
        }
    }
}

/// The numbers that a stored text holds.
pub open spec fn decoded(text: Seq<char>) -> Seq<u8> {
    collect_numbers(split_fields(text))
}

/// Whether `c` is white space.
pub fn is_space(c: char) -> (space: bool)
    ensures
        space == is_white_space(c),
{
    let code: u32 = c as u32;
    (0x09 <= code && code <= 0x0D) || code == 0x20 || code == 0x85 || code == 0xA0 || code
        == 0x1680 || (0x2000 <= code && code <= 0x200A) || code == 0x2028 || code == 0x2029
        || code == 0x202F || code == 0x205F || code == 0x3000
}

/// A longer run of digits never writes a smaller number than its beginning.
pub proof fn lemma_decimal_value_grows(digits: Seq<char>, shorter: int)
    requires
        0 <= shorter <= digits.len(),
    ensures
        decimal_value(digits.take(shorter)) <= decimal_value(digits),
    decreases digits.len(),
{
    if shorter < digits.len() {
        lemma_decimal_value_grows(digits.drop_last(), shorter);
        assert(digits.drop_last().take(shorter) =~= digits.take(shorter));
    } else {
        assert(digits.take(shorter) =~= digits);
    }
}

/// Reads the number that `chars[start..end]` writes once it is trimmed.
pub fn parse_field(chars: &[char], start: usize, end: usize) -> (number: Option<u8>)
    requires
        start <= end <= chars@.len(),
    ensures
        number == parse_number(trim(chars@.subrange(start as int, end as int))),
{
    let ghost field = chars@.subrange(start as int, end as int);
    let mut from: usize = start;
    while from < end && is_space(chars[from])
        invariant
            start <= from <= end <= chars@.len(),
            trim_start(field) == trim_start(chars@.subrange(from as int, end as int)),
        decreases end - from,
    {
        proof {
            let here = chars@.subrange(from as int, end as int);
            assert(here.first() == chars@[from as int]);
            assert(here.drop_first() =~= chars@.subrange(from + 1, end as int));
        }
        from += 1;
    }
    let ghost left = chars@.subrange(from as int, end as int);
    assert(trim_start(field) == left) by {
        if from < end {
            assert(left.first() == chars@[from as int]);
        }
    }
    let mut to: usize = end;
    while from < to && is_space(chars[to - 1])
        invariant
            from <= to <= end <= chars@.len(),
            trim_end(left) == trim_end(chars@.subrange(from as int, to as int)),
        decreases to - from,
    {
        proof {
            let here = chars@.subrange(from as int, to as int);
            assert(here.last() == chars@[to - 1]);
            assert(here.drop_last() =~= chars@.subrange(from as int, to - 1));
        }
        to -= 1;
    }
    let ghost token = chars@.subrange(from as int, to as int);
    assert(trim(field) == token) by {
        if from < to {
            assert(token.last() == chars@[to - 1]);
        }
    }
    let mut at: usize = from;
    if to - from > 1 && chars[from] == '+' {
        at = from + 1;
    }
    let ghost digits = chars@.subrange(at as int, to as int);
    assert(digits == unsigned_part(token)) by {
        if to - from >= 1 {
            assert(token.first() == chars@[from as int]);
        }
        if at != from {
            assert(token.drop_first() =~= digits);
        }
    }
    if at == to {
        return None;
    }
    let mut value: u32 = 0;
    let mut i: usize = at;
    while i < to
        invariant
            at <= i <= to <= chars@.len(),
            at < to,
            start <= end <= chars@.len(),
            digits == chars@.subrange(at as int, to as int),
            digits == unsigned_part(trim(chars@.subrange(start as int, end as int))),
            all_digits(digits.take(i - at)),
            value == decimal_value(digits.take(i - at)),
            value <= 255,
        decreases to - i,
    {
        let c = chars[i];
        proof {
            assert(digits[i - at] == c);
            assert(digits.take(i - at + 1).drop_last() =~= digits.take(i - at));
            assert(digits.take(i - at + 1).last() == c);
        }
        if !('0' <= c && c <= '9') {
            return None;
        }
        let digit: u32 = c as u32 - 0x30;
        value = value * 10 + digit;
        if value > 255 {
            proof {
                lemma_decimal_value_grows(digits, i - at + 1);
            }
            return None;
        }
        proof {
            let longer = digits.take(i - at + 1);
            assert forall|k: int| 0 <= k < longer.len() implies is_digit(#[trigger] longer[k]) by {
                if k < i - at {
                    assert(longer[k] == digits.take(i - at)[k]);
                }
            }
        }
        i += 1;
    }
    proof {
        assert(digits.take(to - at) =~= digits);
    }
    Some(value as u8)
}

/// Reads the numbers of a stored text. Fields are separated by commas and
/// trimmed; a field that does not write a number from 0 to 255 is dropped.
pub fn decode_numbers(text: &str) -> (numbers: Vec<u8>)
    ensures
        numbers@ == decoded(text@),
{
    let chars = chars_of(text);
    let mut numbers: Vec<u8> = Vec::new();
    let ghost mut done: Seq<Seq<char>> = Seq::empty();
    let mut start: usize = 0;
    let mut i: usize = 0;
    assert(chars@.take(0) =~= Seq::<char>::empty());
    assert(split_fields(chars@.take(0)) =~= done.push(chars@.subrange(0, 0)));
    while i < chars.len()
        invariant
            start <= i <= chars@.len(),
            split_fields(chars@.take(i as int)) == done.push(
                chars@.subrange(start as int, i as int),
            ),
            numbers@ == collect_numbers(done),
        decreases chars.len() - i,
    {
        let ghost before = split_fields(chars@.take(i as int));
        let ghost field = chars@.subrange(start as int, i as int);
        proof {
            assert(chars@.take(i + 1).drop_last() =~= chars@.take(i as int));
            assert(chars@.take(i + 1).last() == chars@[i as int]);
            assert(before.last() == field);
            assert(before.drop_last() =~= done);
        }
        if chars[i] == ',' {
            match parse_field(chars.as_slice(), start, i) {
                Some(number) => {
                    numbers.push(number);
                },
                None => {},
            }
            proof {
                assert(done.push(field).drop_last() =~= done);
                done = done.push(field);
                assert(chars@.subrange(i + 1, i + 1) =~= Seq::<char>::empty());
            }
            start = i + 1;
        } else {
            proof {
                assert(field.push(chars@[i as int]) =~= chars@.subrange(start as int, i + 1));
            }
        }
        i += 1;
    }
    let ghost last = chars@.subrange(start as int, chars@.len() as int);
    match parse_field(chars.as_slice(), start, chars.len()) {
        Some(number) => {
            numbers.push(number);
        },
        None => {},
    }
    proof {
        assert(chars@.take(chars@.len() as int) =~= chars@);
        assert(done.push(last).drop_last() =~= done);
    }
    numbers
}

/// The character that writes the digit `d`.
pub open spec fn digit_char(d: nat) -> char {
    if d == 0 {
        '0'
    } else if d == 1 {
        '1'
    } else if d == 2 {
        '2'
    } else if d == 3 {
        '3'
    } else if d == 4 {
        '4'
    } else if d == 5 {
        '5'
    } else if d == 6 {
        '6'
    } else if d == 7 {
        '7'
    } else if d == 8 {
        '8'
    } else {
        '9'
    }
}

/// `n` in base ten, without leading zeros.
pub open spec fn decimal_digits(n: nat) -> Seq<char>
    decreases n,
{
    if n < 10 {
        seq![digit_char(n)]
    } else {
        decimal_digits(n / 10).push(digit_char(n % 10))
    }
}

/// The fields with one comma between each two neighbours.
pub open spec fn join_fields(fields: Seq<Seq<char>>) -> Seq<char>
    decreases fields.len(),
{
    if fields.len() == 0 {
        Seq::empty()
    } else if fields.len() == 1 {
        fields[0]
    } else {
        join_fields(fields.drop_last()) + seq![','] + fields.last()
    }
}

/// Each number written in base ten.
pub open spec fn number_fields(numbers: Seq<u8>) -> Seq<Seq<char>> {
    Seq::new(numbers.len(), |i: int| decimal_digits(numbers[i] as nat))
}

/// The stored text of `numbers`: each in base ten, separated by commas.
pub open spec fn encoded(numbers: Seq<u8>) -> Seq<char> {
    join_fields(number_fields(numbers))
}

/// No character of `field` is a comma.
pub open spec fn comma_free(field: Seq<char>) -> bool {
    forall|i: int| 0 <= i < field.len() ==> #[trigger] field[i] != ','
}

/// The character for a digit below ten.
fn digit_to_char(d: u8) -> (c: char)
    requires
        d < 10,
    ensures
        c == digit_char(d as nat),
{
    if d == 0 {
        '0'
    } else if d == 1 {
        '1'
    } else if d == 2 {
        '2'
    } else if d == 3 {
        '3'
    } else if d == 4 {
        '4'
    } else if d == 5 {
        '5'
    } else if d == 6 {
        '6'
    } else if d == 7 {
        '7'
    } else if d == 8 {
        '8'
    } else {
        '9'
    }
}

/// Appends `n` in base ten to `text`.
fn push_decimal(text: &mut String, n: u8)
    ensures
        final(text)@ == old(text)@ + decimal_digits(n as nat),
{
    proof {
        reveal_with_fuel(decimal_digits, 3);
    }
    if n >= 100 {
        push_char(text, digit_to_char(n / 100));
    }
    if n >= 10 {
        push_char(text, digit_to_char((n / 10) % 10));
    }
    push_char(text, digit_to_char(n % 10));
    proof {
        let digits = decimal_digits(n as nat);
        if n >= 100 {
            assert((n as nat / 10) / 10 == n as nat / 100);
            assert(digits =~= seq![
                digit_char(n as nat / 100),
                digit_char((n as nat / 10) % 10),
                digit_char(n as nat % 10),
            ]);
        } else if n >= 10 {
            assert(digits =~= seq![digit_char(n as nat / 10), digit_char(n as nat % 10)]);
        }
        assert(final(text)@ =~= old(text)@ + digits);
    }
}

/// Writes `numbers` in their stored text form.
pub fn encode_numbers(numbers: &[u8]) -> (text: String)
    ensures
        text@ == encoded(numbers@),
{
    let mut text = String::new();
    let mut i: usize = 0;
    assert(number_fields(numbers@.take(0)) =~= Seq::<Seq<char>>::empty());
    while i < numbers.len()
        invariant
            i <= numbers.len(),
            text@ == encoded(numbers@.take(i as int)),
        decreases numbers.len() - i,
    {
        let ghost before = number_fields(numbers@.take(i as int));
        let ghost after = number_fields(numbers@.take(i + 1));
        proof {
            assert(after.drop_last() =~= before);
            assert(after.last() == decimal_digits(numbers@[i as int] as nat));
            if i == 0 {
                assert(after[0] =~= Seq::<char>::empty() + after[0]);
            }
        }
        if i > 0 {
            push_char(&mut text, ',');
        }
        push_decimal(&mut text, numbers[i]);
        i += 1;
    }
    assert(numbers@.take(numbers.len() as int) =~= numbers@);
    text
}

/// What base ten writes reads back as the same number: the digits of `n` are
/// digits only, at least one, and their value is `n`.
pub proof fn lemma_digits_read_back(n: nat)
    ensures
        decimal_digits(n).len() > 0,
        all_digits(decimal_digits(n)),
        decimal_value(decimal_digits(n)) == n,
    decreases n,
{
    if n < 10 {
        let digits = decimal_digits(n);
        assert(digits.drop_last() =~= Seq::<char>::empty());
        assert(decimal_value(digits.drop_last()) == 0);
    } else {
        lemma_digits_read_back(n / 10);
        let digits = decimal_digits(n);
        let front = decimal_digits(n / 10);
        assert(digits.drop_last() =~= front);
        assert(digits.last() == digit_char(n % 10));
        assert forall|i: int| 0 <= i < digits.len() implies is_digit(#[trigger] digits[i]) by {
            if i < front.len() {
                assert(digits[i] == front[i]);
            }
        }
    }
}

/// A field written in base ten is read as its number, if that is at most 255.
pub proof fn lemma_number_field_parses(n: u8)
    ensures
        comma_free(decimal_digits(n as nat)),
        parse_number(trim(decimal_digits(n as nat))) == Some(n),
{
    let digits = decimal_digits(n as nat);
    lemma_digits_read_back(n as nat);
    assert(is_digit(digits.first()));
    assert(is_digit(digits.last()));
    assert forall|i: int| 0 <= i < digits.len() implies #[trigger] digits[i] != ',' by {
        assert(is_digit(digits[i]));
    }
    assert(trim_start(digits) == digits);
    assert(trim_end(digits) == digits);
    assert(unsigned_part(digits) == digits);
}

/// A text without a comma is a single field.
pub proof fn lemma_split_single(field: Seq<char>)
    requires
        comma_free(field),
    ensures
        split_fields(field) == seq![field],
    decreases field.len(),
{
    if field.len() > 0 {
        let front = field.drop_last();
        assert forall|i: int| 0 <= i < front.len() implies #[trigger] front[i] != ',' by {
            assert(front[i] == field[i]);
        }
        lemma_split_single(front);
        assert(field.last() == field[field.len() - 1]);
        assert(split_fields(field) =~= seq![front.push(field.last())]);
        assert(front.push(field.last()) =~= field);
    } else {
        assert(field =~= Seq::<char>::empty());
    }
}

/// A comma and a field without commas, added to a text, add one field.
pub proof fn lemma_split_append(text: Seq<char>, field: Seq<char>)
    requires
        comma_free(field),
    ensures
        split_fields(text + seq![','] + field) == split_fields(text).push(field),
    decreases field.len(),
{
    let whole = text + seq![','] + field;
    if field.len() == 0 {
        assert(whole.drop_last() =~= text);
        assert(whole.last() == ',');
        assert(field =~= Seq::<char>::empty());
    } else {
        let front = field.drop_last();
        assert forall|i: int| 0 <= i < front.len() implies #[trigger] front[i] != ',' by {
            assert(front[i] == field[i]);
        }
        lemma_split_append(text, front);
        assert(whole.drop_last() =~= text + seq![','] + front);
        assert(whole.last() == field[field.len() - 1]);
        let before = split_fields(text).push(front);
        assert(before.drop_last() =~= split_fields(text));
        assert(front.push(field.last()) =~= field);
    }
}

/// Splitting undoes joining: fields without commas, at least one of them, come
/// back from their joined text.
pub proof fn lemma_split_join(fields: Seq<Seq<char>>)
    requires
        fields.len() > 0,
        forall|i: int| 0 <= i < fields.len() ==> comma_free(#[trigger] fields[i]),
    ensures
        split_fields(join_fields(fields)) == fields,
    decreases fields.len(),
{
    if fields.len() == 1 {
        lemma_split_single(fields[0]);
        assert(seq![fields[0]] =~= fields);
    } else {
        let front = fields.drop_last();
        assert forall|i: int| 0 <= i < front.len() implies comma_free(#[trigger] front[i]) by {
            assert(front[i] == fields[i]);
        }
        lemma_split_join(front);
        assert(comma_free(fields[fields.len() - 1]));
        lemma_split_append(join_fields(front), fields.last());
        assert(front.push(fields.last()) =~= fields);
    }
}

/// Joining undoes splitting: the fields of a text hold no comma, and joined they
/// give the text back.
pub proof fn lemma_join_split(text: Seq<char>)
    ensures
        split_fields(text).len() > 0,
        forall|i: int| 0 <= i < split_fields(text).len() ==> comma_free(#[trigger] split_fields(text)[i]),
        join_fields(split_fields(text)) == text,
    decreases text.len(),
{
    let fields = split_fields(text);
    if text.len() == 0 {
        assert(join_fields(fields) =~= text);
    } else {
        let before = split_fields(text.drop_last());
        lemma_join_split(text.drop_last());
        if text.last() == ',' {
            assert(fields.drop_last() =~= before);
            assert(join_fields(fields) =~= text.drop_last() + seq![','] + Seq::<char>::empty());
            assert(join_fields(fields) =~= text);
            assert forall|i: int| 0 <= i < fields.len() implies comma_free(#[trigger] fields[i]) by {
                if i < before.len() {
                    assert(fields[i] == before[i]);
                }
            }
        } else {
            let grown = before.last().push(text.last());
            assert(fields.last() == grown);
            assert(fields.drop_last() =~= before.drop_last());
            assert(comma_free(before[before.len() - 1]));
            assert forall|i: int| 0 <= i < fields.len() implies comma_free(#[trigger] fields[i]) by {
                if i < before.len() - 1 {
                    assert(fields[i] == before[i]);
                }
            }
            if before.len() == 1 {
                assert(join_fields(before) == before[0]);
                assert(join_fields(fields) =~= text);
            } else {
                assert(join_fields(before) == join_fields(before.drop_last()) + seq![','] + before.last());
                assert(join_fields(fields) =~= join_fields(before).push(text.last()));
                assert(join_fields(fields) =~= text);
            }
        }
    }
}

/// Reading the fields that write `numbers` gives `numbers`.
proof fn lemma_collect_number_fields(numbers: Seq<u8>)
    ensures
        collect_numbers(number_fields(numbers)) == numbers,
    decreases numbers.len(),
{
    let fields = number_fields(numbers);
    if numbers.len() == 0 {
        assert(collect_numbers(fields) =~= numbers);
    } else {
        lemma_collect_number_fields(numbers.drop_last());
        assert(fields.drop_last() =~= number_fields(numbers.drop_last()));
        lemma_number_field_parses(numbers.last());
        assert(fields.last() == decimal_digits(numbers.last() as nat));
        assert(numbers.drop_last().push(numbers.last()) =~= numbers);
    }
}

/// Round trip: the stored text of any sequence of numbers from 0 to 255 decodes
/// to that same sequence, in the same order.
pub proof fn lemma_encode_decode_round_trip(numbers: Seq<u8>)
    ensures
        decoded(encoded(numbers)) == numbers,
{
    let fields = number_fields(numbers);
    if numbers.len() == 0 {
        let text = encoded(numbers);
        assert(text =~= Seq::<char>::empty());
        let only = split_fields(text);
        assert(only =~= seq![Seq::<char>::empty()]);
        assert(only.drop_last() =~= Seq::<Seq<char>>::empty());
        assert(only.last() =~= Seq::<char>::empty());
        assert(trim(only.last()).len() == 0);
        assert(parse_number(trim(only.last())) is None);
        assert(collect_numbers(only.drop_last()) =~= Seq::<u8>::empty());
        assert(decoded(text) =~= numbers);
    } else {
        assert forall|i: int| 0 <= i < fields.len() implies comma_free(#[trigger] fields[i]) by {
            lemma_number_field_parses(numbers[i]);
        }
        lemma_split_join(fields);
        lemma_collect_number_fields(numbers);
    }
}

/// An opening or closing square bracket.
pub open spec fn is_bracket(c: char) -> bool {
    c == '[' || c == ']'
}

/// `text` without its square brackets.
pub open spec fn strip_brackets(text: Seq<char>) -> Seq<char> {
    text.filter(|c: char| !is_bracket(c))
}

/// Turns the bracketed list of a source row into the stored text: every `[` and
/// `]` is removed, nothing else changes.
pub fn normalize_combinations(combinations: &str) -> (numbers: String)
    ensures
        numbers@ == strip_brackets(combinations@),
{
    let chars = chars_of(combinations);
    let mut numbers = String::new();
    let mut i: usize = 0;
    proof {
        reveal(Seq::filter);
        assert(chars@.take(0) =~= Seq::<char>::empty());
    }
    while i < chars.len()
        invariant
            i <= chars.len(),
            numbers@ == strip_brackets(chars@.take(i as int)),
        decreases chars.len() - i,
    {
        proof {
            reveal(Seq::filter);
            assert(chars@.take(i + 1).drop_last() =~= chars@.take(i as int));
            assert(chars@.take(i + 1).last() == chars@[i as int]);
        }
        let c = chars[i];
        if c != '[' && c != ']' {
            push_char(&mut numbers, c);
        }
        i += 1;
    }
    assert(chars@.take(chars.len() as int) =~= chars@);
    numbers
}

} // verus!
