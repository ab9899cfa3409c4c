//! The names of the files of an event log: one file for each event, named by
//! the instant of the event in whole milliseconds since the Unix epoch,
//! written in decimal, and `.json`. Where a millisecond has more than one
//! event, every event after the first has a number behind a hyphen:
//! `10000.json`, `10000-1.json`, `10000-2.json`. Replaying the files in the
//! order of the numbers in their names replays the events as they happened.

use vstd::prelude::*;
use vstd::string::{StrSliceExecFns, StringExecFns};
use crate::domain::time::{Timestamp, NANOS_PER_MILLI};
use crate::order::{key_of, lemma_sorted_seen, sort_stable, sorted, Keyed};

verus! {

/// The character of a digit.
pub open spec fn digit(value: nat) -> char {
    if value == 0 {
        '0'
    } else if value == 1 {
        '1'
    } else if value == 2 {
        '2'
    } else if value == 3 {
        '3'
    } else if value == 4 {
        '4'
    } else if value == 5 {
        '5'
    } else if value == 6 {
        '6'
    } else if value == 7 {
        '7'
    } else if value == 8 {
        '8'
    } else {
        '9'
    }
}

/// Whether the character is a decimal digit.
pub open spec fn is_digit(c: char) -> bool {
    c == '0' || c == '1' || c == '2' || c == '3' || c == '4' || c == '5' || c == '6' || c == '7'
        || c == '8' || c == '9'
}

/// The value of a decimal digit.
pub open spec fn digit_value(c: char) -> nat {
    if c == '1' {
        1
    } else if c == '2' {
        2
    } else if c == '3' {
        3
    } else if c == '4' {
        4
    } else if c == '5' {
        5
    } else if c == '6' {
        6
    } else if c == '7' {
        7
    } else if c == '8' {
        8
    } else if c == '9' {
        9
    } else {
        0
    }
}

/// The number in decimal, without leading zeros.
pub open spec fn decimal(number: nat) -> Seq<char>
    decreases number,
{
    if number < 10 {
        seq![digit(number)]
    } else {
        decimal(number / 10).push(digit(number % 10))
    }
}

/// The number that the digits write.
pub open spec fn number(digits: Seq<char>) -> nat
    decreases digits.len(),
{
    if digits.len() == 0 {
        0
    } else {
        number(digits.drop_last()) * 10 + digit_value(digits.last())
    }
}

/// The text is a number as `decimal` writes it: digits, at least one, and no
/// zero in front of another digit.
pub open spec fn is_decimal(text: Seq<char>) -> bool {
    &&& text.len() > 0
    &&& forall|i: int| 0 <= i < text.len() ==> is_digit(#[trigger] text[i])
    &&& text.len() > 1 ==> text[0] != '0'
}

/// What follows the number in the name of an event's file.
pub open spec fn extension() -> Seq<char> {
    seq!['.', 'j', 's', 'o', 'n']
}

/// Where the file of an event stands among the files, as a mathematical
/// value: the millisecond of the event, and the number of the event among
/// the events of that millisecond, counted from zero.
pub struct Place {
    pub millis: nat,
    pub number: nat,
}

/// Where the file of an event stands among the files.
#[derive(Clone, Copy, Debug, PartialEq, Eq, Structural)]
pub struct FilePlace {
    pub millis: u128,
    pub number: u128,
}

impl View for FilePlace {
    type V = Place;

    open spec fn view(&self) -> Place {
        Place { millis: self.millis as nat, number: self.number as nat }
    }
}

/// What marks the events of a millisecond after the first: a hyphen and the
/// number. The first has no mark.
pub open spec fn mark(number: nat) -> Seq<char> {
    if number == 0 {
        Seq::empty()
    } else {
        seq!['-'] + decimal(number)
    }
}

/// The name of the file at `place`, without the extension.
pub open spec fn stem(place: Place) -> Seq<char> {
    decimal(place.millis) + mark(place.number)
}

/// The name of the file at `place`.
pub open spec fn file_name(place: Place) -> Seq<char> {
    stem(place) + extension()
}

/// The name is that of the file at `place`, and the place is one that can be
/// held.
pub open spec fn names_place(name: Seq<char>, place: Place) -> bool {
    place.millis <= u128::MAX && place.number <= u128::MAX && name == file_name(place)
}

/// The name is that of the file of an event.
pub open spec fn is_event_file(name: Seq<char>) -> bool {
    exists|place: Place| names_place(name, place)
}

/// The place that the name of an event's file tells.
pub open spec fn place_of(name: Seq<char>) -> Place {
    choose|place: Place| names_place(name, place)
}

/// What a name says of its file: its place, or that it is not the file of an
/// event.
pub open spec fn named_place(name: Seq<char>) -> Option<FilePlace> {
    if is_event_file(name) {
        Some(
            FilePlace {
                millis: place_of(name).millis as u128,
                number: place_of(name).number as u128,
            },
        )
    } else {
        None
    }
}

/// What a name says of the instant of its event, in milliseconds.
pub open spec fn named_instant(name: Seq<char>) -> Option<u128> {
    match named_place(name) {
        Some(place) => Some(place.millis),
        None => None,
    }
}

/// The number that a text written in decimal writes, where it can be held.
pub open spec fn read_decimal(text: Seq<char>) -> Option<u128> {
    if is_decimal(text) && number(text) <= u128::MAX {
        Some(number(text) as u128)
    } else {
        None
    }
}

/// One more than the greatest number of an event within its millisecond.
pub open spec fn numbers() -> nat {
    (u128::MAX as nat) + 1
}

/// The key by which places are ordered: first by the millisecond, then by
/// the number.
pub open spec fn place_key(place: Place) -> nat {
    place.millis * numbers() + place.number
}

/// The function that tells the files of events from other files.
pub open spec fn event_files() -> spec_fn(Seq<char>) -> bool {
    |name: Seq<char>| is_event_file(name)
}

/// The function that gives the name of each event's file its key.
pub open spec fn name_key() -> spec_fn(Seq<char>) -> nat {
    |name: Seq<char>| place_key(place_of(name))
}

/// The names of the files of events among `names`, in the order in which
/// the events are replayed: by the milliseconds in the names, ascending, and
/// within one millisecond by the numbers.
pub open spec fn replay_names(names: Seq<Seq<char>>) -> Seq<Seq<char>> {
    sorted(names.filter(event_files()), name_key())
}

/// The function that gives each text its characters.
pub open spec fn characters() -> spec_fn(String) -> Seq<char> {
    |text: String| text@
}

/// The texts of a sequence, each as its characters.
pub open spec fn texts(names: Seq<String>) -> Seq<Seq<char>> {
    names.map_values(characters())
}

/// The text has no hyphen.
pub open spec fn no_hyphen(text: Seq<char>) -> bool {
    forall|i: int| 0 <= i < text.len() ==> #[trigger] text[i] != '-'
}

/// The first hyphen of the text stands at `at`.
pub open spec fn first_hyphen(text: Seq<char>, at: int) -> bool {
    &&& 0 <= at < text.len()
    &&& text[at] == '-'
    &&& no_hyphen(text.take(at))
}

/// A number in decimal is written as `is_decimal` says, writes that number,
/// and starts with a zero only where it is zero.
pub proof fn lemma_decimal(value: nat)
    ensures
        is_decimal(decimal(value)),
        number(decimal(value)) == value,
        value > 0 ==> decimal(value)[0] != '0',
    decreases value,
{
    if value < 10 {
        assert(decimal(value).drop_last() =~= Seq::<char>::empty());
        assert(number(decimal(value).drop_last()) == 0);
    } else {
        lemma_decimal(value / 10);
        let front = decimal(value / 10);
        let all = front.push(digit(value % 10));
        assert(all.drop_last() =~= front);
        assert(all[0] == front[0]);
        assert forall|i: int| 0 <= i < all.len() implies is_digit(#[trigger] all[i]) by {
            if i < front.len() {
                assert(all[i] == front[i]);
            }
        }
    }
}

/// Digits that do not start with a zero write a number that is not zero.
proof fn lemma_number_positive(digits: Seq<char>)
    requires
        digits.len() > 0,
        forall|i: int| 0 <= i < digits.len() ==> is_digit(#[trigger] digits[i]),
        digits[0] != '0',
    ensures
        number(digits) >= 1,
    decreases digits.len(),
{
    if digits.len() == 1 {
        assert(is_digit(digits[0]));
    } else {
        let front = digits.drop_last();
        assert(front[0] == digits[0]);
        assert forall|i: int| 0 <= i < front.len() implies is_digit(#[trigger] front[i]) by {
            assert(front[i] == digits[i]);
        }
        lemma_number_positive(front);
    }
}

/// The number that a text written as `is_decimal` says writes is written as
/// that text, and as no other.
pub proof fn lemma_number(text: Seq<char>)
    requires
        is_decimal(text),
    ensures
        decimal(number(text)) == text,
    decreases text.len(),
{
    let front = text.drop_last();
    assert(is_digit(text.last()));
    if text.len() == 1 {
        assert(front =~= Seq::<char>::empty());
        assert(number(front) == 0);
        assert(decimal(number(text)) =~= text);
    } else {
        assert(front[0] == text[0]);
        assert forall|i: int| 0 <= i < front.len() implies is_digit(#[trigger] front[i]) by {
            assert(front[i] == text[i]);
        }
        lemma_number_positive(front);
        lemma_number(front);
        let value = number(text);
        assert(value / 10 == number(front) && value % 10 == digit_value(text.last()));
        assert(decimal(value) =~= text);
    }
}

/// The number that the first digits of a text write is not above the number
/// that all of them write.
proof fn lemma_number_of_front(digits: Seq<char>, count: int)
    requires
        0 <= count <= digits.len(),
    ensures
        number(digits.take(count)) <= number(digits),
    decreases digits.len() - count,
{
    if count < digits.len() {
        lemma_number_of_front(digits, count + 1);
        assert(digits.take(count + 1).drop_last() =~= digits.take(count));
    } else {
        assert(digits.take(count) =~= digits);
    }
}

/// A number in decimal has no hyphen.
pub proof fn lemma_decimal_no_hyphen(value: nat)
    ensures
        no_hyphen(decimal(value)),
{
    lemma_decimal(value);
    assert forall|i: int| 0 <= i < decimal(value).len() implies #[trigger] decimal(value)[i]
        != '-' by {
        assert(is_digit(decimal(value)[i]));
    }
}

/// What a text written in decimal reads as: a number is read as itself, and
/// what reads as a number is that number in decimal.
pub proof fn lemma_read_decimal(text: Seq<char>, value: nat)
    ensures
        value <= u128::MAX ==> read_decimal(decimal(value)) == Some(value as u128),
        read_decimal(text) == Some(value as u128) && value <= u128::MAX ==> text == decimal(value),
{
    lemma_decimal(value);
    if read_decimal(text) == Some(value as u128) && value <= u128::MAX {
        lemma_number(text);
    }
}

/// How the stem of a file's name is made up. The stem of a first event is
/// its millisecond and has no hyphen. The stem of a later event has its
/// first hyphen behind the millisecond, and its number behind the hyphen.
pub proof fn lemma_stem(place: Place)
    ensures
        place.number == 0 ==> stem(place) == decimal(place.millis) && no_hyphen(stem(place)),
        place.number > 0 ==> {
            &&& first_hyphen(stem(place), decimal(place.millis).len() as int)
            &&& stem(place).take(decimal(place.millis).len() as int) == decimal(place.millis)
            &&& stem(place).skip(decimal(place.millis).len() as int + 1) == decimal(place.number)
        },
{
    let front = decimal(place.millis);
    let all = stem(place);
    lemma_decimal_no_hyphen(place.millis);
    if place.number == 0 {
        assert(all =~= front);
    } else {
        let at = front.len() as int;
        assert(all =~= front + seq!['-'] + decimal(place.number));
        assert(all[at] == '-');
        assert(all.take(at) =~= front);
        assert(all.skip(at + 1) =~= decimal(place.number));
    }
}

/// How the name of a file is made up: the stem, then the extension.
pub proof fn lemma_file_name(place: Place)
    ensures
        file_name(place).len() == stem(place).len() + 5,
        stem(place).len() >= 1,
        file_name(place).take(file_name(place).len() - 5) == stem(place),
        file_name(place).skip(file_name(place).len() - 5) == extension(),
{
    lemma_decimal(place.millis);
    let name = file_name(place);
    assert(name.take(name.len() - 5) =~= stem(place));
    assert(name.skip(name.len() - 5) =~= extension());
}

/// Two places with one stem are one place.
proof fn lemma_stem_tells_place(first: Place, second: Place)
    requires
        stem(first) == stem(second),
    ensures
        first == second,
{
    lemma_stem(first);
    lemma_stem(second);
    lemma_decimal(first.millis);
    lemma_decimal(second.millis);
    lemma_decimal(first.number);
    lemma_decimal(second.number);
    let text = stem(first);
    let a = decimal(first.millis).len() as int;
    let b = decimal(second.millis).len() as int;
    if first.number == 0 {
        if second.number > 0 {
            assert(text[b] == '-');
        }
    } else {
        if second.number == 0 {
            assert(text[a] == '-');
        } else {
            if a < b {
                assert(text.take(b)[a] == text[a]);
            } else if b < a {
                assert(text.take(a)[b] == text[b]);
            }
        }
    }
}

/// The name of a file tells its place: files at different places have
/// different names.
pub proof fn lemma_file_name_tells_place(place: Place)
    requires
        place.millis <= u128::MAX,
        place.number <= u128::MAX,
    ensures
        is_event_file(file_name(place)),
        place_of(file_name(place)) == place,
        named_place(file_name(place)) == Some(
            FilePlace { millis: place.millis as u128, number: place.number as u128 },
        ),
{
    assert(names_place(file_name(place), place));
    let other = place_of(file_name(place));
    lemma_file_name(place);
    lemma_file_name(other);
    lemma_stem_tells_place(place, other);
}

/// Places are ordered by their keys as they are by the millisecond first and
/// the number second.
pub proof fn lemma_place_key(first: Place, second: Place)
    requires
        first.number < numbers(),
        second.number < numbers(),
    ensures
        place_key(first) < place_key(second) <==> first.millis < second.millis || (first.millis
            == second.millis && first.number < second.number),
{
    let b = numbers() as int;
    let m1 = first.millis as int;
    let m2 = second.millis as int;
    let n1 = first.number as int;
    let n2 = second.number as int;
    assert(m1 < m2 ==> m1 * b + n1 < m2 * b + n2) by (nonlinear_arith)
        requires
            0 <= n1 < b,
            0 <= n2 < b,
            0 <= m1,
            0 <= m2,
    ;
    assert(m2 < m1 ==> m2 * b + n2 < m1 * b + n1) by (nonlinear_arith)
        requires
            0 <= n1 < b,
            0 <= n2 < b,
            0 <= m1,
            0 <= m2,
    ;
}

/// A digit as text.
fn digit_text(value: u128) -> (text: &'static str)
    requires
        value < 10,
    ensures
        text@ == seq![digit(value as nat)],
{
    proof {
        reveal_strlit("0");
        reveal_strlit("1");
        reveal_strlit("2");
        reveal_strlit("3");
        reveal_strlit("4");
        reveal_strlit("5");
        reveal_strlit("6");
        reveal_strlit("7");
        reveal_strlit("8");
        reveal_strlit("9");
    }
    let text = if value == 0 {
        "0"
    } else if value == 1 {
        "1"
    } else if value == 2 {
        "2"
    } else if value == 3 {
        "3"
    } else if value == 4 {
        "4"
    } else if value == 5 {
        "5"
    } else if value == 6 {
        "6"
    } else if value == 7 {
        "7"
    } else if value == 8 {
        "8"
    } else {
        "9"
    };
    assert(text@ =~= seq![digit(value as nat)]);
    text
}

/// The number in decimal, without leading zeros.
pub fn decimal_text(value: u128) -> (text: String)
    ensures
        text@ == decimal(value as nat),
    decreases value,
{
    if value < 10 {
        digit_text(value).to_owned()
    } else {
        let mut text = decimal_text(value / 10);
        text.append(digit_text(value % 10));
        assert(text@ =~= decimal(value as nat));
        text
    }
}

/// The name of the file at `place`.
pub fn place_file_name(place: &FilePlace) -> (name: String)
    ensures
        name@ == file_name(place@),
{
    let mut name = decimal_text(place.millis);
    if place.number != 0 {
        name.append("-");
        let number = decimal_text(place.number);
        name.append(number.as_str());
    }
    name.append(".json");
    proof {
        reveal_strlit("-");
        reveal_strlit(".json");
        assert(name@ =~= file_name(place@));
    }
    name
}

/// The name of the file of an event that was made at `created_at` and is the
/// event of the number `number` among those of its millisecond.
pub fn event_file_name(created_at: &Timestamp, number: u128) -> (name: String)
    ensures
        name@ == file_name(
            Place { millis: created_at@ / (NANOS_PER_MILLI as nat), number: number as nat },
        ),
{
    place_file_name(&FilePlace { millis: created_at.as_millis(), number })
}

/// The value of a decimal digit, or `None` for another character.
fn digit_of(c: char) -> (value: Option<u128>)
    ensures
        match value {
            Some(v) => is_digit(c) && v == digit_value(c),
            None => !is_digit(c),
        },
{
    if c == '0' {
        Some(0)
    } else if c == '1' {
        Some(1)
    } else if c == '2' {
        Some(2)
    } else if c == '3' {
        Some(3)
    } else if c == '4' {
        Some(4)
    } else if c == '5' {
        Some(5)
    } else if c == '6' {
        Some(6)
    } else if c == '7' {
        Some(7)
    } else if c == '8' {
        Some(8)
    } else if c == '9' {
        Some(9)
    } else {
        None
    }
}

/// The number that the characters of `name` from `from` up to `to` write in
/// decimal, or `None` where they are not a number written so, or write one
/// that cannot be held.
fn parse_decimal(name: &str, from: usize, to: usize) -> (value: Option<u128>)
    requires
        from <= to <= name@.len(),
    ensures
        value == read_decimal(name@.subrange(from as int, to as int)),
{
    let ghost text = name@.subrange(from as int, to as int);
    if from == to {
        return None;
    }
    if to - from > 1 && name.get_char(from) == '0' {
        assert(text[0] == name@[from as int]);
        return None;
    }
    let mut value: u128 = 0;
    let mut i: usize = from;
    assert(text.take(0) =~= Seq::<char>::empty());
    while i < to
        invariant
            from <= i <= to <= name@.len(),
            text == name@.subrange(from as int, to as int),
            to - from > 1 ==> text[0] != '0',
            forall|j: int| 0 <= j < i - from ==> is_digit(#[trigger] text[j]),
            value == number(text.take(i - from)),
        decreases to - i,
    {
        let c = name.get_char(i);
        proof {
            assert(text[i - from] == c);
            assert(text.take(i - from + 1).drop_last() =~= text.take(i - from));
            assert(text.take(i - from + 1).last() == c);
        }
        let d = match digit_of(c) {
            Some(d) => d,
            None => {
                return None;
            },
        };
        if value > (u128::MAX - d) / 10 {
            proof {
                assert(number(text.take(i - from + 1)) > u128::MAX);
                lemma_number_of_front(text, i - from + 1);
            }
            return None;
        }
        value = value * 10 + d;
        i += 1;
    }
    proof {
        assert(text.take(i - from) =~= text);
    }
    Some(value)
}

/// A name that `file_place` does not take is not the name of an event's
/// file.
proof fn lemma_not_event_file(name: Seq<char>)
    requires
        name.len() >= 5 ==> {
            let text = name.take(name.len() - 5);
            ||| name.len() < 6
            ||| name.skip(name.len() - 5) != extension()
            ||| no_hyphen(text) && read_decimal(text) is None
            ||| exists|at: int| #[trigger]
                first_hyphen(text, at) && (read_decimal(text.take(at)) is None || read_decimal(
                    text.skip(at + 1),
                ) is None || read_decimal(text.skip(at + 1)) == Some(0u128))
        },
    ensures
        !is_event_file(name),
{
    assert forall|place: Place| !names_place(name, place) by {
        if names_place(name, place) {
            lemma_file_name(place);
            lemma_stem(place);
            lemma_read_decimal(Seq::empty(), place.millis);
            lemma_read_decimal(Seq::empty(), place.number);
            let text = name.take(name.len() - 5);
            let behind = decimal(place.millis).len() as int;
            if place.number == 0 {
                if !no_hyphen(text) {
                    let at = choose|at: int| first_hyphen(text, at);
                    assert(text[at] == '-');
                }
            } else {
                if no_hyphen(text) {
                    assert(text[behind] == '-');
                } else {
                    let at = choose|at: int| #[trigger]
                        first_hyphen(text, at) && (read_decimal(text.take(at)) is None
                            || read_decimal(text.skip(at + 1)) is None || read_decimal(
                            text.skip(at + 1),
                        ) == Some(0u128));
                    if at < behind {
                        assert(text.take(behind)[at] == text[at]);
                    } else if behind < at {
                        assert(text.take(at)[behind] == text[behind]);
                    }
                }
            }
        }
    }
}

/// The place that the name of an event's file tells, or `None` where the
/// name is not that of such a file.
pub fn file_place(name: &str) -> (place: Option<FilePlace>)
    ensures
        place == named_place(name@),
{
    let length = name.unicode_len();
    if length < 6 {
        proof {
            lemma_not_event_file(name@);
        }
        return None;
    }
    let end: usize = length - 5;
    let ghost text = name@.take(end as int);
    if name.get_char(end) != '.' || name.get_char(end + 1) != 'j' || name.get_char(end + 2) != 's'
        || name.get_char(end + 3) != 'o' || name.get_char(end + 4) != 'n' {
        proof {
            let ending = name@.skip(name@.len() - 5);
            assert(ending[0] == name@[end as int]);
            assert(ending[1] == name@[end + 1]);
            assert(ending[2] == name@[end + 2]);
            assert(ending[3] == name@[end + 3]);
            assert(ending[4] == name@[end + 4]);
            lemma_not_event_file(name@);
        }
        return None;
    }
    assert(name@.skip(name@.len() - 5) =~= extension());
    assert(name@ =~= text + extension());
    let mut at: usize = 0;
    while at < end && name.get_char(at) != '-'
        invariant
            at <= end,
            end + 5 == name@.len(),
            text == name@.take(end as int),
            forall|i: int| 0 <= i < at ==> #[trigger] text[i] != '-',
        decreases end - at,
    {
        at += 1;
    }
    assert(name@.subrange(0, end as int) =~= text);
    if at == end {
        assert(no_hyphen(text));
        match parse_decimal(name, 0, end) {
            Some(millis) => {
                let place = FilePlace { millis, number: 0 };
                proof {
                    lemma_read_decimal(text, millis as nat);
                    assert(stem(place@) =~= text);
                    assert(names_place(name@, place@));
                    lemma_file_name_tells_place(place@);
                }
                Some(place)
            },
            None => {
                proof {
                    lemma_not_event_file(name@);
                }
                None
            },
        }
    } else {
        proof {
            assert(text[at as int] == '-');
            assert forall|i: int| 0 <= i < text.take(at as int).len() implies #[trigger] text.take(
                at as int,
            )[i] != '-' by {
                assert(text.take(at as int)[i] == text[i]);
            }
            assert(first_hyphen(text, at as int));
            assert(name@.subrange(0, at as int) =~= text.take(at as int));
            assert(name@.subrange(at + 1, end as int) =~= text.skip(at + 1));
        }
        let millis = parse_decimal(name, 0, at);
        let number = parse_decimal(name, at + 1, end);
        match (millis, number) {
            (Some(millis), Some(number)) => {
                if number == 0 {
                    proof {
                        lemma_not_event_file(name@);
                    }
                    None
                } else {
                    let place = FilePlace { millis, number };
                    proof {
                        lemma_read_decimal(text.take(at as int), millis as nat);
                        lemma_read_decimal(text.skip(at + 1), number as nat);
                        assert(text =~= text.take(at as int) + seq!['-'] + text.skip(at + 1));
                        assert(stem(place@) =~= text);
                        assert(names_place(name@, place@));
                        lemma_file_name_tells_place(place@);
                    }
                    Some(place)
                }
            },
            _ => {
                proof {
                    lemma_not_event_file(name@);
                }
                None
            },
        }
    }
}

/// The instant in the name of an event's file, in milliseconds, or `None`
/// where the name is not that of such a file.
pub fn file_millis(name: &str) -> (millis: Option<u128>)
    ensures
        millis == named_instant(name@),
{
    match file_place(name) {
        Some(place) => Some(place.millis),
        None => None,
    }
}

/// The file of an event: its name, and the place that the name tells.
struct EventFile {
    place: FilePlace,
    name: String,
}

impl EventFile {
    #[verifier::type_invariant]
    spec fn names_its_place(&self) -> bool {
        names_place(self.name@, self.place@)
    }
}

impl Keyed for EventFile {
    closed spec fn key(&self) -> nat {
        place_key(place_of(self.name@))
    }

    fn key_lt(&self, other: &Self) -> (smaller: bool) {
        proof {
            use_type_invariant(self);
            use_type_invariant(other);
            lemma_file_name_tells_place(self.place@);
            lemma_file_name_tells_place(other.place@);
            lemma_place_key(self.place@, other.place@);
        }
        self.place.millis < other.place.millis || (self.place.millis == other.place.millis
            && self.place.number < other.place.number)
    }
}

/// The function that gives each file its name.
spec fn name_of() -> spec_fn(EventFile) -> Seq<char> {
    |file: EventFile| file.name@
}

/// The names of the files of events among `names`, in the order in which
/// the events are replayed: by the milliseconds in the names, ascending, and
/// within one millisecond by the numbers. Other files are left out.
pub fn replay_order(names: &Vec<String>) -> (ordered: Vec<String>)
    ensures
        texts(ordered@) == replay_names(texts(names@)),
{
    let mut files: Vec<EventFile> = Vec::new();
    let mut i: usize = 0;
    proof {
        reveal(Seq::filter);
        assert(texts(names@).take(0) =~= Seq::<Seq<char>>::empty());
        assert(files@.map_values(name_of()) =~= Seq::<Seq<char>>::empty());
    }
    while i < names.len()
        invariant
            i <= names@.len(),
            files@.map_values(name_of()) == texts(names@).take(i as int).filter(event_files()),
        decreases names@.len() - i,
    {
        let ghost before = files@.map_values(name_of());
        proof {
            reveal(Seq::filter);
            let seen = texts(names@).take(i + 1);
            assert(seen.drop_last() =~= texts(names@).take(i as int));
            assert(seen.last() == names@[i as int]@);
        }
        match file_place(names[i].as_str()) {
            Some(place) => {
                proof {
                    let name = names@[i as int]@;
                    assert(is_event_file(name));
                    assert(names_place(name, place_of(name)));
                }
                let file = EventFile { place, name: names[i].clone() };
                files.push(file);
                assert(files@.map_values(name_of()) =~= before.push(names@[i as int]@));
            },
            None => {},
        }
        i += 1;
    }
    let ghost found = files@;
    proof {
        assert(texts(names@).take(i as int) =~= texts(names@));
        lemma_sorted_seen(found, name_of(), key_of::<EventFile>(), name_key());
    }
    sort_stable(&mut files);
    let mut ordered: Vec<String> = Vec::new();
    let mut k: usize = 0;
    while k < files.len()
        invariant
            k <= files@.len(),
            texts(ordered@) == files@.map_values(name_of()).take(k as int),
        decreases files@.len() - k,
    {
        let ghost before = texts(ordered@);
        ordered.push(files[k].name.clone());
        assert(texts(ordered@) =~= before.push(files@[k as int].name@));
        k += 1;
    }
    assert(files@.map_values(name_of()).take(k as int) =~= files@.map_values(name_of()));
    ordered
}

} // verus!
