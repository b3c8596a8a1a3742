//! Numbers and flags as text.
use vstd::prelude::*;

verus! {

/// A decimal digit.
pub open spec fn digit(value: nat) -> char {
    if value == 0 {
        '0'
    } else if value == 1 {
        '1'
    } else if value == 2 {
        '2'
    } else if value == 3 {
        '3'
    } else if value == 4 {
        '4'
    } else if value == 5 {
        '5'
    } else if value == 6 {
        '6'
    } else if value == 7 {
        '7'
    } else if value == 8 {
        '8'
    } else {
        '9'
    }
}

/// A number in decimal notation.
pub open spec fn decimal(value: nat) -> Seq<char>
    decreases value,
{
    if value < 10 {
        seq![digit(value)]
    } else {
        decimal(value / 10).push(digit(value % 10))
    }
}

/// A decimal digit as text.
fn digit_text(value: u64) -> (text: &'static str)
    requires
        value < 10,
    ensures
        text@ == seq![digit(value as nat)],
{
    proof {
        reveal_strlit("0");
        reveal_strlit("1");
        reveal_strlit("2");
        reveal_strlit("3");
        reveal_strlit("4");
        reveal_strlit("5");
        reveal_strlit("6");
        reveal_strlit("7");
        reveal_strlit("8");
        reveal_strlit("9");
    }
    let text = match value {
        0 => "0",
        1 => "1",
        2 => "2",
        3 => "3",
        4 => "4",
        5 => "5",
        6 => "6",
        7 => "7",
        8 => "8",
        _ => "9",
    };
    assert(text@ =~= seq![digit(value as nat)]);
    text
}

/// Appends a number in decimal notation.
pub fn append_decimal(text: &mut String, value: u64)
    ensures
        final(text)@ == old(text)@ + decimal(value as nat),
    decreases value,
{
    let ghost before = text@;
    if value < 10 {
        text.append(digit_text(value));
    } else {
        append_decimal(text, value / 10);
        text.append(digit_text(value % 10));
        assert(text@ =~= before + decimal(value as nat));
    }
}

/// A number in decimal notation.
pub fn decimal_text(value: u64) -> (text: String)
    ensures
        text@ == decimal(value as nat),
{
    let mut text: String = String::new();
    append_decimal(&mut text, value);
    assert(text@ =~= decimal(value as nat));
    text
}

/// Numbers in decimal notation with commas between them.
pub open spec fn comma_separated(values: Seq<u64>) -> Seq<char>
    decreases values.len(),
{
    if values.len() == 0 {
        Seq::empty()
    } else if values.len() == 1 {
        decimal(values[0] as nat)
    } else {
        comma_separated(values.drop_last()) + ","@ + decimal(values.last() as nat)
    }
}

/// Numbers in decimal notation with commas between them.
pub fn comma_text(values: &Vec<u64>) -> (text: String)
    ensures
        text@ == comma_separated(values@),
{
    let mut text: String = String::new();
    let mut i: usize = 0;
    assert(text@ =~= comma_separated(values@.take(0)));
    while i < values.len()
        invariant
            i <= values@.len(),
            text@ == comma_separated(values@.take(i as int)),
        decreases values@.len() - i,
    {
        proof {
            let now = values@.take(i + 1);
            assert(now.drop_last() =~= values@.take(i as int));
        }
        if i > 0 {
            text.append(",");
        }
        append_decimal(&mut text, values[i]);
        i += 1;
        assert(text@ =~= comma_separated(values@.take(i as int)));
    }
    assert(values@.take(i as int) =~= values@);
    text
}

/// What is said of an epoch that comes out of turn.
pub open spec fn out_of_turn(expected: usize, got: usize) -> Seq<char> {
    "epoch order mismatch: expected "@ + decimal(expected as nat) + ", got "@ + decimal(got as nat)
}

/// What is said of an epoch that comes out of turn.
pub fn out_of_turn_text(expected: usize, got: usize) -> (text: String)
    ensures
        text@ == out_of_turn(expected, got),
{
    let mut text: String = String::new();
    text.append("epoch order mismatch: expected ");
    append_decimal(&mut text, expected as u64);
    text.append(", got ");
    append_decimal(&mut text, got as u64);
    assert(text@ =~= out_of_turn(expected, got));
    text
}

/// A flag as text.
pub open spec fn flag(value: bool) -> Seq<char> {
    if value {
        "true"@
    } else {
        "false"@
    }
}

/// A flag as text.
pub fn flag_text(value: bool) -> (text: &'static str)
    ensures
        text@ == flag(value),
{
    if value {
        "true"
    } else {
        "false"
    }
}

/// The number that a run of decimal digits stands for.
pub open spec fn number_in(text: Seq<char>) -> int
    decreases text.len(),
{
    if text.len() == 0 {
        0
    } else {
        number_in(text.drop_last()) * 10 + (text.last() as u32 - 48)
    }
}

/// Decimal notation is digits only, without a leading zero unless it is the only digit, and
/// reading it back gives the number.
pub proof fn law_decimal_reads_back(value: nat)
    ensures
        number_in(decimal(value)) == value,
        decimal(value).len() > 0,
        forall|i: int| 0 <= i < decimal(value).len() ==> '0' <= #[trigger] decimal(value)[i] <= '9',
        value > 0 ==> decimal(value)[0] != '0',
        value == 0 ==> decimal(value).len() == 1,
    decreases value,
{
    reveal_with_fuel(number_in, 2);
    assert forall|d: nat| d < 10 implies #[trigger] digit(d) as u32 == 48 + d && '0' <= digit(d)
        <= '9' by {}
    if value >= 10 {
        law_decimal_reads_back(value / 10);
        let text = decimal(value);
        assert(text.drop_last() =~= decimal(value / 10));
        assert(digit(value % 10) as u32 == 48 + value % 10);
        assert(text[0] == decimal(value / 10)[0]);
    } else {
        assert(digit(value) as u32 == 48 + value);
        assert(decimal(value).drop_last() =~= Seq::<char>::empty());
    }
}

/// Numbers are written in order, each behind a comma but the first.
pub proof fn law_commas_separate(values: Seq<u64>, more: u64)
    ensures
        comma_separated(Seq::empty()).len() == 0,
        comma_separated(seq![more]) == decimal(more as nat),
        values.len() > 0 ==> comma_separated(values.push(more)) == comma_separated(values) + seq![
            ',',
        ] + decimal(more as nat),
{
    reveal_strlit(",");
    assert(","@ =~= seq![',']);
    assert(values.push(more).drop_last() =~= values);
}

/// What is said of an epoch out of turn names the one that was due, then the one that came.
pub proof fn law_out_of_turn_names_both(expected: usize, got: usize)
    ensures
        out_of_turn(expected, got) == "epoch order mismatch: expected "@ + decimal(expected as nat)
            + ", got "@ + decimal(got as nat),
        flag(true) == "true"@,
        flag(false) == "false"@,
{
}

} // verus!
