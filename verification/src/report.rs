//! The text of the kill statistics that the observer is shown.
use crate::datatypes::VarInt;
use vstd::prelude::*;
use vstd::string::StringExecFns;

verus! {

/// The character of the decimal digit `d`.
pub open spec fn digit(d: nat) -> char
    recommends
        d < 10,
{
    if d == 0 {
        '0'
    } else if d == 1 {
        '1'
    } else if d == 2 {
        '2'
    } else if d == 3 {
        '3'
    } else if d == 4 {
        '4'
    } else if d == 5 {
        '5'
    } else if d == 6 {
        '6'
    } else if d == 7 {
        '7'
    } else if d == 8 {
        '8'
    } else {
        '9'
    }
}

/// The decimal digits of `n`, without leading zeros.
pub open spec fn digits(n: nat) -> Seq<char>
    decreases n,
{
    if n < 10 {
        seq![digit(n)]
    } else {
        digits(n / 10).push(digit(n % 10))
    }
}

/// `n` in decimal, with a minus sign where it is negative.
pub open spec fn decimal(n: int) -> Seq<char> {
    if n < 0 {
        seq!['-'] + digits((-n) as nat)
    } else {
        digits(n as nat)
    }
}

/// The name that `names` gives to the mob type `id`: that of the first entry
/// for `id`, and a placeholder where there is none.
pub open spec fn name_of(names: Seq<(i64, String)>, id: i64) -> Seq<char>
    decreases names.len(),
{
    if names.len() == 0 {
        "{UNKNOWN MOB}"@
    } else if names[0].0 == id {
        names[0].1@
    } else {
        name_of(names.skip(1), id)
    }
}

/// One line of the report: the mob's name, a colon and a space, the count,
/// and a line feed.
pub open spec fn kill_line(names: Seq<(i64, String)>, entry: (VarInt, i128)) -> Seq<char> {
    name_of(names, entry.0.0) + seq![':', ' '] + decimal(entry.1 as int) + seq!['\n']
}

/// The lines of all of `kills`, in order.
pub open spec fn kill_lines(names: Seq<(i64, String)>, kills: Seq<(VarInt, i128)>) -> Seq<char>
    decreases kills.len(),
{
    if kills.len() == 0 {
        Seq::empty()
    } else {
        kill_lines(names, kills.drop_last()) + kill_line(names, kills.last())
    }
}

/// The report: a line for each of `kills`, or, with none, the words that
/// there is nothing to show yet.
pub open spec fn kill_report(names: Seq<(i64, String)>, kills: Seq<(VarInt, i128)>) -> Seq<char> {
    if kills.len() == 0 {
        "No statistics to show yet."@
    } else {
        kill_lines(names, kills)
    }
}

/// The text of one decimal digit.
fn digit_text(d: u8) -> (r: &'static str)
    requires
        d < 10,
    ensures
        r@ == seq![digit(d as nat)],
{
    proof {
        reveal_strlit("0");
        reveal_strlit("1");
        reveal_strlit("2");
        reveal_strlit("3");
        reveal_strlit("4");
        reveal_strlit("5");
        reveal_strlit("6");
        reveal_strlit("7");
        reveal_strlit("8");
        reveal_strlit("9");
    }
    let text = if d == 0 {
        "0"
    } else if d == 1 {
        "1"
    } else if d == 2 {
        "2"
    } else if d == 3 {
        "3"
    } else if d == 4 {
        "4"
    } else if d == 5 {
        "5"
    } else if d == 6 {
        "6"
    } else if d == 7 {
        "7"
    } else if d == 8 {
        "8"
    } else {
        "9"
    };
    assert(text@ =~= seq![digit(d as nat)]);
    text
}

/// Writes `n` in decimal behind `text`.
pub fn append_decimal(text: &mut String, n: i128)
    ensures
        final(text)@ == old(text)@ + decimal(n as int),
{
    let magnitude: u128 = if n < 0 {
        proof {
            reveal_strlit("-");
        }
        text.append("-");
        if n == i128::MIN {
            0x8000_0000_0000_0000_0000_0000_0000_0000
        } else {
            (-n) as u128
        }
    } else {
        n as u128
    };
    let ghost start = text@;
    assert(old(text)@ + decimal(n as int) =~= start + digits(magnitude as nat));
    // the digits, least significant first
    let mut reversed: Vec<u8> = Vec::new();
    let mut rest: u128 = magnitude;
    loop
        invariant_except_break
            forall|i: int| 0 <= i < reversed@.len() ==> reversed@[i] < 10,
            digits(magnitude as nat) == digits(rest as nat) + Seq::new(
                reversed@.len(),
                |i: int| digit(reversed@[reversed@.len() - 1 - i] as nat),
            ),
        ensures
            forall|i: int| 0 <= i < reversed@.len() ==> reversed@[i] < 10,
            digits(magnitude as nat) == Seq::new(
                reversed@.len(),
                |i: int| digit(reversed@[reversed@.len() - 1 - i] as nat),
            ),
        decreases rest,
    {
        let ghost before = reversed@;
        let ghost tail = Seq::new(
            before.len(),
            |i: int| digit(before[before.len() - 1 - i] as nat),
        );
        reversed.push((rest % 10) as u8);
        let ghost longer = Seq::new(
            reversed@.len(),
            |i: int| digit(reversed@[reversed@.len() - 1 - i] as nat),
        );
        assert(longer =~= seq![digit((rest % 10) as nat)] + tail);
        if rest < 10 {
            assert(digits(rest as nat) + tail =~= longer);
            break ;
        }
        assert(digits(rest as nat) + tail =~= digits((rest / 10) as nat) + longer);
        rest = rest / 10;
    }
    let ghost all = digits(magnitude as nat);
    let mut i: usize = reversed.len();
    while i > 0
        invariant
            i <= reversed@.len(),
            forall|k: int| 0 <= k < reversed@.len() ==> reversed@[k] < 10,
            all == Seq::new(
                reversed@.len(),
                |k: int| digit(reversed@[reversed@.len() - 1 - k] as nat),
            ),
            text@ == start + all.take(reversed@.len() - i),
        decreases i,
    {
        i = i - 1;
        let ghost done = all.take(reversed@.len() - 1 - i);
        text.append(digit_text(reversed[i]));
        assert(done + seq![digit(reversed@[i as int] as nat)] =~= all.take(reversed@.len() - i));
        assert(start + done + seq![digit(reversed@[i as int] as nat)] =~= start + all.take(
            reversed@.len() - i,
        ));
    }
    assert(all.take(reversed@.len() as int) =~= all);
}

/// Writes the name of the mob type `id` behind `text`.
pub fn append_name(text: &mut String, names: &Vec<(i64, String)>, id: i64)
    ensures
        final(text)@ == old(text)@ + name_of(names@, id),
{
    let mut i: usize = 0;
    assert(names@.skip(0) =~= names@);
    while i < names.len()
        invariant
            i <= names@.len(),
            text@ == old(text)@,
            name_of(names@, id) == name_of(names@.skip(i as int), id),
        decreases names@.len() - i,
    {
        assert(names@.skip(i as int)[0] == names@[i as int]);
        if names[i].0 == id {
            text.append(names[i].1.as_str());
            return ;
        }
        assert(names@.skip(i as int).skip(1) =~= names@.skip(i + 1));
        i = i + 1;
    }
    text.append("{UNKNOWN MOB}");
}

/// The report of `kills`, with the names of the mob types taken from
/// `names`.
pub fn statistics_text(names: &Vec<(i64, String)>, kills: &Vec<(VarInt, i128)>) -> (r: String)
    ensures
        r@ == kill_report(names@, kills@),
{
    if kills.len() == 0 {
        return "No statistics to show yet.".to_owned();
    }
    let mut text = String::new();
    let mut i: usize = 0;
    assert(kills@.take(0) =~= Seq::<(VarInt, i128)>::empty());
    while i < kills.len()
        invariant
            i <= kills@.len(),
            text@ == kill_lines(names@, kills@.take(i as int)),
        decreases kills@.len() - i,
    {
        let ghost before = text@;
        let entry = kills[i];
        proof {
            assert(kills@.take(i + 1).drop_last() =~= kills@.take(i as int));
            reveal_strlit(": ");
            reveal_strlit("\n");
        }
        append_name(&mut text, names, entry.0.0);
        text.append(": ");
        append_decimal(&mut text, entry.1);
        text.append("\n");
        assert(": "@ =~= seq![':', ' ']);
        assert("\n"@ =~= seq!['\n']);
        assert(text@ =~= before + kill_line(names@, entry));
        i = i + 1;
    }
    assert(kills@.take(i as int) =~= kills@);
    text
}

} // verus!
