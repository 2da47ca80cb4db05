//! Numbers in texts.

use vstd::prelude::*;
use vstd::string::StringExecFns;

verus! {

/// A decimal digit.
pub open spec fn digit(d: nat) -> char {
    if d == 0 {
        '0'
    } else if d == 1 {
        '1'
    } else if d == 2 {
        '2'
    } else if d == 3 {
        '3'
    } else if d == 4 {
        '4'
    } else if d == 5 {
        '5'
    } else if d == 6 {
        '6'
    } else if d == 7 {
        '7'
    } else if d == 8 {
        '8'
    } else {
        '9'
    }
}

/// A number in decimal digits, without leading zeros.
pub open spec fn decimal(n: nat) -> Seq<char>
    decreases n,
{
    if n < 10 {
        seq![digit(n)]
    } else {
        decimal(n / 10).push(digit(n % 10))
    }
}

/// Appends a digit.
fn append_digit(text: &mut String, d: u64)
    requires
        d < 10,
    ensures
        final(text)@ == old(text)@.push(digit(d as nat)),
{
    proof {
        reveal_strlit("0");
        reveal_strlit("1");
        reveal_strlit("2");
        reveal_strlit("3");
        reveal_strlit("4");
        reveal_strlit("5");
        reveal_strlit("6");
        reveal_strlit("7");
        reveal_strlit("8");
        reveal_strlit("9");
    }
    let ghost before = text@;
    match d {
        0 => text.append("0"),
        1 => text.append("1"),
        2 => text.append("2"),
        3 => text.append("3"),
        4 => text.append("4"),
        5 => text.append("5"),
        6 => text.append("6"),
        7 => text.append("7"),
        8 => text.append("8"),
        _ => text.append("9"),
    }
    assert(text@ =~= before.push(digit(d as nat)));
}

/// Appends a number.
fn append_decimal(text: &mut String, n: u64)
    ensures
        final(text)@ == old(text)@ + decimal(n as nat),
    decreases n,
{
    let ghost before = text@;
    if n >= 10 {
        append_decimal(text, n / 10);
    }
    append_digit(text, n % 10);
    assert(text@ =~= before + decimal(n as nat));
}

/// A text with one number in it.
pub open spec fn with_one(a: Seq<char>, x: nat, b: Seq<char>) -> Seq<char> {
    a + decimal(x) + b
}

/// A text with two numbers in it.
pub open spec fn with_two(a: Seq<char>, x: nat, b: Seq<char>, y: nat, c: Seq<char>) -> Seq<char> {
    a + decimal(x) + b + decimal(y) + c
}

/// A text with one number in it.
pub fn join_one(a: &str, x: u64, b: &str) -> (r: String)
    ensures
        r@ == with_one(a@, x as nat, b@),
{
    let mut text: String = a.to_owned();
    append_decimal(&mut text, x);
    text.append(b);
    text
}

/// A text with two numbers in it.
pub fn join_two(a: &str, x: u64, b: &str, y: u64, c: &str) -> (r: String)
    ensures
        r@ == with_two(a@, x as nat, b@, y as nat, c@),
{
    let mut text: String = join_one(a, x, b);
    append_decimal(&mut text, y);
    text.append(c);
    text
}

/// The number that decimal digits stand for: a digit counts its distance from the character
/// zero, and every further digit makes those before it worth ten times as much.
pub open spec fn number_of(digits: Seq<char>) -> int
    decreases digits.len(),
{
    if digits.len() == 0 {
        0
    } else {
        10 * number_of(digits.drop_last()) + (digits.last() as int - '0' as int)
    }
}

/// The digits of a number stand for it, are digits, and start with a zero only where the
/// number is zero.
pub proof fn law_digits_stand_for_their_number(n: nat)
    ensures
        decimal(n).len() > 0,
        number_of(decimal(n)) == n,
        forall|i: int| 0 <= i < decimal(n).len() ==> '0' <= #[trigger] decimal(n)[i] <= '9',
        decimal(n)[0] == '0' ==> n == 0,
    decreases n,
{
    let all = decimal(n);
    if n < 10 {
        assert(all.drop_last() =~= Seq::<char>::empty());
        assert(number_of(all.drop_last()) == 0);
    } else {
        law_digits_stand_for_their_number(n / 10);
        let rest = decimal(n / 10);
        assert(all.drop_last() =~= rest);
        assert forall|i: int| 0 <= i < all.len() implies '0' <= #[trigger] all[i] <= '9' by {
            if i < rest.len() {
                assert('0' <= rest[i] <= '9');
            }
        }
        assert(all[0] == rest[0]);
    }
}

/// A text with numbers in it holds its parts and the digits of the numbers, in their order,
/// and nothing else.
pub proof fn law_joined_text(a: &str, x: u64, b: &str, y: u64, c: &str, one: String, two: String)
    requires
        call_ensures(join_one, (a, x, b), one),
        call_ensures(join_two, (a, x, b, y, c), two),
    ensures
        one@ == a@ + decimal(x as nat) + b@,
        two@ == one@ + decimal(y as nat) + c@,
{
}

} // verus!
