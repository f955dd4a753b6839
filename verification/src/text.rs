//! Text: lists of strings as sequences of characters, numbers in decimal.
use vstd::prelude::*;
use vstd::string::*;

verus! {

/// The characters of each string of a list.
pub open spec fn texts(list: Seq<String>) -> Seq<Seq<char>> {
    list.map_values(|s: String| s@)
}

/// The decimal digit of a number below ten.
pub open spec fn digit(d: nat) -> char
    recommends
        d < 10,
{
    ('0' as nat + d) as char
}

/// A natural number in decimal, without leading zeros.
pub open spec fn decimal(n: nat) -> Seq<char>
    decreases n,
{
    if n < 10 {
        seq![digit(n)]
    } else {
        decimal(n / 10).push(digit(n % 10))
    }
}

/// An integer in decimal: a minus sign goes before the digits of a negative one.
pub open spec fn signed_decimal(n: int) -> Seq<char> {
    if n < 0 {
        seq!['-'] + decimal((-n) as nat)
    } else {
        decimal(n as nat)
    }
}

/// A natural number in decimal, filled up with a zero to two digits.
pub open spec fn two_digits(n: nat) -> Seq<char> {
    if n < 10 {
        seq!['0'] + decimal(n)
    } else {
        decimal(n)
    }
}

fn digit_text(d: u32) -> (text: &'static str)
    requires
        d < 10,
    ensures
        text@ == seq![digit(d as nat)],
{
    proof {
        reveal_strlit("0");
        reveal_strlit("1");
        reveal_strlit("2");
        reveal_strlit("3");
        reveal_strlit("4");
        reveal_strlit("5");
        reveal_strlit("6");
        reveal_strlit("7");
        reveal_strlit("8");
        reveal_strlit("9");
    }
    if d == 0 {
        "0"
    } else if d == 1 {
        "1"
    } else if d == 2 {
        "2"
    } else if d == 3 {
        "3"
    } else if d == 4 {
        "4"
    } else if d == 5 {
        "5"
    } else if d == 6 {
        "6"
    } else if d == 7 {
        "7"
    } else if d == 8 {
        "8"
    } else {
        "9"
    }
}

/// Writes a number in decimal.
pub fn format_decimal(n: u32) -> (text: String)
    ensures
        text@ == decimal(n as nat),
    decreases n,
{
    if n < 10 {
        digit_text(n).to_string()
    } else {
        format_decimal(n / 10).concat(digit_text(n % 10))
    }
}

/// Writes an integer in decimal, with a minus sign where it is negative.
pub fn format_signed(n: i32) -> (text: String)
    ensures
        text@ == signed_decimal(n as int),
{
    if n < 0 {
        proof {
            reveal_strlit("-");
        }
        let magnitude: u32 = (-(n as i64)) as u32;
        "-".to_string().concat(format_decimal(magnitude).as_str())
    } else {
        format_decimal(n as u32)
    }
}

/// Writes a number in decimal with at least two digits.
pub fn format_two_digits(n: u32) -> (text: String)
    ensures
        text@ == two_digits(n as nat),
{
    if n < 10 {
        proof {
            reveal_strlit("0");
        }
        "0".to_string().concat(format_decimal(n).as_str())
    } else {
        format_decimal(n)
    }
}

/// Two lists hold the same strings in the same order.
pub fn same_texts(a: &Vec<String>, b: &Vec<String>) -> (same: bool)
    ensures
        same == (texts(a@) == texts(b@)),
{
    if a.len() != b.len() {
        assert(texts(a@).len() != texts(b@).len());
        return false;
    }
    let mut i: usize = 0;
    while i < a.len()
        invariant
            i <= a.len(),
            a.len() == b.len(),
            forall|j: int| 0 <= j < i ==> a@[j]@ == b@[j]@,
        decreases a.len() - i,
    {
        if a[i] != b[i] {
            assert(texts(a@)[i as int] != texts(b@)[i as int]);
            return false;
        }
        i = i + 1;
    }
    assert(texts(a@) =~= texts(b@));
    true
}

/// A number in decimal holds digits only.
pub proof fn lemma_decimal_digits(n: nat)
    ensures
        decimal(n).len() >= 1,
        forall|i: int| 0 <= i < decimal(n).len() ==> '0' <= #[trigger] decimal(n)[i] <= '9',
    decreases n,
{
    if n >= 10 {
        lemma_decimal_digits(n / 10);
    }
}

/// Two numbers with the same digits are the same number.
pub proof fn lemma_decimal_injective(m: nat, n: nat)
    requires
        decimal(m) == decimal(n),
    ensures
        m == n,
    decreases m,
{
    lemma_decimal_digits(m / 10);
    lemma_decimal_digits(n / 10);
    assert(decimal(m).last() == decimal(n).last());
    assert(decimal(m).last() == digit(m % 10));
    assert(decimal(n).last() == digit(n % 10));
    assert(m % 10 == n % 10);
    assert(decimal(m).len() == decimal(n).len());
    if m >= 10 && n >= 10 {
        assert(decimal(m).drop_last() =~= decimal(m / 10));
        assert(decimal(n).drop_last() =~= decimal(n / 10));
        lemma_decimal_injective(m / 10, n / 10);
    }
}

/// Two integers written alike are the same integer.
pub proof fn lemma_signed_decimal_injective(m: int, n: int)
    requires
        signed_decimal(m) == signed_decimal(n),
    ensures
        m == n,
{
    let a: nat = if m < 0 { (-m) as nat } else { m as nat };
    let b: nat = if n < 0 { (-n) as nat } else { n as nat };
    lemma_decimal_digits(a);
    lemma_decimal_digits(b);
    assert(signed_decimal(m)[0] == signed_decimal(n)[0]);
    assert(decimal(a)[0] != '-' && decimal(b)[0] != '-');
    assert((m < 0) == (n < 0));
    if m < 0 {
        assert(signed_decimal(m).drop_first() =~= decimal(a));
        assert(signed_decimal(n).drop_first() =~= decimal(b));
    }
    lemma_decimal_injective(a, b);
}

/// A number below a hundred takes two characters, and no two of them the same two.
pub proof fn lemma_two_digits(m: nat, n: nat)
    requires
        m < 100,
        n < 100,
    ensures
        two_digits(m).len() == 2,
        two_digits(m) == two_digits(n) ==> m == n,
{
    reveal_with_fuel(decimal, 3);
    if two_digits(m) == two_digits(n) {
        assert(two_digits(m)[0] == two_digits(n)[0]);
        assert(two_digits(m)[1] == two_digits(n)[1]);
    }
}

} // verus!
