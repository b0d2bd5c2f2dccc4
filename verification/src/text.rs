//! Small verified operations on text.

use vstd::prelude::*;

verus! {

/// The decimal digit of `d`.
pub open spec fn digit(d: int) -> char {
    (('0' as int) + d) as char
}

/// The decimal form of `n`, without leading zeros.
pub open spec fn digits(n: nat) -> Seq<char>
    decreases n,
{
    if n < 10 {
        seq![digit(n as int)]
    } else {
        digits(n / 10).push(digit((n % 10) as int))
    }
}

fn digit_text(d: usize) -> (c: &'static str)
    requires
        d < 10,
    ensures
        c@ == seq![digit(d as int)],
{
    proof {
        reveal_strlit("0");
        reveal_strlit("1");
        reveal_strlit("2");
        reveal_strlit("3");
        reveal_strlit("4");
        reveal_strlit("5");
        reveal_strlit("6");
        reveal_strlit("7");
        reveal_strlit("8");
        reveal_strlit("9");
    }
    let c: &'static str = if d == 0 {
        "0"
    } else if d == 1 {
        "1"
    } else if d == 2 {
        "2"
    } else if d == 3 {
        "3"
    } else if d == 4 {
        "4"
    } else if d == 5 {
        "5"
    } else if d == 6 {
        "6"
    } else if d == 7 {
        "7"
    } else if d == 8 {
        "8"
    } else {
        "9"
    };
    assert(c@ =~= seq![digit(d as int)]);
    c
}

/// Writes a number in decimal.
pub fn decimal(n: usize) -> (s: String)
    ensures
        s@ == digits(n as nat),
    decreases n,
{
    let mut s: String = if n < 10 {
        String::new()
    } else {
        decimal(n / 10)
    };
    s.append(digit_text(n % 10));
    assert(s@ =~= digits(n as nat));
    s
}

/// Two texts, one after the other.
pub fn joined(a: &str, b: &str) -> (s: String)
    ensures
        s@ == a@ + b@,
{
    let mut s: String = String::from_str(a);
    s.append(b);
    s
}

/// Whether two texts are the same.
pub fn same_text(a: &str, b: &str) -> (r: bool)
    ensures
        r == (a@ == b@),
{
    let n: usize = a.unicode_len();
    if n != b.unicode_len() {
        return false;
    }
    for i in 0..n
        invariant
            n == a@.len(),
            n == b@.len(),
            forall|j: int| 0 <= j < i ==> a@[j] == b@[j],
    {
        if a.get_char(i) != b.get_char(i) {
            return false;
        }
    }
    assert(a@ =~= b@);
    true
}

/// Different numbers have different decimal forms.
pub proof fn decimal_forms_differ(a: nat, b: nat)
    ensures
        digits(a) == digits(b) ==> a == b,
        forall|i: int| 0 <= i < digits(a).len() ==> '0' <= #[trigger] digits(a)[i] <= '9',
        digits(a).len() >= 1,
    decreases a + b,
{
    if a >= 10 && b >= 10 {
        decimal_forms_differ(a / 10, b / 10);
        if digits(a) == digits(b) {
            assert(digits(a).drop_last() =~= digits(a / 10));
            assert(digits(b).drop_last() =~= digits(b / 10));
            assert(digits(a).last() == digits(b).last());
        }
    } else if a >= 10 {
        decimal_forms_differ(a / 10, b / 10);
    } else if b >= 10 {
        decimal_forms_differ(b / 10, 0);
        assert(digits(b).len() >= 2);
    } else {
        assert(digits(a)[0] == digit(a as int));
        assert(digits(b)[0] == digit(b as int));
    }
}

} // verus!
