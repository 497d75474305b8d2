//! The generated identifiers: a surface name with its depth, and the numbered temporaries.
use std::rc::Rc;
use vstd::prelude::*;
use vstd::string::*;

verus! {

/// The character of one decimal digit.
pub open spec fn digit(d: int) -> char {
    if d == 0 {
        '0'
    } else if d == 1 {
        '1'
    } else if d == 2 {
        '2'
    } else if d == 3 {
        '3'
    } else if d == 4 {
        '4'
    } else if d == 5 {
        '5'
    } else if d == 6 {
        '6'
    } else if d == 7 {
        '7'
    } else if d == 8 {
        '8'
    } else {
        '9'
    }
}

/// The decimal numeral of a natural number, without leading zeros.
pub open spec fn decimal(n: nat) -> Seq<char>
    decreases n,
{
    if n < 10 {
        seq![digit(n as int)]
    } else {
        decimal(n / 10).push(digit((n % 10) as int))
    }
}

/// The name that a surface identifier gets when it is bound at the given depth.
pub open spec fn unique_name(name: Seq<char>, depth: nat) -> Seq<char> {
    name + seq!['.'] + decimal(depth)
}

/// The name of the temporary with the given number.
pub open spec fn tmp_name(n: nat) -> Seq<char> {
    seq!['t', 'm', 'p', '.'] + decimal(n)
}

/// A numeral is not empty and holds no dot.
pub proof fn lemma_decimal_digits(n: nat)
    ensures
        decimal(n).len() >= 1,
        forall|i: int| 0 <= i < decimal(n).len() ==> decimal(n)[i] != '.',
    decreases n,
{
    if n >= 10 {
        lemma_decimal_digits(n / 10);
    }
}

/// Two digits with the same character are the same digit.
pub proof fn lemma_digit_injective(c: int, d: int)
    requires
        0 <= c < 10,
        0 <= d < 10,
        digit(c) == digit(d),
    ensures
        c == d,
{
}

/// Two numbers with the same numeral are the same number.
pub proof fn lemma_decimal_injective(a: nat, b: nat)
    requires
        decimal(a) == decimal(b),
    ensures
        a == b,
    decreases a,
{
    lemma_decimal_digits(a / 10);
    lemma_decimal_digits(b / 10);
    if a < 10 && b < 10 {
        assert(decimal(a)[0] == digit(a as int));
        assert(decimal(b)[0] == digit(b as int));
        lemma_digit_injective(a as int, b as int);
    } else if a >= 10 && b >= 10 {
        let p = decimal(a / 10);
        let q = decimal(b / 10);
        assert(p.push(digit((a % 10) as int)).last() == q.push(digit((b % 10) as int)).last());
        assert(p.push(digit((a % 10) as int)).drop_last() =~= p);
        assert(q.push(digit((b % 10) as int)).drop_last() =~= q);
        lemma_decimal_injective(a / 10, b / 10);
        lemma_digit_injective((a % 10) as int, (b % 10) as int);
    } else {
        assert(decimal(a).len() != decimal(b).len());
    }
}

/// A generated name tells both the surface identifier and the depth.
pub proof fn lemma_unique_name_injective(a: Seq<char>, m: nat, b: Seq<char>, n: nat)
    requires
        unique_name(a, m) == unique_name(b, n),
    ensures
        a == b,
        m == n,
{
    lemma_decimal_digits(m);
    lemma_decimal_digits(n);
    let s = unique_name(a, m);
    let t = unique_name(b, n);
    assert(s.len() == a.len() + 1 + decimal(m).len());
    assert(t.len() == b.len() + 1 + decimal(n).len());
    if a.len() < b.len() {
        assert(t[b.len() as int] == '.');
        assert(s[b.len() as int] == decimal(m)[b.len() - a.len() - 1]);
    } else if b.len() < a.len() {
        assert(s[a.len() as int] == '.');
        assert(t[a.len() as int] == decimal(n)[a.len() - b.len() - 1]);
    }
    assert(a =~= s.subrange(0, a.len() as int));
    assert(b =~= t.subrange(0, b.len() as int));
    assert(decimal(m) =~= s.subrange(a.len() as int + 1, s.len() as int));
    assert(decimal(n) =~= t.subrange(b.len() as int + 1, t.len() as int));
    lemma_decimal_injective(m, n);
}

/// Two temporaries with the same name have the same number.
pub proof fn lemma_tmp_name_injective(m: nat, n: nat)
    requires
        tmp_name(m) == tmp_name(n),
    ensures
        m == n,
{
    let s = tmp_name(m);
    let t = tmp_name(n);
    assert(decimal(m) =~= s.subrange(4, s.len() as int));
    assert(decimal(n) =~= t.subrange(4, t.len() as int));
    lemma_decimal_injective(m, n);
}

/// The text of one decimal digit.
fn digit_text(d: u64) -> (res: &'static str)
    requires
        d < 10,
    ensures
        res@ == seq![digit(d as int)],
{
    proof {
        reveal_strlit("0");
        reveal_strlit("1");
        reveal_strlit("2");
        reveal_strlit("3");
        reveal_strlit("4");
        reveal_strlit("5");
        reveal_strlit("6");
        reveal_strlit("7");
        reveal_strlit("8");
        reveal_strlit("9");
    }
    let res = if d == 0 {
        "0"
    } else if d == 1 {
        "1"
    } else if d == 2 {
        "2"
    } else if d == 3 {
        "3"
    } else if d == 4 {
        "4"
    } else if d == 5 {
        "5"
    } else if d == 6 {
        "6"
    } else if d == 7 {
        "7"
    } else if d == 8 {
        "8"
    } else {
        "9"
    };
    assert(res@ =~= seq![digit(d as int)]);
    res
}

/// Writes a number as its decimal numeral.
pub fn decimal_string(n: u64) -> (res: String)
    ensures
        res@ == decimal(n as nat),
    decreases n,
{
    if n < 10 {
        String::from_str(digit_text(n))
    } else {
        let mut res = decimal_string(n / 10);
        res.append(digit_text(n % 10));
        assert(res@ =~= decimal(n as nat));
        res
    }
}

/// Builds the name that `name` gets when it is bound at `depth`.
pub fn make_unique_name(name: &Rc<String>, depth: usize) -> (res: Rc<String>)
    ensures
        res@ == unique_name(name@, depth as nat),
{
    proof {
        reveal_strlit(".");
    }
    let mut text: String = String::from_str(name.as_str());
    text.append(".");
    let numeral = decimal_string(depth as u64);
    text.append(numeral.as_str());
    assert(text@ =~= unique_name(name@, depth as nat));
    Rc::new(text)
}

/// Builds the name of the temporary with the given number.
pub fn make_tmp_name(n: u64) -> (res: Rc<String>)
    ensures
        res@ == tmp_name(n as nat),
{
    proof {
        reveal_strlit("tmp.");
    }
    let mut text: String = String::from_str("tmp.");
    let numeral = decimal_string(n);
    text.append(numeral.as_str());
    assert(text@ =~= tmp_name(n as nat));
    Rc::new(text)
}

} // verus!
