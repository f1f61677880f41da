//! The listing shown to the user: numbered lines with a check box each.
use vstd::prelude::*;

verus! {

/// The digit character for `d < 10`.
pub open spec fn digit_char(d: nat) -> char {
    if d == 0 {
        '0'
    } else if d == 1 {
        '1'
    } else if d == 2 {
        '2'
    } else if d == 3 {
        '3'
    } else if d == 4 {
        '4'
    } else if d == 5 {
        '5'
    } else if d == 6 {
        '6'
    } else if d == 7 {
        '7'
    } else if d == 8 {
        '8'
    } else {
        '9'
    }
}

/// `n` in decimal, without leading zeros.
pub open spec fn decimal(n: nat) -> Seq<char>
    decreases n,
{
    if n < 10 {
        seq![digit_char(n)]
    } else {
        decimal(n / 10).push(digit_char(n % 10))
    }
}

/// The box shown after an item: ticked when it is done.
pub open spec fn mark(checked: bool) -> char {
    if checked {
        '\u{2611}'
    } else {
        '\u{2610}'
    }
}

/// The line shown for the `n`-th item.
pub open spec fn line_text(n: nat, label: Seq<char>, checked: bool) -> Seq<char> {
    decimal(n) + seq!['.', ' '] + label + seq![' ', mark(checked)]
}

fn digit_str(d: usize) -> (r: &'static str)
    requires
        d < 10,
    ensures
        r@ == seq![digit_char(d as nat)],
{
    proof {
        reveal_strlit("0");
        reveal_strlit("1");
        reveal_strlit("2");
        reveal_strlit("3");
        reveal_strlit("4");
        reveal_strlit("5");
        reveal_strlit("6");
        reveal_strlit("7");
        reveal_strlit("8");
        reveal_strlit("9");
    }
    let r = if d == 0 {
        "0"
    } else if d == 1 {
        "1"
    } else if d == 2 {
        "2"
    } else if d == 3 {
        "3"
    } else if d == 4 {
        "4"
    } else if d == 5 {
        "5"
    } else if d == 6 {
        "6"
    } else if d == 7 {
        "7"
    } else if d == 8 {
        "8"
    } else {
        "9"
    };
    assert(r@ =~= seq![digit_char(d as nat)]);
    r
}

/// `n` written in decimal.
pub fn decimal_text(n: usize) -> (r: String)
    ensures
        r@ == decimal(n as nat),
    decreases n,
{
    if n < 10 {
        let mut s = String::new();
        s.append(digit_str(n));
        assert(s@ =~= decimal(n as nat));
        s
    } else {
        let mut s = decimal_text(n / 10);
        s.append(digit_str(n % 10));
        assert(s@ =~= decimal(n as nat));
        s
    }
}

/// The line for the `n`-th item: its number, the label and a check box.
pub fn render_line(n: usize, label: &String, checked: bool) -> (r: String)
    ensures
        r@ == line_text(n as nat, label@, checked),
{
    let mut s = decimal_text(n);
    s.append(". ");
    s.append(label.as_str());
    if checked {
        s.append(" \u{2611}");
    } else {
        s.append(" \u{2610}");
    }
    proof {
        reveal_strlit(". ");
        reveal_strlit(" \u{2611}");
        reveal_strlit(" \u{2610}");
    }
    assert(s@ =~= line_text(n as nat, label@, checked));
    s
}

/// The listing of `items`, numbered from 1 in the order given.
pub fn render(items: &Vec<(String, bool)>) -> (r: Vec<String>)
    ensures
        r@.len() == items@.len(),
        forall|i: int|
            0 <= i < r@.len() ==> (#[trigger] r@[i])@ == line_text(
                (i + 1) as nat,
                items@[i].0@,
                items@[i].1,
            ),
{
    let mut r: Vec<String> = Vec::new();
    let mut i: usize = 0;
    while i < items.len()
        invariant
            i <= items@.len(),
            r@.len() == i,
            forall|j: int|
                0 <= j < i ==> (#[trigger] r@[j])@ == line_text(
                    (j + 1) as nat,
                    items@[j].0@,
                    items@[j].1,
                ),
        decreases items.len() - i,
    {
        r.push(render_line(i + 1, &items[i].0, items[i].1));
        i = i + 1;
    }
    r
}

} // verus!
