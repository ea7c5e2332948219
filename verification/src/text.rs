//! Decimal text of small integers.
use vstd::prelude::*;

verus! {

/// The decimal digit character for `d` in `0..10`.
pub open spec fn digit_char(d: int) -> char {
    ('0' as int + d) as char
}

/// The decimal text of a natural number, without leading zeros.
pub open spec fn spec_nat_text(n: nat) -> Seq<char>
    decreases n,
{
    if n < 10 {
        seq![digit_char(n as int)]
    } else {
        spec_nat_text(n / 10) + seq![digit_char((n % 10) as int)]
    }
}

/// The decimal text of an integer, with a leading `-` when it is negative.
pub open spec fn spec_i8_text(x: int) -> Seq<char> {
    if x < 0 {
        seq!['-'] + spec_nat_text((-x) as nat)
    } else {
        spec_nat_text(x as nat)
    }
}

/// The one-character text of a decimal digit.
pub fn digit_str(d: u8) -> (s: &'static str)
    requires
        d < 10,
    ensures
        s@ == seq![digit_char(d as int)],
{
    proof {
        reveal_strlit("0");
        reveal_strlit("1");
        reveal_strlit("2");
        reveal_strlit("3");
        reveal_strlit("4");
        reveal_strlit("5");
        reveal_strlit("6");
        reveal_strlit("7");
        reveal_strlit("8");
        reveal_strlit("9");
    }
    match d {
        0 => "0",
        1 => "1",
        2 => "2",
        3 => "3",
        4 => "4",
        5 => "5",
        6 => "6",
        7 => "7",
        8 => "8",
        _ => "9",
    }
}

/// Appends the decimal text of `x`.
pub fn push_i8(s: &mut String, x: i8)
    ensures
        final(s)@ == old(s)@ + spec_i8_text(x as int),
{
    let n: u16 = if x < 0 {
        proof {
            reveal_strlit("-");
        }
        s.append("-");
        (0i16 - x as i16) as u16
    } else {
        x as u16
    };
    let ghost before = s@;
    if n >= 100 {
        s.append(digit_str((n / 100) as u8));
        s.append(digit_str(((n / 10) % 10) as u8));
        s.append(digit_str((n % 10) as u8));
        assert(spec_nat_text(n as nat) =~= seq![digit_char((n / 100) as int), digit_char(((n / 10) % 10) as int), digit_char((n % 10) as int)]) by {
            assert(spec_nat_text((n / 10) as nat) == spec_nat_text(((n / 10) / 10) as nat) + seq![digit_char(((n / 10) % 10) as int)]);
        }
    } else if n >= 10 {
        s.append(digit_str((n / 10) as u8));
        s.append(digit_str((n % 10) as u8));
        assert(spec_nat_text((n / 10) as nat) == seq![digit_char((n / 10) as int)]);
        assert(spec_nat_text(n as nat) =~= seq![digit_char((n / 10) as int), digit_char((n % 10) as int)]);
    } else {
        s.append(digit_str(n as u8));
        assert(spec_nat_text(n as nat) =~= seq![digit_char(n as int)]);
    }
    assert(s@ =~= old(s)@ + spec_i8_text(x as int));
}


pub open spec fn is_digit_char(c: char) -> bool {
    '0' <= c <= '9'
}

/// The decimal text of a number is made of digits, one for a number below 10 and more for
/// larger ones.
pub proof fn lemma_nat_text_shape(n: nat)
    ensures
        forall|k: int| 0 <= k < spec_nat_text(n).len() ==> is_digit_char(#[trigger] spec_nat_text(n)[k]),
        spec_nat_text(n).len() >= 1,
        (spec_nat_text(n).len() == 1) == (n < 10),
    decreases n,
{
    if n >= 10 {
        lemma_nat_text_shape(n / 10);
        let t = spec_nat_text(n / 10) + seq![digit_char((n % 10) as int)];
        assert forall|k: int| 0 <= k < t.len() implies is_digit_char(#[trigger] t[k]) by {
            if k < t.len() - 1 {
                assert(t[k] == spec_nat_text(n / 10)[k]);
            }
        }
    }
}

/// Different numbers have different decimal texts.
pub proof fn lemma_nat_text_injective(n: nat, m: nat)
    requires
        spec_nat_text(n) == spec_nat_text(m),
    ensures
        n == m,
    decreases n,
{
    lemma_nat_text_shape(n);
    lemma_nat_text_shape(m);
    if n >= 10 {
        let tn = spec_nat_text(n);
        let tm = spec_nat_text(m);
        assert(tn.last() == digit_char((n % 10) as int));
        assert(tm.last() == digit_char((m % 10) as int));
        assert(tn.drop_last() =~= spec_nat_text(n / 10));
        assert(tm.drop_last() =~= spec_nat_text(m / 10));
        lemma_nat_text_injective(n / 10, m / 10);
    } else {
        assert(spec_nat_text(n)[0] == digit_char(n as int));
        assert(spec_nat_text(m)[0] == digit_char(m as int));
    }
}

/// Different integers have different texts.
pub proof fn lemma_i8_text_injective(x: int, y: int)
    requires
        spec_i8_text(x) == spec_i8_text(y),
    ensures
        x == y,
{
    if x < 0 {
        lemma_nat_text_shape((-x) as nat);
    } else {
        lemma_nat_text_shape(x as nat);
    }
    if y < 0 {
        lemma_nat_text_shape((-y) as nat);
    } else {
        lemma_nat_text_shape(y as nat);
    }
    let tx = spec_i8_text(x);
    let ty = spec_i8_text(y);
    if x < 0 && y < 0 {
        assert(tx.drop_first() =~= spec_nat_text((-x) as nat));
        assert(ty.drop_first() =~= spec_nat_text((-y) as nat));
        lemma_nat_text_injective((-x) as nat, (-y) as nat);
    } else if x >= 0 && y >= 0 {
        lemma_nat_text_injective(x as nat, y as nat);
    } else if x < 0 {
        assert(tx[0] == '-');
        assert(is_digit_char(ty[0]));
    } else {
        assert(ty[0] == '-');
        assert(is_digit_char(tx[0]));
    }
}

/// The text of an integer holds no separator character.
pub proof fn lemma_i8_text_no_sep(x: int, sep: char)
    requires
        sep == ',' || sep == ')',
    ensures
        !spec_i8_text(x).contains(sep),
{
    let n: nat = if x < 0 { (-x) as nat } else { x as nat };
    lemma_nat_text_shape(n);
    let t = spec_i8_text(x);
    assert forall|k: int| 0 <= k < t.len() implies t[k] != sep by {
        if x < 0 {
            if k > 0 {
                assert(t[k] == spec_nat_text(n)[k - 1]);
            }
        } else {
            assert(t[k] == spec_nat_text(n)[k]);
        }
    }
}

} // verus!
