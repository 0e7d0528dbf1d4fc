//! Writing numbers and names.
use vstd::prelude::*;
use vstd::string::*;

use crate::bgp::RouterId;
use crate::keyed::Keyed;

verus! {

/// A digit.
pub open spec fn digit(d: nat) -> char {
    if d == 0 {
        '0'
    } else if d == 1 {
        '1'
    } else if d == 2 {
        '2'
    } else if d == 3 {
        '3'
    } else if d == 4 {
        '4'
    } else if d == 5 {
        '5'
    } else if d == 6 {
        '6'
    } else if d == 7 {
        '7'
    } else if d == 8 {
        '8'
    } else {
        '9'
    }
}

/// A number in decimal notation.
pub open spec fn decimal(n: nat) -> Seq<char>
    decreases n,
{
    if n < 10 {
        seq![digit(n)]
    } else {
        decimal(n / 10).push(digit(n % 10))
    }
}

/// A signed number in decimal notation.
pub open spec fn signed_decimal(n: int) -> Seq<char> {
    if n < 0 {
        seq!['-'] + decimal((-n) as nat)
    } else {
        decimal(n as nat)
    }
}

fn digit_str(d: u64) -> (r: &'static str)
    requires
        d < 10,
    ensures
        r@ == seq![digit(d as nat)],
{
    proof {
        reveal_strlit("0");
        reveal_strlit("1");
        reveal_strlit("2");
        reveal_strlit("3");
        reveal_strlit("4");
        reveal_strlit("5");
        reveal_strlit("6");
        reveal_strlit("7");
        reveal_strlit("8");
        reveal_strlit("9");
    }
    let r: &'static str = if d == 0 {
        "0"
    } else if d == 1 {
        "1"
    } else if d == 2 {
        "2"
    } else if d == 3 {
        "3"
    } else if d == 4 {
        "4"
    } else if d == 5 {
        "5"
    } else if d == 6 {
        "6"
    } else if d == 7 {
        "7"
    } else if d == 8 {
        "8"
    } else {
        "9"
    };
    assert(r@ =~= seq![digit(d as nat)]);
    r
}

/// Append a number.
pub fn append_number(s: &mut String, n: u64)
    ensures
        final(s)@ == old(s)@ + decimal(n as nat),
    decreases n,
{
    let ghost before = s@;
    if n >= 10 {
        append_number(s, n / 10);
    }
    let ghost mid = s@;
    s.append(digit_str(n % 10));
    proof {
        if n < 10 {
            assert(n % 10 == n);
            assert(s@ =~= before + decimal(n as nat));
        } else {
            assert(decimal(n as nat) == decimal((n / 10) as nat).push(digit((n % 10) as nat)));
            assert(s@ =~= before + decimal(n as nat));
        }
    }
}

/// Append a signed number.
pub fn append_signed(s: &mut String, n: i64)
    ensures
        final(s)@ == old(s)@ + signed_decimal(n as int),
{
    let ghost before = s@;
    if n < 0 {
        proof {
            reveal_strlit("-");
        }
        s.append("-");
        append_number(s, (-(n as i128)) as u64);
        proof {
            assert("-"@ =~= seq!['-']);
            assert(s@ =~= before + signed_decimal(n as int));
        }
    } else {
        append_number(s, n as u64);
    }
}

/// The names of routers.
pub struct Names {
    pub names: Keyed<String>,
}

impl Names {
    /// The name of a router. A router without a name is written as a question mark.
    pub open spec fn name(&self, r: RouterId) -> Seq<char> {
        if self.names@.contains_key(r) {
            self.names@[r]@
        } else {
            "?"@
        }
    }

    /// Append the name of a router.
    pub fn append_name(&self, s: &mut String, r: RouterId)
        requires
            self.names.wf(),
        ensures
            final(s)@ == old(s)@ + self.name(r),
    {
        match self.names.get(r) {
            Some(name) => {
                s.append(name.as_str());
            },
            None => {
                s.append("?");
            },
        }
    }
}

/// A digit is the character that is that many places behind the zero. A number below ten is its digit, and
/// a larger one ends with the digit that its remainder by ten is. It starts with no zero. A minus sign
/// stands before a negative number, and only there.
pub proof fn law_decimal_notation(n: nat, z: int)
    ensures
        n < 10 ==> digit(n) as int == '0' as int + n,
        n < 10 ==> decimal(n).len() == 1,
        decimal(n).len() > 0,
        decimal(n).last() as int == '0' as int + n % 10,
        n >= 10 ==> decimal(n).drop_last() == decimal(n / 10),
        n > 0 ==> decimal(n)[0] != '0',
        z < 0 <==> signed_decimal(z)[0] == '-',
        z < 0 ==> signed_decimal(z).skip(1) == decimal((-z) as nat),
        z >= 0 ==> signed_decimal(z) == decimal(z as nat),
    decreases n,
{
    if n >= 10 {
        law_decimal_notation(n / 10, 0);
        assert(decimal(n).drop_last() =~= decimal(n / 10));
    }
    if z < 0 {
        assert(signed_decimal(z).skip(1) =~= decimal((-z) as nat));
    } else {
        lemma_first_digit(z as nat);
    }
}

proof fn lemma_first_digit(n: nat)
    ensures
        decimal(n).len() > 0,
        decimal(n)[0] != '-',
    decreases n,
{
    if n >= 10 {
        lemma_first_digit(n / 10);
    }
}

/// A router has the name that it is given, and a question mark stands for one without a name.
pub proof fn law_names_of_routers(names: Names, r: RouterId)
    ensures
        names.names@.contains_key(r) ==> names.name(r) == names.names@[r]@,
        !names.names@.contains_key(r) ==> names.name(r) == seq!['?'],
{
    reveal_strlit("?");
    assert("?"@ =~= seq!['?']);
}

} // verus!
