//! Verified text rendering: decimal numbers, comma-separated length
//! listings and plank listings, as used by the diagnostic strings of the
//! library.

use vstd::prelude::*;

verus! {

use vstd::string::StringExecFns;

use crate::plank::Plank;

/// The decimal digit character for a value between 0 and 9.
pub open spec fn digit_char(d: int) -> char {
    if d == 0 {
        '0'
    } else if d == 1 {
        '1'
    } else if d == 2 {
        '2'
    } else if d == 3 {
        '3'
    } else if d == 4 {
        '4'
    } else if d == 5 {
        '5'
    } else if d == 6 {
        '6'
    } else if d == 7 {
        '7'
    } else if d == 8 {
        '8'
    } else {
        '9'
    }
}

/// The decimal digit characters of a non-negative number, most
/// significant first, without leading zeroes (a single `'0'` for zero).
pub open spec fn dec_digits(n: int) -> Seq<char>
    decreases n,
{
    if n < 10 {
        seq![digit_char(n)]
    } else {
        dec_digits(n / 10) + seq![digit_char(n % 10)]
    }
}

/// The plank lengths of a sequence, rendered in decimal and separated by
/// a comma and a space.
pub open spec fn lengths_body(s: Seq<Plank>) -> Seq<char>
    decreases s.len(),
{
    if s.len() == 0 {
        Seq::empty()
    } else if s.len() == 1 {
        dec_digits(s[0].length as int)
    } else {
        lengths_body(s.drop_last()) + (", ")@ + dec_digits(s.last().length as int)
    }
}

/// One plank as its field listing renders it.
pub open spec fn plank_entry(p: Plank) -> Seq<char> {
    ("Plank { length: ")@ + dec_digits(p.length as int) + (" }")@
}

/// The planks of a sequence, each as its field listing, separated by a
/// comma and a space.
pub open spec fn plank_list_body(s: Seq<Plank>) -> Seq<char>
    decreases s.len(),
{
    if s.len() == 0 {
        Seq::empty()
    } else if s.len() == 1 {
        plank_entry(s[0])
    } else {
        plank_list_body(s.drop_last()) + (", ")@ + plank_entry(s.last())
    }
}

/// A bracketed listing of the planks of a sequence.
pub open spec fn plank_listing(s: Seq<Plank>) -> Seq<char> {
    ("[")@ + plank_list_body(s) + ("]")@
}

/// The one-character string for a decimal digit.
fn digit_literal(d: usize) -> (s: &'static str)
    requires
        d < 10,
    ensures
        s@ == seq![digit_char(d as int)],
{
    if d == 0 {
        proof {
            reveal_strlit("0");
        }
        "0"
    } else if d == 1 {
        proof {
            reveal_strlit("1");
        }
        "1"
    } else if d == 2 {
        proof {
            reveal_strlit("2");
        }
        "2"
    } else if d == 3 {
        proof {
            reveal_strlit("3");
        }
        "3"
    } else if d == 4 {
        proof {
            reveal_strlit("4");
        }
        "4"
    } else if d == 5 {
        proof {
            reveal_strlit("5");
        }
        "5"
    } else if d == 6 {
        proof {
            reveal_strlit("6");
        }
        "6"
    } else if d == 7 {
        proof {
            reveal_strlit("7");
        }
        "7"
    } else if d == 8 {
        proof {
            reveal_strlit("8");
        }
        "8"
    } else {
        proof {
            reveal_strlit("9");
        }
        "9"
    }
}

/// Renders a number in decimal.
pub(crate) fn render_usize(n: usize) -> (s: String)
    ensures
        s@ == dec_digits(n as int),
    decreases n,
{
    if n < 10 {
        String::from_str(digit_literal(n))
    } else {
        proof {
            assert(n / 10 < n && n as int / 10 == (n / 10) as int) by (nonlinear_arith)
                requires
                    n >= 10,
            {}
        }
        let mut s = render_usize(n / 10);
        s.append(digit_literal(n % 10));
        s
    }
}

/// Renders the lengths of the given planks, separated by a comma and a
/// space.
pub(crate) fn render_lengths_body(planks: &Vec<Plank>) -> (s: String)
    ensures
        s@ == lengths_body(planks@),
{
    let mut s = String::new();
    let n: usize = planks.len();
    let mut i: usize = 0;
    while i < n
        invariant
            i <= n,
            n == planks@.len(),
            s@ == lengths_body(planks@.take(i as int)),
        decreases n - i,
    {
        if i > 0 {
            s.append(", ");
        }
        let num = render_usize(planks[i].length);
        s.append(num.as_str());
        proof {
            let prefix = planks@.take(i + 1);
            assert(prefix.drop_last() =~= planks@.take(i as int));
            assert(prefix.last() == planks@[i as int]);
            if i == 0 {
                assert(s@ =~= lengths_body(prefix));
            } else {
                assert(s@ =~= lengths_body(prefix));
            }
        }
        i = i + 1;
    }
    proof {
        assert(planks@.take(n as int) =~= planks@);
    }
    s
}

/// Renders the given planks as a bracketed listing of field listings.
pub(crate) fn render_plank_listing(planks: &Vec<Plank>) -> (s: String)
    ensures
        s@ == plank_listing(planks@),
{
    let mut s = String::from_str("[");
    let n: usize = planks.len();
    let mut i: usize = 0;
    while i < n
        invariant
            i <= n,
            n == planks@.len(),
            s@ == ("[")@ + plank_list_body(planks@.take(i as int)),
        decreases n - i,
    {
        if i > 0 {
            s.append(", ");
        }
        s.append("Plank { length: ");
        let num = render_usize(planks[i].length);
        s.append(num.as_str());
        s.append(" }");
        proof {
            let prefix = planks@.take(i + 1);
            assert(prefix.drop_last() =~= planks@.take(i as int));
            assert(prefix.last() == planks@[i as int]);
            assert(s@ =~= ("[")@ + plank_list_body(prefix));
        }
        i = i + 1;
    }
    s.append("]");
    proof {
        assert(planks@.take(n as int) =~= planks@);
        assert(s@ =~= plank_listing(planks@));
    }
    s
}

} // verus!
