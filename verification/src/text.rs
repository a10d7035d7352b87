//! Building texts from parts.
use vstd::prelude::*;

verus! {

/// The texts of a sequence of strings.
pub open spec fn texts_of(parts: Seq<String>) -> Seq<Seq<char>> {
    Seq::new(parts.len(), |i: int| parts[i]@)
}

/// The parts in a row, with the separator between each two neighbours.
pub open spec fn joined(parts: Seq<Seq<char>>, sep: Seq<char>) -> Seq<char>
    decreases parts.len(),
{
    if parts.len() == 0 {
        Seq::empty()
    } else if parts.len() == 1 {
        parts[0]
    } else {
        joined(parts.drop_last(), sep) + sep + parts.last()
    }
}

/// `Itertools::join` of `itertools` over the strings of a vector: the
/// strings in a row, with the separator between each two neighbours.
#[verifier::external_body]
pub(crate) fn join_texts(parts: &Vec<String>, sep: &str) -> (r: String)
    ensures
        r@ == joined(texts_of(parts@), sep@),
{
    itertools::Itertools::join(&mut parts.iter(), sep)
}

/// The digit that stands for a number below ten.
pub open spec fn digit(d: nat) -> char {
    if d == 0 {
        '0'
    } else if d == 1 {
        '1'
    } else if d == 2 {
        '2'
    } else if d == 3 {
        '3'
    } else if d == 4 {
        '4'
    } else if d == 5 {
        '5'
    } else if d == 6 {
        '6'
    } else if d == 7 {
        '7'
    } else if d == 8 {
        '8'
    } else {
        '9'
    }
}

/// The decimal digits of a number, the most significant first.
pub open spec fn decimal(n: nat) -> Seq<char>
    decreases n,
{
    if n < 10 {
        seq![digit(n)]
    } else {
        decimal(n / 10).push(digit(n % 10))
    }
}

/// The digits of a list of numbers below ten, the last first.
pub open spec fn digits_back(ds: Seq<u8>) -> Seq<char> {
    Seq::new(ds.len(), |i: int| digit(ds[ds.len() - 1 - i] as nat))
}

/// The text of a digit.
fn digit_text(d: u8) -> (r: &'static str)
    requires
        d < 10,
    ensures
        r@ == seq![digit(d as nat)],
{
    proof {
        reveal_strlit("0");
        reveal_strlit("1");
        reveal_strlit("2");
        reveal_strlit("3");
        reveal_strlit("4");
        reveal_strlit("5");
        reveal_strlit("6");
        reveal_strlit("7");
        reveal_strlit("8");
        reveal_strlit("9");
    }
    let r = if d == 0 {
        "0"
    } else if d == 1 {
        "1"
    } else if d == 2 {
        "2"
    } else if d == 3 {
        "3"
    } else if d == 4 {
        "4"
    } else if d == 5 {
        "5"
    } else if d == 6 {
        "6"
    } else if d == 7 {
        "7"
    } else if d == 8 {
        "8"
    } else {
        "9"
    };
    assert(r@ =~= seq![digit(d as nat)]);
    r
}

/// Writes a number in decimal digits.
pub fn number_text(n: usize) -> (r: String)
    ensures
        r@ == decimal(n as nat),
{
    let mut ds: Vec<u8> = Vec::new();
    let mut m: usize = n;
    if m < 10 {
        ds.push(m as u8);
        m = 0;
        assert(digits_back(ds@) =~= decimal(n as nat));
    } else {
        assert(digits_back(ds@) =~= Seq::<char>::empty());
        assert(decimal(m as nat) + Seq::<char>::empty() =~= decimal(m as nat));
    }
    while m > 0
        invariant
            forall|i: int| 0 <= i < ds@.len() ==> #[trigger] ds@[i] < 10,
            m > 0 ==> decimal(n as nat) == decimal(m as nat) + digits_back(ds@),
            m == 0 ==> decimal(n as nat) == digits_back(ds@),
        decreases m,
    {
        let d: u8 = (m % 10) as u8;
        let rest: usize = m / 10;
        let ghost before = ds@;
        ds.push(d);
        proof {
            let after = ds@;
            assert(digits_back(after) =~= seq![digit(d as nat)] + digits_back(before)) by {
                assert forall|i: int| 0 <= i < after.len() implies digits_back(after)[i] == (seq![digit(d as nat)] + digits_back(before))[i] by {
                    if i > 0 {
                        assert(after[after.len() - 1 - i] == before[before.len() - 1 - (i - 1)]);
                    }
                }
            }
            if rest > 0 {
                assert(decimal(m as nat) == decimal(rest as nat).push(digit(d as nat)));
                assert(decimal(rest as nat).push(digit(d as nat)) + digits_back(before) =~= decimal(rest as nat) + digits_back(after));
            } else {
                assert(decimal(m as nat) == seq![digit(d as nat)]);
            }
        }
        m = rest;
    }
    let mut out = String::from_str("");
    proof {
        reveal_strlit("");
        assert(out@ =~= digits_back(ds@).take(0));
    }
    let mut k: usize = 0;
    while k < ds.len()
        invariant
            k <= ds@.len(),
            forall|i: int| 0 <= i < ds@.len() ==> #[trigger] ds@[i] < 10,
            out@ == digits_back(ds@).take(k as int),
        decreases ds@.len() - k,
    {
        let d = ds[ds.len() - 1 - k];
        let ghost before = out@;
        out.append(digit_text(d));
        proof {
            assert(out@ =~= digits_back(ds@).take(k as int + 1));
        }
        k += 1;
    }
    proof {
        assert(digits_back(ds@).take(ds@.len() as int) =~= digits_back(ds@));
    }
    out
}

} // verus!
