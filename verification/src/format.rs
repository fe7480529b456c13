//! Rendering of execution counts: decimal digits with a comma between
//! every group of three, counted from the right.

use vstd::prelude::*;

verus! {

pub open spec fn digit_char(d: nat) -> char {
    if d == 0 {
        '0'
    } else if d == 1 {
        '1'
    } else if d == 2 {
        '2'
    } else if d == 3 {
        '3'
    } else if d == 4 {
        '4'
    } else if d == 5 {
        '5'
    } else if d == 6 {
        '6'
    } else if d == 7 {
        '7'
    } else if d == 8 {
        '8'
    } else {
        '9'
    }
}

/// The decimal digits of `n`, most significant first.
pub open spec fn dec_digits(n: nat) -> Seq<char>
    decreases n,
{
    if n < 10 {
        seq![digit_char(n)]
    } else {
        dec_digits(n / 10).push(digit_char(n % 10))
    }
}

/// The digits from position `i` on, with a comma wherever the number of
/// digits still to come is a positive multiple of three — that is, a comma
/// between every group of three digits counted from the right.
pub open spec fn grouped_from(s: Seq<char>, i: int) -> Seq<char>
    decreases s.len() - i,
{
    if i < 0 || i >= s.len() {
        Seq::empty()
    } else {
        (if i > 0 && (s.len() - i) % 3 == 0 {
            seq![',']
        } else {
            Seq::<char>::empty()
        }) + seq![s[i]] + grouped_from(s, i + 1)
    }
}

/// Digits with thousands separators.
pub open spec fn grouped(s: Seq<char>) -> Seq<char> {
    grouped_from(s, 0)
}

fn digit_str(d: usize) -> (r: &'static str)
    requires
        d < 10,
    ensures
        r@ == seq![digit_char(d as nat)],
{
    proof {
        reveal_strlit("0");
        reveal_strlit("1");
        reveal_strlit("2");
        reveal_strlit("3");
        reveal_strlit("4");
        reveal_strlit("5");
        reveal_strlit("6");
        reveal_strlit("7");
        reveal_strlit("8");
        reveal_strlit("9");
    }
    let r = match d {
        0 => "0",
        1 => "1",
        2 => "2",
        3 => "3",
        4 => "4",
        5 => "5",
        6 => "6",
        7 => "7",
        8 => "8",
        _ => "9",
    };
    proof {
        assert(r@ =~= seq![digit_char(d as nat)]);
    }
    r
}

spec fn rev_chars(digs: Seq<usize>) -> Seq<char> {
    digs.reverse().map_values(|d: usize| digit_char(d as nat))
}

/// A number rendered in decimal with a comma between every group of three
/// digits, counted from the right.
pub fn format_number(n: usize) -> (r: String)
    ensures
        r@ == grouped(dec_digits(n as nat)),
{
    let mut digs: Vec<usize> = Vec::new();
    let mut m: usize = n;
    loop
        invariant_except_break
            digs@.len() > 0 ==> m > 0,
        invariant
            forall|j: int| 0 <= j < digs@.len() ==> (#[trigger] digs@[j]) < 10,
            digs@.len() == 0 ==> m == n,
            digs@.len() > 0 ==> dec_digits(n as nat) == (if m == 0 {
                rev_chars(digs@)
            } else {
                dec_digits(m as nat) + rev_chars(digs@)
            }),
        ensures
            m == 0,
            digs@.len() > 0,
            dec_digits(n as nat) == rev_chars(digs@),
        decreases m,
    {
        let ghost digs0 = digs@;
        let ghost m0 = m;
        let d = m % 10;
        digs.push(d);
        m = m / 10;
        proof {
            assert(digs@ =~= digs0.push(d));
            assert(rev_chars(digs0.push(d)) =~= seq![digit_char(d as nat)] + rev_chars(digs0));
            if m0 < 10 {
                assert(dec_digits(m0 as nat) == seq![digit_char(m0 as nat)]);
                assert(d == m0);
            } else {
                assert(dec_digits(m0 as nat) == dec_digits((m0 / 10) as nat).push(
                    digit_char((m0 % 10) as nat),
                ));
                assert(dec_digits((m0 / 10) as nat).push(digit_char((m0 % 10) as nat))
                    =~= dec_digits((m0 / 10) as nat) + seq![digit_char(d as nat)]);
            }
            if digs0.len() > 0 {
                if m == 0 {
                    assert(dec_digits(n as nat) =~= rev_chars(digs@));
                } else {
                    assert(dec_digits(n as nat) =~= dec_digits(m as nat) + rev_chars(digs@));
                }
            } else {
                if m > 0 {
                    assert(dec_digits(n as nat) =~= dec_digits(m as nat) + rev_chars(digs@));
                } else {
                    assert(dec_digits(n as nat) =~= rev_chars(digs@));
                }
            }
        }
        if m == 0 {
            break ;
        }
    }
    let ghost s = dec_digits(n as nat);
    let k = digs.len();
    proof {
        assert(s == rev_chars(digs@));
        assert(s.len() == k);
    }
    let mut r = String::new();
    let mut i: usize = 0;
    proof {
        reveal_strlit(",");
    }
    while i < k
        invariant
            s == dec_digits(n as nat),
            s == rev_chars(digs@),
            s.len() == k,
            k == digs@.len(),
            forall|j: int| 0 <= j < digs@.len() ==> (#[trigger] digs@[j]) < 10,
            i <= k,
            grouped(s) == r@ + grouped_from(s, i as int),
        decreases k - i,
    {
        if i > 0 && (k - i) % 3 == 0 {
            r.append(",");
            proof {
                reveal_strlit(",");
            }
        }
        let d = digs[k - 1 - i];
        let piece = digit_str(d);
        r.append(piece);
        proof {
            assert(s[i as int] == digs@.reverse().map_values(|d2: usize| digit_char(d2 as nat))[
                i as int
            ]);
            assert(digs@.reverse()[i as int] == digs@[k - 1 - i as int]);
            assert(s[i as int] == digit_char(d as nat));
            assert(grouped_from(s, i as int) =~= (if i > 0 && (s.len() - i) % 3 == 0 {
                seq![',']
            } else {
                Seq::<char>::empty()
            }) + seq![s[i as int]] + grouped_from(s, i as int + 1));
            assert(grouped(s) =~= r@ + grouped_from(s, i as int + 1));
        }
        i += 1;
    }
    proof {
        assert(grouped_from(s, k as int) =~= Seq::<char>::empty());
        assert(r@ =~= grouped(s));
    }
    r
}

} // verus!
