//! The generated-name family `v0`, `v1`, `v2`, ... used both for fresh
//! term variables during alpha-renaming and for fresh type variables during
//! inference, together with proofs that distinct indices give distinct names.

use vstd::prelude::*;
use vstd::string::StringExecFns;

verus! {

/// The character for one decimal digit `d < 10`.
pub open spec fn digit_char(d: nat) -> char {
    if d == 0 {
        '0'
    } else if d == 1 {
        '1'
    } else if d == 2 {
        '2'
    } else if d == 3 {
        '3'
    } else if d == 4 {
        '4'
    } else if d == 5 {
        '5'
    } else if d == 6 {
        '6'
    } else if d == 7 {
        '7'
    } else if d == 8 {
        '8'
    } else {
        '9'
    }
}

/// Decimal rendering of a natural number, most significant digit first,
/// with no leading zeros (except for the number zero itself).
pub open spec fn dec_str(n: nat) -> Seq<char>
    decreases n,
{
    if n < 10 {
        seq![digit_char(n)]
    } else {
        dec_str(n / 10).push(digit_char(n % 10))
    }
}

/// The `i`th name of the generated-name family: `v` followed by `i` in decimal.
pub open spec fn cand(i: nat) -> Seq<char> {
    seq!['v'] + dec_str(i)
}

/// Whether a name belongs to the generated-name family.
pub open spec fn is_generated_name(x: Seq<char>) -> bool {
    exists|i: nat| x == cand(i)
}

pub proof fn lemma_dec_str_len(n: nat)
    ensures
        dec_str(n).len() >= 1,
        (dec_str(n).len() == 1) == (n < 10),
    decreases n,
{
    if n >= 10 {
        lemma_dec_str_len(n / 10);
    }
}

pub proof fn lemma_dec_str_injective(m: nat, n: nat)
    requires
        dec_str(m) == dec_str(n),
    ensures
        m == n,
    decreases m,
{
    lemma_dec_str_len(m);
    lemma_dec_str_len(n);
    if m < 10 && n < 10 {
        assert(dec_str(m) == seq![digit_char(m)]);
        assert(dec_str(n) == seq![digit_char(n)]);
        assert(seq![digit_char(m)][0] == digit_char(m));
        assert(seq![digit_char(n)][0] == digit_char(n));
        assert(digit_char(m) == digit_char(n));
        assert(m == n);
    } else if m >= 10 && n >= 10 {
        let dm = dec_str(m / 10);
        let dn = dec_str(n / 10);
        assert(dec_str(m) == dm.push(digit_char(m % 10)));
        assert(dec_str(n) == dn.push(digit_char(n % 10)));
        assert(dm.push(digit_char(m % 10)).last() == digit_char(m % 10));
        assert(dn.push(digit_char(n % 10)).last() == digit_char(n % 10));
        assert(digit_char(m % 10) == digit_char(n % 10));
        assert(m % 10 == n % 10);
        assert(dm.push(digit_char(m % 10)).drop_last() =~= dm);
        assert(dn.push(digit_char(n % 10)).drop_last() =~= dn);
        assert(dm == dn);
        lemma_dec_str_injective(m / 10, n / 10);
        vstd::arithmetic::div_mod::lemma_fundamental_div_mod(m as int, 10);
        vstd::arithmetic::div_mod::lemma_fundamental_div_mod(n as int, 10);
        assert(m == n);
    } else {
        assert(dec_str(m).len() == dec_str(n).len());
        assert(false);
    }
}

pub proof fn lemma_cand_injective(i: nat, j: nat)
    requires
        cand(i) == cand(j),
    ensures
        i == j,
{
    assert(dec_str(i) =~= cand(i).skip(1));
    assert(dec_str(j) =~= cand(j).skip(1));
    lemma_dec_str_injective(i, j);
}

/// The set of the first `k` generated names, `{ v0, ..., v<k-1> }`.
pub open spec fn cand_set(k: nat) -> Set<Seq<char>>
    decreases k,
{
    if k == 0 {
        Set::empty()
    } else {
        cand_set((k - 1) as nat).insert(cand((k - 1) as nat))
    }
}

pub proof fn lemma_cand_set_card(k: nat)
    ensures
        cand_set(k).finite(),
        cand_set(k).len() == k,
        forall|i: nat| i < k ==> cand_set(k).contains(#[trigger] cand(i)),
        forall|x: Seq<char>|
            cand_set(k).contains(x) ==> exists|i: nat| i < k && x == cand(i),
    decreases k,
{
    broadcast use vstd::set::group_set_axioms;

    if k > 0 {
        let k1 = (k - 1) as nat;
        lemma_cand_set_card(k1);
        if cand_set(k1).contains(cand(k1)) {
            let i = choose|i: nat| i < k1 && cand(k1) == cand(i);
            lemma_cand_injective(i, k1);
            assert(false);
        }
    }
}

fn digit_str(d: usize) -> (r: &'static str)
    requires
        d < 10,
    ensures
        r@ == seq![digit_char(d as nat)],
{
    if d == 0 {
        proof {
            reveal_strlit("0");
            assert("0"@ =~= seq![digit_char(d as nat)]);
        }
        "0"
    } else if d == 1 {
        proof {
            reveal_strlit("1");
            assert("1"@ =~= seq![digit_char(d as nat)]);
        }
        "1"
    } else if d == 2 {
        proof {
            reveal_strlit("2");
            assert("2"@ =~= seq![digit_char(d as nat)]);
        }
        "2"
    } else if d == 3 {
        proof {
            reveal_strlit("3");
            assert("3"@ =~= seq![digit_char(d as nat)]);
        }
        "3"
    } else if d == 4 {
        proof {
            reveal_strlit("4");
            assert("4"@ =~= seq![digit_char(d as nat)]);
        }
        "4"
    } else if d == 5 {
        proof {
            reveal_strlit("5");
            assert("5"@ =~= seq![digit_char(d as nat)]);
        }
        "5"
    } else if d == 6 {
        proof {
            reveal_strlit("6");
            assert("6"@ =~= seq![digit_char(d as nat)]);
        }
        "6"
    } else if d == 7 {
        proof {
            reveal_strlit("7");
            assert("7"@ =~= seq![digit_char(d as nat)]);
        }
        "7"
    } else if d == 8 {
        proof {
            reveal_strlit("8");
            assert("8"@ =~= seq![digit_char(d as nat)]);
        }
        "8"
    } else {
        proof {
            reveal_strlit("9");
            assert("9"@ =~= seq![digit_char(d as nat)]);
        }
        "9"
    }
}

fn dec_append(s: &mut String, n: usize)
    ensures
        final(s)@ == old(s)@ + dec_str(n as nat),
    decreases n,
{
    if n < 10 {
        s.append(digit_str(n));
        proof {
            assert(s@ =~= old(s)@ + dec_str(n as nat));
        }
    } else {
        dec_append(s, n / 10);
        s.append(digit_str(n % 10));
        proof {
            assert(s@ =~= old(s)@ + dec_str(n as nat));
        }
    }
}

/// The `i`th generated name as an executable string, `v<i>`.
pub fn candidate_name(i: usize) -> (r: String)
    ensures
        r@ == cand(i as nat),
{
    let mut s = String::from_str("v");
    proof {
        reveal_strlit("v");
    }
    dec_append(&mut s, i);
    proof {
        assert(s@ =~= cand(i as nat));
    }
    s
}

} // verus!
