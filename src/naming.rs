//! Names of backup versions: an archive is named by the millisecond Unix
//! timestamp at which it was taken, as `<timestamp>.tar.zst`.

use vstd::prelude::*;

verus! {

pub open spec fn digit_char(d: nat) -> char
    recommends
        d < 10,
{
    seq!['0', '1', '2', '3', '4', '5', '6', '7', '8', '9'][d as int]
}

/// The decimal digits of `n`, without leading zeros.
pub open spec fn decimal(n: nat) -> Seq<char>
    decreases n,
{
    if n < 10 {
        seq![digit_char(n)]
    } else {
        decimal(n / 10).push(digit_char(n % 10))
    }
}

pub open spec fn archive_suffix() -> Seq<char> {
    seq!['.', 't', 'a', 'r', '.', 'z', 's', 't']
}

/// The file name of the archive taken at `ts`.
pub open spec fn archive_name_of(ts: nat) -> Seq<char> {
    decimal(ts) + archive_suffix()
}

/// The value of a string of decimal digits, read most significant first.
pub open spec fn digits_value(s: Seq<char>) -> nat
    decreases s.len(),
{
    if s.len() == 0 {
        0
    } else {
        digits_value(s.drop_last()) * 10 + char_value(s.last())
    }
}

pub open spec fn char_value(c: char) -> nat {
    if '0' <= c && c <= '9' {
        (c as u32 - '0' as u32) as nat
    } else {
        0
    }
}

pub open spec fn is_digit(c: char) -> bool {
    '0' <= c && c <= '9'
}

proof fn lemma_digit_char(d: nat)
    requires
        d < 10,
    ensures
        is_digit(digit_char(d)),
        char_value(digit_char(d)) == d,
{
    assert(seq!['0', '1', '2', '3', '4', '5', '6', '7', '8', '9'][d as int] == digit_char(d));
    if d == 0 {} else if d == 1 {} else if d == 2 {} else if d == 3 {} else if d == 4 {}
    else if d == 5 {} else if d == 6 {} else if d == 7 {} else if d == 8 {} else {}
}

proof fn lemma_decimal(n: nat)
    ensures
        decimal(n).len() > 0,
        forall|i: int| 0 <= i < decimal(n).len() ==> is_digit(#[trigger] decimal(n)[i]),
        digits_value(decimal(n)) == n,
    decreases n,
{
    if n < 10 {
        lemma_digit_char(n);
        assert(decimal(n).drop_last() =~= Seq::<char>::empty());
        assert(decimal(n).last() == digit_char(n));
        assert(digits_value(decimal(n).drop_last()) == 0);
        assert(digits_value(decimal(n)) == digits_value(decimal(n).drop_last()) * 10 + char_value(decimal(n).last()));
    } else {
        lemma_decimal(n / 10);
        lemma_digit_char(n % 10);
        assert(decimal(n).drop_last() =~= decimal(n / 10));
        let s = decimal(n);
        assert forall|i: int| 0 <= i < s.len() implies is_digit(#[trigger] s[i]) by {
            if i < s.len() - 1 {
                assert(s[i] == decimal(n / 10)[i]);
            }
        }
        assert(decimal(n).last() == digit_char(n % 10));
        assert(digits_value(decimal(n)) == digits_value(decimal(n / 10)) * 10 + n % 10);
        assert(n == (n / 10) * 10 + n % 10);
    }
}

proof fn lemma_digits_value_prefix(s: Seq<char>, k: int)
    requires
        0 <= k <= s.len(),
    ensures
        digits_value(s.subrange(0, k)) <= digits_value(s),
    decreases s.len(),
{
    if k < s.len() {
        assert(s.drop_last().subrange(0, k) =~= s.subrange(0, k));
        lemma_digits_value_prefix(s.drop_last(), k);
    } else {
        assert(s.subrange(0, k) =~= s);
    }
}

/// The one-character string of the digit `d`.
fn digit_str(d: u64) -> (r: &'static str)
    requires
        d < 10,
    ensures
        r@ == seq![digit_char(d as nat)],
{
    proof {
        reveal_strlit("0");
        reveal_strlit("1");
        reveal_strlit("2");
        reveal_strlit("3");
        reveal_strlit("4");
        reveal_strlit("5");
        reveal_strlit("6");
        reveal_strlit("7");
        reveal_strlit("8");
        reveal_strlit("9");
    }
    let r = if d == 0 {
        "0"
    } else if d == 1 {
        "1"
    } else if d == 2 {
        "2"
    } else if d == 3 {
        "3"
    } else if d == 4 {
        "4"
    } else if d == 5 {
        "5"
    } else if d == 6 {
        "6"
    } else if d == 7 {
        "7"
    } else if d == 8 {
        "8"
    } else {
        "9"
    };
    proof {
        assert(r@ =~= seq![digit_char(d as nat)]);
    }
    r
}

/// The decimal digits of `n`.
pub fn u64_decimal(n: u64) -> (r: String)
    ensures
        r@ == decimal(n as nat),
    decreases n,
{
    if n < 10 {
        String::from_str(digit_str(n))
    } else {
        let mut r = u64_decimal(n / 10);
        r.append(digit_str(n % 10));
        proof {
            assert(r@ =~= decimal(n as nat));
        }
        r
    }
}

/// The file name of the archive taken at `ts`.
pub fn archive_name(ts: u64) -> (r: String)
    ensures
        r@ == archive_name_of(ts as nat),
{
    let d = u64_decimal(ts);
    let r = d.concat(".tar.zst");
    proof {
        reveal_strlit(".tar.zst");
        assert(r@ =~= archive_name_of(ts as nat));
    }
    r
}

/// The timestamp that the archive file name `name` stands for, if it names
/// one.
pub fn parse_archive_name(name: &str) -> (r: Option<u64>)
    ensures
        r matches Some(t) ==> name@ == archive_name_of(t as nat),
        r is None ==> forall|t: u64| name@ != archive_name_of(t as nat),
{
    let n = name.unicode_len();
    if n <= 8 {
        proof {
            assert forall|t: u64| name@ != archive_name_of(t as nat) by {
                lemma_decimal(t as nat);
            }
        }
        return None;
    }
    let digits_len: usize = n - 8;
    let mut v: u64 = 0;
    let mut i: usize = 0;
    while i < digits_len
        invariant
            digits_len < n,
            digits_len == n - 8,
            n == name@.len(),
            i <= digits_len,
            v as nat == digits_value(name@.subrange(0, i as int)),
            forall|k: int| 0 <= k < i ==> is_digit(#[trigger] name@[k]),
        decreases digits_len - i,
    {
        let c = name.get_char(i);
        if !('0' <= c && c <= '9') {
            proof {
                assert forall|t: u64| name@ != archive_name_of(t as nat) by {
                    lemma_decimal(t as nat);
                    if name@ == archive_name_of(t as nat) {
                        let ds = decimal(t as nat);
                        assert(archive_suffix().len() == 8);
                        assert(name@.len() == ds.len() + 8);
                        assert(ds.len() == digits_len);
                        assert(name@[i as int] == archive_name_of(t as nat)[i as int]);
                        assert(name@[i as int] == ds[i as int]);
                    }
                }
            }
            return None;
        }
        let d: u64 = (c as u32 - '0' as u32) as u64;
        proof {
            assert(name@.subrange(0, i + 1).drop_last() =~= name@.subrange(0, i as int));
        }
        if v > (u64::MAX - d) / 10 {
            proof {
                assert(digits_value(name@.subrange(0, i + 1)) > u64::MAX) by (nonlinear_arith)
                    requires
                        v > (u64::MAX - d) / 10,
                        digits_value(name@.subrange(0, i + 1)) == v * 10 + d,
                ;
                assert forall|t: u64| name@ != archive_name_of(t as nat) by {
                    lemma_decimal(t as nat);
                    if name@ == archive_name_of(t as nat) {
                        let ds = decimal(t as nat);
                        assert(archive_suffix().len() == 8);
                        assert(name@.len() == ds.len() + 8);
                        assert(ds.len() == digits_len);
                        assert(name@.subrange(0, digits_len as int) =~= ds);
                        assert(ds.subrange(0, i + 1) =~= name@.subrange(0, i + 1));
                        lemma_digits_value_prefix(ds, i + 1);
                    }
                }
            }
            return None;
        }
        v = v * 10 + d;
        i = i + 1;
    }
    let candidate = archive_name(v);
    let given = String::from_str(name);
    if candidate == given {
        Some(v)
    } else {
        proof {
            assert forall|t: u64| name@ != archive_name_of(t as nat) by {
                lemma_decimal(t as nat);
                if name@ == archive_name_of(t as nat) {
                    let ds = decimal(t as nat);
                    assert(archive_suffix().len() == 8);
                    assert(ds.len() == digits_len);
                    assert(name@.subrange(0, digits_len as int) =~= ds);
                    assert(name@.subrange(0, digits_len as int) == name@.subrange(0, i as int));
                }
            }
        }
        None
    }
}


/// Distinct values have distinct decimal forms.
pub proof fn lemma_decimal_injective(a: nat, b: nat)
    requires
        archive_name_of(a) == archive_name_of(b),
    ensures
        a == b,
{
    lemma_decimal(a);
    lemma_decimal(b);
    let x = archive_name_of(a);
    assert(x.subrange(0, x.len() - 8) =~= decimal(a));
    assert(x.subrange(0, x.len() - 8) =~= decimal(b));
}

} // verus!
