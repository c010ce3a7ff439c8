//! Decimal numerals: the mathematical value of a digit string, the
//! canonical digit string of a number, and verified executable
//! conversions between the two.

use vstd::prelude::*;

verus! {

/// An ASCII decimal digit.
pub open spec fn is_digit(c: char) -> bool {
    '0' as u32 <= c as u32 && c as u32 <= '9' as u32
}

/// The numeric value of one digit.
pub open spec fn digit_val(c: char) -> nat {
    (c as u32 - '0' as u32) as nat
}

/// The digit character for a value below ten.
pub open spec fn digit_char(d: int) -> char {
    if d == 0 {
        '0'
    } else if d == 1 {
        '1'
    } else if d == 2 {
        '2'
    } else if d == 3 {
        '3'
    } else if d == 4 {
        '4'
    } else if d == 5 {
        '5'
    } else if d == 6 {
        '6'
    } else if d == 7 {
        '7'
    } else if d == 8 {
        '8'
    } else {
        '9'
    }
}

/// Every character of `s` is a decimal digit.
pub open spec fn all_digits(s: Seq<char>) -> bool {
    forall|i: int| 0 <= i < s.len() ==> is_digit(s[i])
}

/// A non-empty string of decimal digits.
pub open spec fn is_dec(s: Seq<char>) -> bool {
    s.len() > 0 && all_digits(s)
}

/// The number a digit string denotes, most significant digit first.
pub open spec fn dec_val(s: Seq<char>) -> nat
    decreases s.len(),
{
    if s.len() == 0 {
        0
    } else {
        dec_val(s.drop_last()) * 10 + digit_val(s.last())
    }
}

/// The canonical digit string of `n`: no leading zero except for `0`
/// itself.
pub open spec fn dec_str(n: nat) -> Seq<char>
    decreases n,
{
    if n < 10 {
        seq![digit_char(n as int)]
    } else {
        dec_str(n / 10).push(digit_char((n % 10) as int))
    }
}

/// The canonical digit string consists of digits, is non-empty, and
/// denotes the number it was built from.
pub proof fn lemma_dec_str(n: nat)
    ensures
        is_dec(dec_str(n)),
        dec_val(dec_str(n)) == n,
    decreases n,
{
    if n < 10 {
        let s = dec_str(n);
        let c = digit_char(n as int);
        assert(s.len() == 1);
        assert(s.last() == c);
        assert(s.drop_last() =~= Seq::<char>::empty());
        assert(dec_val(s.drop_last()) == 0);
        assert(dec_val(s) == digit_val(c));
        assert(digit_val(c) == n);
        assert(is_digit(s[0]));
    } else {
        lemma_dec_str(n / 10);
        let p = dec_str(n / 10);
        let c = digit_char((n % 10) as int);
        let s = p.push(c);
        assert(s.drop_last() =~= p);
        assert(s.last() == c);
        assert(dec_val(s) == dec_val(p) * 10 + digit_val(c));
        assert(digit_val(c) == n % 10);
        assert((n / 10) * 10 + n % 10 == n) by (nonlinear_arith);
        assert forall|i: int| 0 <= i < s.len() implies is_digit(s[i]) by {
            if i < p.len() {
                assert(s[i] == p[i]);
            }
        }
    }
}

/// Reading one more digit multiplies the value by ten and adds it.
pub proof fn lemma_dec_val_take_step(s: Seq<char>, k: int)
    requires
        0 <= k < s.len(),
    ensures
        dec_val(s.take(k + 1)) == dec_val(s.take(k)) * 10 + digit_val(s[k]),
{
    assert(s.take(k + 1).drop_last() =~= s.take(k));
    assert(s.take(k + 1).last() == s[k]);
}

/// The value of a prefix never exceeds the value of the whole string.
pub proof fn lemma_dec_val_prefix_le(s: Seq<char>, k: int)
    requires
        0 <= k <= s.len(),
    ensures
        dec_val(s.take(k)) <= dec_val(s),
    decreases s.len() - k,
{
    if k < s.len() {
        lemma_dec_val_take_step(s, k);
        assert(dec_val(s.take(k)) <= dec_val(s.take(k)) * 10) by (nonlinear_arith);
        lemma_dec_val_prefix_le(s, k + 1);
        assert(s.take(s.len() as int) =~= s);
    } else {
        assert(s.take(k) =~= s);
    }
}

/// The value of `v` as a `usize`, when `v` is a digit string whose value
/// fits; `None` otherwise.
pub fn parse_usize(v: &Vec<char>) -> (r: Option<usize>)
    ensures
        match r {
            Some(x) => is_dec(v@) && dec_val(v@) <= usize::MAX && x == dec_val(v@),
            None => !(is_dec(v@) && dec_val(v@) <= usize::MAX),
        },
{
    if v.len() == 0 {
        return None;
    }
    let mut acc: usize = 0;
    let mut i: usize = 0;
    proof {
        assert(v@.take(0) =~= Seq::<char>::empty());
    }
    while i < v.len()
        invariant
            i <= v@.len(),
            v@.len() > 0,
            all_digits(v@.take(i as int)),
            acc == dec_val(v@.take(i as int)),
        decreases v@.len() - i,
    {
        let c = v[i];
        let code = c as u32;
        if code < '0' as u32 || code > '9' as u32 {
            proof {
                assert(!is_digit(v@[i as int]));
            }
            return None;
        }
        let d = (code - '0' as u32) as usize;
        proof {
            lemma_dec_val_take_step(v@, i as int);
        }
        let next = match acc.checked_mul(10) {
            Some(m) => m.checked_add(d),
            None => None,
        };
        match next {
            Some(x) => {
                acc = x;
            },
            None => {
                proof {
                    assert(all_digits(v@.take(i + 1))) by {
                        assert forall|j: int| 0 <= j < i + 1 implies is_digit(
                            #[trigger] v@.take(i + 1)[j],
                        ) by {
                            if j < i {
                                assert(v@.take(i + 1)[j] == v@.take(i as int)[j]);
                            }
                        }
                    }
                    if all_digits(v@) {
                        lemma_dec_val_prefix_le(v@, i + 1);
                        assert(dec_val(v@) > usize::MAX);
                    }
                }
                return None;
            },
        }
        proof {
            assert(all_digits(v@.take(i + 1))) by {
                assert forall|j: int| 0 <= j < i + 1 implies is_digit(
                    #[trigger] v@.take(i + 1)[j],
                ) by {
                    if j < i {
                        assert(v@.take(i + 1)[j] == v@.take(i as int)[j]);
                    }
                }
            }
        }
        i = i + 1;
    }
    proof {
        assert(v@.take(v@.len() as int) =~= v@);
    }
    Some(acc)
}

/// The value of `v` as a `u16`, when it is a digit string whose value
/// fits; `None` otherwise.
pub fn parse_u16(v: &Vec<char>) -> (r: Option<u16>)
    ensures
        match r {
            Some(x) => is_dec(v@) && dec_val(v@) <= u16::MAX && x == dec_val(v@),
            None => !(is_dec(v@) && dec_val(v@) <= u16::MAX),
        },
{
    match parse_usize(v) {
        Some(x) => {
            if x <= u16::MAX as usize {
                Some(x as u16)
            } else {
                None
            }
        },
        None => None,
    }
}

/// The value of `v` as a `u8`, when it is a digit string whose value
/// fits; `None` otherwise.
pub fn parse_u8(v: &Vec<char>) -> (r: Option<u8>)
    ensures
        match r {
            Some(x) => is_dec(v@) && dec_val(v@) <= u8::MAX && x == dec_val(v@),
            None => !(is_dec(v@) && dec_val(v@) <= u8::MAX),
        },
{
    match parse_usize(v) {
        Some(x) => {
            if x <= u8::MAX as usize {
                Some(x as u8)
            } else {
                None
            }
        },
        None => None,
    }
}

/// The canonical digit string of `n`, as characters.
pub fn fmt_usize(n: usize) -> (r: Vec<char>)
    ensures
        r@ =~= dec_str(n as nat),
{
    let mut rev: Vec<char> = Vec::new();
    let mut m: usize = n;
    loop
        invariant_except_break
            dec_str(n as nat) =~= dec_str(m as nat) + rev@.reverse(),
        ensures
            dec_str(n as nat) =~= rev@.reverse(),
        decreases m,
    {
        let d = (m % 10) as u32;
        let c = match d {
            0 => '0',
            1 => '1',
            2 => '2',
            3 => '3',
            4 => '4',
            5 => '5',
            6 => '6',
            7 => '7',
            8 => '8',
            _ => '9',
        };
        proof {
            assert(c == digit_char((m % 10) as int));
        }
        let ghost old_rev = rev@;
        let ghost old_m = m as nat;
        rev.push(c);
        proof {
            assert(rev@.reverse() =~= seq![c] + old_rev.reverse()) by {
                assert(rev@.reverse().len() == old_rev.len() + 1);
                assert forall|j: int| 0 <= j < rev@.reverse().len() implies rev@.reverse()[j]
                    == (seq![c] + old_rev.reverse())[j] by {
                    assert(rev@.reverse()[j] == rev@[rev@.len() - 1 - j]);
                }
            }
        }
        if m < 10 {
            proof {
                assert(dec_str(old_m) == seq![digit_char(old_m as int)]);
                assert(dec_str(n as nat) =~= dec_str(old_m) + old_rev.reverse());
                assert(seq![digit_char(old_m as int)] + old_rev.reverse() =~= rev@.reverse());
                assert(dec_str(n as nat) =~= rev@.reverse());
            }
            break;
        }
        proof {
            assert(dec_str(old_m) == dec_str(old_m / 10).push(digit_char((old_m % 10) as int)));
            assert(dec_str(old_m / 10).push(c) + old_rev.reverse() =~= dec_str(old_m / 10) + (
            seq![c] + old_rev.reverse()));
        }
        m = m / 10;
    }
    let mut r: Vec<char> = Vec::new();
    let n_digits = rev.len();
    let mut k: usize = 0;
    while k < n_digits
        invariant
            k <= n_digits,
            n_digits == rev@.len(),
            r@.len() == k,
            forall|j: int| 0 <= j < k ==> r@[j] == rev@[n_digits - 1 - j],
        decreases n_digits - k,
    {
        r.push(rev[n_digits - 1 - k]);
        k = k + 1;
    }
    proof {
        assert(r@ =~= rev@.reverse());
    }
    r
}

/// The canonical digit string of a `u16`.
pub fn fmt_u16(n: u16) -> (r: Vec<char>)
    ensures
        r@ =~= dec_str(n as nat),
{
    fmt_usize(n as usize)
}

/// The canonical digit string of a `u8`.
pub fn fmt_u8(n: u8) -> (r: Vec<char>)
    ensures
        r@ =~= dec_str(n as nat),
{
    fmt_usize(n as usize)
}

} // verus!
