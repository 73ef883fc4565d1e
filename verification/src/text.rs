//! Small verified text utilities: string comparison, ASCII-case-insensitive
//! comparison, and decimal formatting of integers.

use vstd::prelude::*;

verus! {

/// Exact string equality, specified over the character sequences.
pub fn str_eq(a: &str, b: &str) -> (r: bool)
    ensures
        r == (a@ == b@),
{
    let a_len = a.unicode_len();
    let b_len = b.unicode_len();
    if a_len != b_len {
        assert(a@ != b@);
        return false;
    }
    let mut i: usize = 0;
    while i < a_len
        invariant
            i <= a_len,
            a_len == a@.len(),
            b_len == b@.len(),
            a_len == b_len,
            forall|j: int| 0 <= j < i ==> a@[j] == b@[j],
        decreases a_len - i,
    {
        if a.get_char(i) != b.get_char(i) {
            return false;
        }
        i = i + 1;
    }
    assert(a@ =~= b@);
    true
}

/// ASCII lower-casing of one character: the letters `A` through `Z` map to
/// their lower-case forms, every other character is unchanged.
pub open spec fn lower_char(c: char) -> char {
    if 65 <= c as u32 <= 90 {
        ((c as u32 + 32) as u8) as char
    } else {
        c
    }
}

/// Whether two character sequences are equal up to ASCII case.
pub open spec fn eq_ignore_ascii_case(a: Seq<char>, b: Seq<char>) -> bool {
    a.len() == b.len() && forall|j: int| 0 <= j < a.len() ==> lower_char(a[j]) == lower_char(b[j])
}

/// Compares two strings ignoring ASCII case.
pub fn str_eq_ignore_ascii_case(a: &str, b: &str) -> (r: bool)
    ensures
        r == eq_ignore_ascii_case(a@, b@),
{
    let a_len = a.unicode_len();
    let b_len = b.unicode_len();
    if a_len != b_len {
        return false;
    }
    let mut i: usize = 0;
    while i < a_len
        invariant
            i <= a_len,
            a_len == a@.len(),
            b_len == b@.len(),
            a_len == b_len,
            forall|j: int| 0 <= j < i ==> lower_char(a@[j]) == lower_char(b@[j]),
        decreases a_len - i,
    {
        let ca = lower_char_exec(a.get_char(i));
        let cb = lower_char_exec(b.get_char(i));
        if ca != cb {
            return false;
        }
        i = i + 1;
    }
    true
}

/// ASCII lower-casing of one character.
fn lower_char_exec(c: char) -> (r: char)
    ensures
        r == lower_char(c),
{
    let v = c as u32;
    if 65 <= v && v <= 90 {
        ((v + 32) as u8) as char
    } else {
        c
    }
}

/// The decimal digit characters of `n`, most significant first.
pub open spec fn dec_digits(n: nat) -> Seq<char>
    decreases n,
{
    if n < 10 {
        seq![digit_char(n)]
    } else {
        dec_digits(n / 10).push(digit_char(n % 10))
    }
}

/// The character for one decimal digit.
pub open spec fn digit_char(d: nat) -> char
    recommends
        d < 10,
{
    ((48 + d) as u8) as char
}

/// A one-character string slice for one decimal digit.
fn digit_str(d: u64) -> (s: &'static str)
    requires
        d < 10,
    ensures
        s@ =~= seq![digit_char(d as nat)],
{
    proof {
        reveal_strlit("0");
        reveal_strlit("1");
        reveal_strlit("2");
        reveal_strlit("3");
        reveal_strlit("4");
        reveal_strlit("5");
        reveal_strlit("6");
        reveal_strlit("7");
        reveal_strlit("8");
        reveal_strlit("9");
    }
    match d {
        0 => "0",
        1 => "1",
        2 => "2",
        3 => "3",
        4 => "4",
        5 => "5",
        6 => "6",
        7 => "7",
        8 => "8",
        _ => "9",
    }
}

/// Formats `n` in decimal.
pub fn u64_to_decimal(n: u64) -> (s: String)
    ensures
        s@ == dec_digits(n as nat),
{
    let mut rev: Vec<u64> = Vec::new();
    let mut x: u64 = n;
    while x >= 10
        invariant
            x <= n,
            forall|j: int| 0 <= j < rev@.len() ==> rev@[j] < 10,
            dec_digits(n as nat) =~= dec_digits(x as nat) + digits_of_rev(rev@),
        decreases x,
    {
        let ghost rev0 = rev@;
        rev.push(x % 10);
        x = x / 10;
        proof {
            lemma_digits_of_rev_push(rev0, rev@.last());
        }
    }
    let ghost rev0 = rev@;
    rev.push(x);
    proof {
        lemma_digits_of_rev_push(rev0, x);
        assert(dec_digits(n as nat) =~= digits_of_rev(rev@));
    }
    let mut s = String::new();
    let mut j: usize = rev.len();
    proof {
        lemma_digits_of_rev_index(rev@);
        assert(s@ =~= digits_of_rev(rev@).take(rev@.len() - j));
    }
    while j > 0
        invariant
            j <= rev@.len(),
            forall|k: int| 0 <= k < rev@.len() ==> rev@[k] < 10,
            digits_of_rev(rev@).len() == rev@.len(),
            forall|i: int|
                0 <= i < rev@.len() ==> digits_of_rev(rev@)[i] == digit_char(
                    rev@[rev@.len() - 1 - i] as nat,
                ),
            s@ =~= digits_of_rev(rev@).take(rev@.len() - j),
        decreases j,
    {
        j = j - 1;
        let d = rev[j];
        s.append(digit_str(d));
        proof {
            assert(s@ =~= digits_of_rev(rev@).take(rev@.len() - j));
        }
    }
    proof {
        assert(digits_of_rev(rev@).take(rev@.len() - 0) =~= digits_of_rev(rev@));
    }
    s
}

/// Whether a character is a decimal digit.
pub open spec fn is_digit(c: char) -> bool {
    48 <= c as u32 <= 57
}

/// Whether every character of a sequence is a decimal digit.
pub open spec fn all_digits(s: Seq<char>) -> bool {
    forall|i: int| 0 <= i < s.len() ==> is_digit(#[trigger] s[i])
}

/// The number a digit sequence spells in decimal; the empty sequence spells
/// zero.
pub open spec fn dec_value(s: Seq<char>) -> int
    decreases s.len(),
{
    if s.len() == 0 {
        0
    } else {
        dec_value(s.drop_last()) * 10 + (s.last() as u32 - 48)
    }
}

/// A run of `n` zero digits.
pub open spec fn zero_digits(n: int) -> Seq<char> {
    Seq::new(n as nat, |i: int| '0')
}

/// Longer digit prefixes spell values at least as large.
pub proof fn lemma_dec_value_monotone(s: Seq<char>, a: int, b: int)
    requires
        all_digits(s),
        0 <= a <= b <= s.len(),
    ensures
        0 <= dec_value(s.take(a)) <= dec_value(s.take(b)),
    decreases b - a,
{
    if a == b {
        lemma_dec_value_nonneg(s.take(a));
        assert(all_digits(s.take(a))) by {
            assert(forall|x: int| 0 <= x < a ==> #[trigger] s.take(a)[x] == s[x]);
        }
    } else {
        lemma_dec_value_monotone(s, a, b - 1);
        assert(s.take(b).drop_last() =~= s.take(b - 1));
        assert(is_digit(s[b - 1]));
        assert(s.take(b).last() == s[b - 1]);
    }
}

/// A digit sequence spells a non-negative number.
pub proof fn lemma_dec_value_nonneg(s: Seq<char>)
    requires
        all_digits(s),
    ensures
        dec_value(s) >= 0,
    decreases s.len(),
{
    if s.len() > 0 {
        assert(all_digits(s.drop_last())) by {
            assert(forall|x: int| 0 <= x < s.len() - 1 ==> #[trigger] s.drop_last()[x] == s[x]);
        }
        lemma_dec_value_nonneg(s.drop_last());
        assert(is_digit(s.last()));
    }
}

/// Reads a digit sequence as a `u64`: its value when that fits, nothing when
/// it does not.
pub fn dec_digits_to_u64(digits: &Vec<char>) -> (r: Option<u64>)
    requires
        all_digits(digits@),
    ensures
        r == (if dec_value(digits@) <= u64::MAX {
            Some(dec_value(digits@) as u64)
        } else {
            None::<u64>
        }),
{
    let n = digits.len();
    let mut value: u64 = 0;
    let mut j: usize = 0;
    proof {
        assert(digits@.take(0) =~= Seq::<char>::empty());
    }
    while j < n
        invariant
            j <= n,
            n == digits@.len(),
            all_digits(digits@),
            value == dec_value(digits@.take(j as int)),
        decreases n - j,
    {
        let ghost pre = digits@.take(j as int);
        let ghost pre1 = digits@.take(j as int + 1);
        proof {
            assert(pre1.drop_last() =~= pre);
            assert(pre1.last() == digits@[j as int]);
            assert(is_digit(digits@[j as int]));
        }
        let c = digits[j];
        let d = (c as u32) as u64 - 48;
        let scaled = match value.checked_mul(10) {
            Some(s) => s,
            None => {
                proof {
                    lemma_dec_value_monotone(digits@, j as int + 1, n as int);
                    assert(digits@.take(n as int) =~= digits@);
                }
                return None;
            },
        };
        let next = match scaled.checked_add(d) {
            Some(s) => s,
            None => {
                proof {
                    lemma_dec_value_monotone(digits@, j as int + 1, n as int);
                    assert(digits@.take(n as int) =~= digits@);
                }
                return None;
            },
        };
        value = next;
        j = j + 1;
    }
    proof {
        assert(digits@.take(n as int) =~= digits@);
    }
    Some(value)
}

/// The digit characters named by `rev`, read from the last element to the
/// first (the reverse of the order they were produced in).
pub open spec fn digits_of_rev(rev: Seq<u64>) -> Seq<char>
    decreases rev.len(),
{
    if rev.len() == 0 {
        Seq::empty()
    } else {
        digits_of_rev(rev.drop_first()) + seq![digit_char(rev[0] as nat)]
    }
}

proof fn lemma_digits_of_rev_push(rev: Seq<u64>, d: u64)
    ensures
        digits_of_rev(rev.push(d)) =~= seq![digit_char(d as nat)] + digits_of_rev(rev),
    decreases rev.len(),
{
    let p = rev.push(d);
    assert(p.len() == rev.len() + 1);
    assert(p[0] == if rev.len() == 0 {
        d
    } else {
        rev[0]
    });
    if rev.len() == 0 {
        assert(p.drop_first() =~= Seq::<u64>::empty());
        assert(digits_of_rev(p) == digits_of_rev(p.drop_first()) + seq![digit_char(p[0] as nat)]);
        assert(digits_of_rev(Seq::<u64>::empty()) =~= Seq::<char>::empty());
    } else {
        assert(p.drop_first() =~= rev.drop_first().push(d));
        lemma_digits_of_rev_push(rev.drop_first(), d);
        assert(digits_of_rev(p) == digits_of_rev(rev.drop_first().push(d)) + seq![
            digit_char(rev[0] as nat),
        ]);
    }
}

proof fn lemma_digits_of_rev_index(rev: Seq<u64>)
    ensures
        digits_of_rev(rev).len() == rev.len(),
        forall|i: int|
            0 <= i < rev.len() ==> digits_of_rev(rev)[i] == digit_char(
                rev[rev.len() - 1 - i] as nat,
            ),
    decreases rev.len(),
{
    if rev.len() > 0 {
        lemma_digits_of_rev_index(rev.drop_first());
    }
}

} // verus!
