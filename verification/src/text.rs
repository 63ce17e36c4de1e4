//! Decimal numerals and substring search over the characters of a string.

use vstd::prelude::*;

verus! {

/// The character of decimal digit `d`.
pub open spec fn digit_char(d: nat) -> char {
    seq!['0', '1', '2', '3', '4', '5', '6', '7', '8', '9'][d as int]
}

/// The decimal numeral of `n`, without leading zeros, as `format!("{}", n)` writes it.
pub open spec fn decimal(n: nat) -> Seq<char>
    decreases n,
{
    if n < 10 {
        seq![digit_char(n)]
    } else {
        decimal(n / 10).push(digit_char(n % 10))
    }
}

/// `c` is an ASCII decimal digit.
pub open spec fn is_digit(c: char) -> bool {
    '0' <= c && c <= '9'
}

/// The value of a run of decimal digits.
pub open spec fn digits_value(s: Seq<char>) -> nat
    decreases s.len(),
{
    if s.len() == 0 {
        0
    } else {
        digits_value(s.drop_last()) * 10 + (s.last() as nat - '0' as nat) as nat
    }
}

/// The one-character string of digit `d`.
fn digit_str(d: u32) -> (r: &'static str)
    requires
        d < 10,
    ensures
        r@ == seq![digit_char(d as nat)],
{
    proof {
        reveal_strlit("0");
        reveal_strlit("1");
        reveal_strlit("2");
        reveal_strlit("3");
        reveal_strlit("4");
        reveal_strlit("5");
        reveal_strlit("6");
        reveal_strlit("7");
        reveal_strlit("8");
        reveal_strlit("9");
    }
    match d {
        0 => "0",
        1 => "1",
        2 => "2",
        3 => "3",
        4 => "4",
        5 => "5",
        6 => "6",
        7 => "7",
        8 => "8",
        _ => "9",
    }
}

/// Appends the decimal numeral of `n` to `s`.
pub fn push_decimal(s: &mut String, n: u32)
    ensures
        final(s)@ == old(s)@ + decimal(n as nat),
    decreases n,
{
    if n < 10 {
        s.append(digit_str(n));
    } else {
        push_decimal(s, n / 10);
        s.append(digit_str(n % 10));
        proof {
            assert(decimal(n as nat) == decimal((n / 10) as nat).push(digit_char((n % 10) as nat)));
        }
    }
}

/// The decimal numeral of `n`.
pub fn decimal_string(n: u32) -> (s: String)
    ensures
        s@ == decimal(n as nat),
{
    let mut s = String::new();
    push_decimal(&mut s, n);
    proof {
        assert(Seq::<char>::empty() + decimal(n as nat) =~= decimal(n as nat));
    }
    s
}

/// `q` occurs in `s` as a run of consecutive characters (the empty string
/// occurs everywhere).
pub open spec fn contains_seq(s: Seq<char>, q: Seq<char>) -> bool {
    exists|i: int| 0 <= i <= s.len() - q.len() && #[trigger] s.subrange(i, i + q.len()) == q
}

/// A run of a run of `s` is a run of `s`.
pub proof fn lemma_contains_seq_trans(s: Seq<char>, m: Seq<char>, q: Seq<char>)
    requires
        contains_seq(s, m),
        contains_seq(m, q),
    ensures
        contains_seq(s, q),
{
    let i = choose|i: int| 0 <= i <= s.len() - m.len() && #[trigger] s.subrange(i, i + m.len()) == m;
    let j = choose|j: int| 0 <= j <= m.len() - q.len() && #[trigger] m.subrange(j, j + q.len()) == q;
    assert(s.subrange(i + j, i + j + q.len()) =~= q) by {
        assert forall|k: int| 0 <= k < q.len() implies s.subrange(i + j, i + j + q.len())[k] == q[k] by {
            assert(m.subrange(j, j + q.len())[k] == m[j + k]);
            assert(s.subrange(i, i + m.len())[j + k] == s[i + j + k]);
        }
    }
}

/// The characters of `s`.
pub fn chars_of(s: &str) -> (v: Vec<char>)
    ensures
        v@ == s@,
{
    let mut v: Vec<char> = Vec::new();
    for c in it: s.chars()
        invariant
            v@ == it.seq().take(it.index()),
    {
        proof {
            assert(it.seq().take(it.index() + 1) =~= it.seq().take(it.index() as int).push(c));
        }
        v.push(c);
    }
    proof {
        assert(v@ =~= s@);
    }
    v
}

/// Whether `q` occurs in `s` at position `i`.
fn occurs_at(s: &Vec<char>, q: &Vec<char>, i: usize) -> (r: bool)
    requires
        i + q@.len() <= s@.len(),
    ensures
        r == (s@.subrange(i as int, i + q@.len()) == q@),
{
    let mut k: usize = 0;
    while k < q.len()
        invariant
            i + q@.len() <= s@.len(),
            k <= q@.len(),
            forall|m: int| 0 <= m < k ==> s@[i + m] == q@[m],
        decreases q@.len() - k,
    {
        assert(i + k < s.len());
        if s[i + k] != q[k] {
            assert(s@.subrange(i as int, i + q@.len())[k as int] != q@[k as int]);
            return false;
        }
        k += 1;
    }
    assert(s@.subrange(i as int, i + q@.len()) =~= q@);
    true
}

/// Whether `q` occurs in `s`, as `str::contains` with a string pattern.
pub fn str_contains(s: &str, q: &str) -> (r: bool)
    ensures
        r == contains_seq(s@, q@),
{
    let sv = chars_of(s);
    let qv = chars_of(q);
    if qv.len() > sv.len() {
        return false;
    }
    let last = sv.len() - qv.len();
    let mut i: usize = 0;
    loop
        invariant
            sv@ == s@,
            qv@ == q@,
            last == sv@.len() - qv@.len(),
            i <= last,
            forall|j: int| 0 <= j < i ==> #[trigger] sv@.subrange(j, j + qv@.len()) != qv@,
        ensures
            forall|j: int| 0 <= j <= last ==> #[trigger] sv@.subrange(j, j + qv@.len()) != qv@,
        decreases last - i,
    {
        if occurs_at(&sv, &qv, i) {
            return true;
        }
        if i == last {
            break;
        }
        i += 1;
    }
    false
}

/// The digit characters are the digits, and they are worth their digit.
proof fn lemma_digit_char(d: nat)
    requires
        d < 10,
    ensures
        is_digit(digit_char(d)),
        digit_char(d) as nat - '0' as nat == d,
{
    let t = seq!['0', '1', '2', '3', '4', '5', '6', '7', '8', '9'];
    assert(t[0] == '0' && t[1] == '1' && t[2] == '2' && t[3] == '3' && t[4] == '4');
    assert(t[5] == '5' && t[6] == '6' && t[7] == '7' && t[8] == '8' && t[9] == '9');
}

/// A numeral is a non-empty run of digits whose value is the number.
pub proof fn lemma_decimal(n: nat)
    ensures
        decimal(n).len() >= 1,
        forall|i: int| 0 <= i < decimal(n).len() ==> is_digit(#[trigger] decimal(n)[i]),
        digits_value(decimal(n)) == n,
    decreases n,
{
    if n < 10 {
        lemma_digit_char(n);
        assert(decimal(n).drop_last() =~= Seq::<char>::empty());
        assert(digits_value(decimal(n).drop_last()) == 0);
        assert(decimal(n).last() == digit_char(n));
    } else {
        lemma_decimal(n / 10);
        lemma_digit_char(n % 10);
        let s = decimal(n);
        assert(s.drop_last() =~= decimal(n / 10));
        assert(s.last() == digit_char(n % 10));
        assert forall|i: int| 0 <= i < s.len() implies is_digit(#[trigger] s[i]) by {
            if i < s.len() - 1 {
                assert(s[i] == decimal(n / 10)[i]);
            }
        }
        assert(n == (n / 10) * 10 + n % 10) by (nonlinear_arith);
    }
}

/// Different numbers have different numerals.
pub proof fn lemma_decimal_injective(m: nat, n: nat)
    requires
        decimal(m) == decimal(n),
    ensures
        m == n,
{
    lemma_decimal(m);
    lemma_decimal(n);
}

/// When a run of digits followed by text starting with a non-digit equals
/// another such, the runs are equal and so are the texts after them.
pub proof fn lemma_split_after_digits(a: Seq<char>, x: Seq<char>, b: Seq<char>, y: Seq<char>)
    requires
        a + x == b + y,
        forall|i: int| 0 <= i < a.len() ==> is_digit(#[trigger] a[i]),
        forall|i: int| 0 <= i < b.len() ==> is_digit(#[trigger] b[i]),
        x.len() >= 1,
        y.len() >= 1,
        !is_digit(x[0]),
        !is_digit(y[0]),
    ensures
        a == b,
        x == y,
{
    if a.len() < b.len() {
        assert((a + x)[a.len() as int] == x[0]);
        assert((b + y)[a.len() as int] == b[a.len() as int]);
    } else if b.len() < a.len() {
        assert((b + y)[b.len() as int] == y[0]);
        assert((a + x)[b.len() as int] == a[b.len() as int]);
    } else {
        assert(a =~= (a + x).subrange(0, a.len() as int));
        assert(b =~= (b + y).subrange(0, b.len() as int));
        assert(x =~= (a + x).subrange(a.len() as int, (a + x).len() as int));
        assert(y =~= (b + y).subrange(b.len() as int, (b + y).len() as int));
    }
}

/// Equal texts after a common prefix are equal.
pub proof fn lemma_cancel_prefix(p: Seq<char>, a: Seq<char>, b: Seq<char>)
    requires
        p + a == p + b,
    ensures
        a == b,
{
    assert(a =~= (p + a).subrange(p.len() as int, (p + a).len() as int));
    assert(b =~= (p + b).subrange(p.len() as int, (p + b).len() as int));
}

} // verus!
