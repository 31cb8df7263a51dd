//! Character-level helpers: conversions between strings and character
//! vectors, and decimal rendering of numbers with and without thousands
//! grouping.

use vstd::prelude::*;
use vstd::string::*;

verus! {

/// The characters of `s`, in order.
pub fn chars_of(s: &str) -> (r: Vec<char>)
    ensures
        r@ == s@,
{
    let n = s.unicode_len();
    let mut r: Vec<char> = Vec::new();
    let mut i: usize = 0;
    while i < n
        invariant
            n == s@.len(),
            0 <= i <= n,
            r@ == s@.take(i as int),
        decreases n - i,
    {
        r.push(s.get_char(i));
        assert(s@.take(i as int + 1) =~= s@.take(i as int).push(s@[i as int]));
        i = i + 1;
    }
    assert(s@.take(n as int) =~= s@);
    r
}

/// Relies on `String: FromIterator<&char>`: the string made of the characters
/// of `v`, in order.
#[verifier::external_body]
pub(crate) fn string_of(v: &Vec<char>) -> (r: String)
    ensures
        r@ == v@,
{
    v.iter().collect()
}

/// Whether two character slices are equal.
pub fn same_chars_slice(a: &[char], b: &[char]) -> (r: bool)
    ensures
        r == (a@ == b@),
{
    if a.len() != b.len() {
        return false;
    }
    let mut i: usize = 0;
    while i < a.len()
        invariant
            a@.len() == b@.len(),
            0 <= i <= a.len(),
            forall|j: int| 0 <= j < i ==> a@[j] == b@[j],
        decreases a.len() - i,
    {
        if a[i] != b[i] {
            return false;
        }
        i = i + 1;
    }
    assert(a@ =~= b@);
    true
}

/// The character of a decimal digit.
pub open spec fn digit_char(d: nat) -> char {
    if d == 0 {
        '0'
    } else if d == 1 {
        '1'
    } else if d == 2 {
        '2'
    } else if d == 3 {
        '3'
    } else if d == 4 {
        '4'
    } else if d == 5 {
        '5'
    } else if d == 6 {
        '6'
    } else if d == 7 {
        '7'
    } else if d == 8 {
        '8'
    } else {
        '9'
    }
}

pub open spec fn is_digit(c: char) -> bool {
    '0' <= c && c <= '9'
}

/// The value of a digit character.
pub open spec fn digit_value(c: char) -> nat {
    (c as nat - '0' as nat) as nat
}

/// `n` written in decimal, without leading zeros.
pub open spec fn decimal(n: nat) -> Seq<char>
    decreases n,
{
    if n < 10 {
        seq![digit_char(n)]
    } else {
        decimal(n / 10).push(digit_char(n % 10))
    }
}

/// The last three decimal digits of `r`, padded with zeros.
pub open spec fn three_digits(r: nat) -> Seq<char> {
    seq![digit_char((r / 100) % 10), digit_char((r / 10) % 10), digit_char(r % 10)]
}

/// `n` in decimal with a comma between each group of three digits, counted
/// from the right (`12345` is `12,345`).
pub open spec fn grouped(n: nat) -> Seq<char>
    decreases n,
{
    if n < 1000 {
        decimal(n)
    } else {
        grouped(n / 1000) + seq![','] + three_digits(n % 1000)
    }
}

/// The number spelled by the digits of `g`, with every comma skipped.
pub open spec fn ungrouped(g: Seq<char>) -> nat
    decreases g.len(),
{
    if g.len() == 0 {
        0
    } else if g.last() == ',' {
        ungrouped(g.drop_last())
    } else {
        ungrouped(g.drop_last()) * 10 + digit_value(g.last())
    }
}

pub proof fn lemma_digit_char(d: nat)
    requires
        d < 10,
    ensures
        is_digit(digit_char(d)),
        digit_value(digit_char(d)) == d,
        digit_char(d) != ',',
{
}

proof fn lemma_decimal_digits(n: nat)
    ensures
        ungrouped(decimal(n)) == n,
        forall|i: int| 0 <= i < decimal(n).len() ==> #[trigger] is_digit(decimal(n)[i]),
        decimal(n).len() >= 1,
    decreases n,
{
    if n < 10 {
        lemma_digit_char(n);
        let s = decimal(n);
        assert(s.drop_last() =~= Seq::<char>::empty());
        assert(s.last() == digit_char(n));
        assert(ungrouped(s) == ungrouped(s.drop_last()) * 10 + digit_value(s.last()));
    } else {
        lemma_decimal_digits(n / 10);
        lemma_digit_char(n % 10);
        let s = decimal(n);
        assert(s.drop_last() =~= decimal(n / 10));
        assert(s.last() == digit_char(n % 10));
        assert(ungrouped(s) == ungrouped(s.drop_last()) * 10 + digit_value(s.last()));
        assert forall|i: int| 0 <= i < s.len() implies #[trigger] is_digit(s[i]) by {
            if i < s.len() - 1 {
                assert(s[i] == decimal(n / 10)[i]);
            }
        }
    }
}

/// Grouped text holds digits and commas only.
pub open spec fn digits_and_commas(g: Seq<char>) -> bool {
    forall|i: int| 0 <= i < g.len() ==> is_digit(#[trigger] g[i]) || g[i] == ','
}

proof fn lemma_grouped_shape(n: nat)
    ensures
        ungrouped(grouped(n)) == n,
        digits_and_commas(grouped(n)),
        grouped(n).len() >= 1,
    decreases n,
{
    if n < 1000 {
        lemma_decimal_digits(n);
    } else {
        lemma_grouped_shape(n / 1000);
        let a = grouped(n / 1000);
        let r = n % 1000;
        let d1 = (r / 100) % 10;
        let d2 = (r / 10) % 10;
        let d3 = r % 10;
        lemma_digit_char(d1);
        lemma_digit_char(d2);
        lemma_digit_char(d3);
        let s = grouped(n);
        assert(s =~= a + seq![',', digit_char(d1), digit_char(d2), digit_char(d3)]);
        assert(s.drop_last() =~= a + seq![',', digit_char(d1), digit_char(d2)]);
        assert(s.drop_last().drop_last() =~= a + seq![',', digit_char(d1)]);
        assert(s.drop_last().drop_last().drop_last() =~= a + seq![',']);
        assert((a + seq![',']).drop_last() =~= a);
        let u = ungrouped(a);
        let s1 = s.drop_last();
        let s2 = s1.drop_last();
        let s3 = s2.drop_last();
        assert(ungrouped(s3) == u);
        assert(s2.last() == digit_char(d1));
        assert(ungrouped(s2) == u * 10 + d1);
        assert(s1.last() == digit_char(d2));
        assert(ungrouped(s1) == (u * 10 + d1) * 10 + d2);
        assert(s.last() == digit_char(d3));
        assert(ungrouped(s) == ((u * 10 + d1) * 10 + d2) * 10 + d3);
        assert forall|i: int| 0 <= i < s.len() implies is_digit(#[trigger] s[i]) || s[i] == ',' by {
            if i < a.len() {
                assert(s[i] == a[i]);
            }
        }
        assert(((u * 10 + d1) * 10 + d2) * 10 + d3 == u * 1000 + r) by (nonlinear_arith)
            requires
                r < 1000,
                d1 == (r / 100) % 10,
                d2 == (r / 10) % 10,
                d3 == r % 10,
        ;
        assert(n == (n / 1000) * 1000 + r);
    }
}

/// Removing the grouping commas from the grouped form of any number gives the
/// number back; below one thousand the grouped form has no comma at all.
pub proof fn lemma_ungroup_grouped(n: nat)
    ensures
        ungrouped(grouped(n)) == n,
        n < 1000 ==> !grouped(n).contains(','),
        digits_and_commas(grouped(n)),
{
    lemma_grouped_shape(n);
    if n < 1000 {
        lemma_decimal_digits(n);
        if grouped(n).contains(',') {
            let i = choose|i: int| 0 <= i < grouped(n).len() && grouped(n)[i] == ',';
            assert(is_digit(decimal(n)[i]));
        }
    }
}

/// A leading group of digits: one to three of them, the first not zero.
pub open spec fn leading_group(g: Seq<char>) -> bool {
    &&& 1 <= g.len() <= 3
    &&& forall|i: int| 0 <= i < g.len() ==> is_digit(#[trigger] g[i])
    &&& g[0] != '0'
}

/// Groups of digits separated by commas: a leading group, then groups of
/// exactly three digits, each after a comma.
pub open spec fn comma_groups(g: Seq<char>) -> bool
    decreases g.len(),
{
    if g.len() <= 3 {
        leading_group(g)
    } else {
        &&& g.len() >= 5
        &&& g[g.len() - 4] == ','
        &&& is_digit(g[g.len() - 3]) && is_digit(g[g.len() - 2]) && is_digit(g[g.len() - 1])
        &&& comma_groups(g.take(g.len() - 4))
    }
}

/// The written form of a number with its thousands grouped: `0`, or groups
/// of digits with no leading zero and a comma before every three digits
/// counted from the right.
pub open spec fn well_grouped(g: Seq<char>) -> bool {
    g == seq!['0'] || comma_groups(g)
}

proof fn lemma_digit_round(c: char)
    requires
        is_digit(c),
    ensures
        digit_char(digit_value(c)) == c,
        digit_value(c) < 10,
{
}

proof fn lemma_decimal_small(n: nat)
    requires
        1 <= n < 1000,
    ensures
        leading_group(decimal(n)),
        n < 10 ==> decimal(n).len() == 1,
        10 <= n < 100 ==> decimal(n).len() == 2,
        n >= 100 ==> decimal(n).len() == 3,
    decreases n,
{
    lemma_decimal_digits(n);
    if n >= 10 {
        lemma_decimal_small(n / 10);
        assert(decimal(n) == decimal(n / 10).push(digit_char(n % 10)));
        assert(decimal(n)[0] == decimal(n / 10)[0]);
    } else {
        lemma_digit_char(n);
        assert(decimal(n) == seq![digit_char(n)]);
        assert(digit_value('0') == 0);
    }
}

/// The grouped form of every number is well grouped, with a comma exactly
/// from one thousand up: each group but the first holds three digits, and the
/// first one to three digits, not starting with zero unless the number is
/// zero.
pub proof fn lemma_grouped_well_formed(n: nat)
    ensures
        well_grouped(grouped(n)),
        n >= 1 ==> comma_groups(grouped(n)),
        n >= 1000 ==> grouped(n).len() >= 5 && grouped(n)[grouped(n).len() - 4] == ',',
        n < 1000 ==> !grouped(n).contains(','),
    decreases n,
{
    lemma_ungroup_grouped(n);
    if n == 0 {
        assert(grouped(0) =~= seq!['0']);
    } else if n < 1000 {
        lemma_decimal_small(n);
    } else {
        lemma_grouped_well_formed(n / 1000);
        let a = grouped(n / 1000);
        let r = n % 1000;
        lemma_digit_char((r / 100) % 10);
        lemma_digit_char((r / 10) % 10);
        lemma_digit_char(r % 10);
        let g = grouped(n);
        assert(g.take(g.len() - 4) =~= a);
    }
}

/// A well-grouped text is the grouped form of its own value.
pub proof fn lemma_well_grouped_canonical(g: Seq<char>)
    requires
        well_grouped(g),
    ensures
        g == grouped(ungrouped(g)),
{
    if g == seq!['0'] {
        assert(g.drop_last() =~= Seq::<char>::empty());
        assert(g.last() == '0');
        assert(ungrouped(Seq::<char>::empty()) == 0);
        assert(ungrouped(g) == 0);
        assert(grouped(0) =~= g);
    } else {
        lemma_comma_groups_canonical(g);
    }
}

proof fn lemma_comma_groups_canonical(g: Seq<char>)
    requires
        comma_groups(g),
    ensures
        g == grouped(ungrouped(g)),
        ungrouped(g) >= 1,
        g.len() > 3 ==> ungrouped(g) >= 1000,
    decreases g.len(),
{
    if g.len() <= 3 {
        let c0 = g[0];
        lemma_digit_round(c0);
        let v0 = digit_value(c0);
        let e = Seq::<char>::empty();
        assert(g.take(0) =~= e);
        assert(g.take(1).drop_last() =~= g.take(0));
        assert(g.take(1).last() == c0);
        assert(ungrouped(g.take(0)) == 0);
        assert(ungrouped(g.take(1)) == v0);
        assert(decimal(v0) =~= g.take(1));
        if g.len() == 1 {
            assert(g.take(1) =~= g);
        } else {
            let c1 = g[1];
            lemma_digit_round(c1);
            let v1 = digit_value(c1);
            assert(g.take(2).drop_last() =~= g.take(1));
            assert(ungrouped(g.take(2)) == v0 * 10 + v1);
            let w = v0 * 10 + v1;
            assert(w / 10 == v0 && w % 10 == v1);
            assert(decimal(w) =~= g.take(2));
            if g.len() == 2 {
                assert(g.take(2) =~= g);
            } else {
                let c2 = g[2];
                lemma_digit_round(c2);
                let v2 = digit_value(c2);
                assert(g.drop_last() =~= g.take(2));
                let x = w * 10 + v2;
                assert(ungrouped(g) == x);
                assert(x / 10 == w && x % 10 == v2);
                assert(decimal(x) =~= g);
            }
        }
    } else {
        let h = g.take(g.len() - 4);
        lemma_comma_groups_canonical(h);
        let u = ungrouped(h);
        let c1 = g[g.len() - 3];
        let c2 = g[g.len() - 2];
        let c3 = g[g.len() - 1];
        lemma_digit_round(c1);
        lemma_digit_round(c2);
        lemma_digit_round(c3);
        let d1 = digit_value(c1);
        let d2 = digit_value(c2);
        let d3 = digit_value(c3);
        let s1 = g.drop_last();
        let s2 = s1.drop_last();
        let s3 = s2.drop_last();
        assert(s3.drop_last() =~= h);
        assert(s3.last() == ',');
        assert(ungrouped(s3) == u);
        assert(ungrouped(s2) == u * 10 + d1);
        assert(ungrouped(s1) == (u * 10 + d1) * 10 + d2);
        assert(ungrouped(g) == ((u * 10 + d1) * 10 + d2) * 10 + d3);
        let r = d1 * 100 + d2 * 10 + d3;
        let n = ungrouped(g);
        assert(n == u * 1000 + r && r < 1000 && n / 1000 == u && n % 1000 == r && (r / 100) % 10
            == d1 && (r / 10) % 10 == d2 && r % 10 == d3) by (nonlinear_arith)
            requires
                n == ((u * 10 + d1) * 10 + d2) * 10 + d3,
                d1 < 10,
                d2 < 10,
                d3 < 10,
                r == d1 * 100 + d2 * 10 + d3,
        ;
        assert(grouped(n) == grouped(u) + seq![','] + three_digits(r));
        assert(g =~= h + seq![','] + seq![c1, c2, c3]);
    }
}

/// Appends the decimal digits of `n`.
pub fn push_decimal(n: u64, out: &mut Vec<char>)
    ensures
        final(out)@ == old(out)@ + decimal(n as nat),
    decreases n,
{
    if n >= 10 {
        push_decimal(n / 10, out);
    }
    out.push(digit(n % 10));
    proof {
        if n < 10 {
            assert(old(out)@ + decimal(n as nat) =~= old(out)@.push(digit_char(n as nat)));
        } else {
            assert(decimal(n as nat) =~= decimal((n / 10) as nat).push(digit_char((n % 10) as nat)));
        }
    }
    assert(final(out)@ =~= old(out)@ + decimal(n as nat));
}

/// The character of the digit `d`.
pub fn digit(d: u64) -> (c: char)
    requires
        d < 10,
    ensures
        c == digit_char(d as nat),
{
    if d == 0 {
        '0'
    } else if d == 1 {
        '1'
    } else if d == 2 {
        '2'
    } else if d == 3 {
        '3'
    } else if d == 4 {
        '4'
    } else if d == 5 {
        '5'
    } else if d == 6 {
        '6'
    } else if d == 7 {
        '7'
    } else if d == 8 {
        '8'
    } else {
        '9'
    }
}

/// Appends `n` with its thousands separated by commas.
pub fn push_grouped(n: u64, out: &mut Vec<char>)
    ensures
        final(out)@ == old(out)@ + grouped(n as nat),
    decreases n,
{
    if n < 1000 {
        push_decimal(n, out);
    } else {
        push_grouped(n / 1000, out);
        let r = n % 1000;
        out.push(',');
        out.push(digit((r / 100) % 10));
        out.push(digit((r / 10) % 10));
        out.push(digit(r % 10));
        assert(final(out)@ =~= old(out)@ + grouped(n as nat));
    }
}

/// The value of the digits and commas of `g` with the commas skipped:
/// `None` where `g` holds another character, `Some(None)` where the value
/// exceeds `u32`.
pub fn ungroup(g: &[char]) -> (r: Option<Option<u32>>)
    ensures
        r is None <==> !digits_and_commas(g@),
        r matches Some(Some(v)) ==> v as nat == ungrouped(g@),
        r matches Some(None) ==> ungrouped(g@) > u32::MAX,
        digits_and_commas(g@) && ungrouped(g@) <= u32::MAX ==> r is Some && r.unwrap() is Some,
{
    let mut v: u64 = 0;
    let mut overflow = false;
    let mut i: usize = 0;
    while i < g.len()
        invariant
            0 <= i <= g.len(),
            digits_and_commas(g@.take(i as int)),
            !overflow ==> v as nat == ungrouped(g@.take(i as int)) && v <= u32::MAX,
            overflow ==> ungrouped(g@.take(i as int)) > u32::MAX,
        decreases g.len() - i,
    {
        let c = g[i];
        assert(g@.take(i as int + 1).drop_last() =~= g@.take(i as int));
        if c == ',' {
        } else if '0' <= c && c <= '9' {
            if !overflow {
                let d = (c as u32 - '0' as u32) as u64;
                v = v * 10 + d;
                if v > 0xffff_ffff {
                    overflow = true;
                }
            }
        } else {
            proof {
                assert(!digits_and_commas(g@)) by {
                    assert(g@[i as int] == c);
                }
            }
            return None;
        }
        i = i + 1;
    }
    assert(g@.take(i as int) =~= g@);
    if overflow {
        Some(None)
    } else {
        Some(Some(v as u32))
    }
}

/// Whether `g` is well grouped.
pub fn is_well_grouped(g: &[char]) -> (r: bool)
    ensures
        r == well_grouped(g@),
{
    if g.len() == 1 && g[0] == '0' {
        assert(g@ =~= seq!['0']);
        return true;
    }
    proof {
        if g@ == seq!['0'] {
            assert(g@[0] == '0');
        }
    }
    let mut len: usize = g.len();
    assert(g@.take(len as int) =~= g@);
    while len > 3
        invariant
            len <= g.len(),
            g@ != seq!['0'],
            comma_groups(g@) == comma_groups(g@.take(len as int)),
        decreases len,
    {
        let ghost t = g@.take(len as int);
        if len < 5 || g[len - 4] != ',' || !('0' <= g[len - 3] && g[len - 3] <= '9') || !('0'
            <= g[len - 2] && g[len - 2] <= '9') || !('0' <= g[len - 1] && g[len - 1] <= '9') {
            return false;
        }
        assert(t.take(t.len() - 4) =~= g@.take(len as int - 4));
        len = len - 4;
    }
    let ghost t = g@.take(len as int);
    assert(t.len() == len);
    if len == 0 || g[0] == '0' {
        return false;
    }
    let mut i: usize = 0;
    while i < len
        invariant
            len <= g.len(),
            i <= len,
            len <= 3,
            t == g@.take(len as int),
            t.len() == len,
            g@ != seq!['0'],
            comma_groups(g@) == comma_groups(t),
            forall|j: int| 0 <= j < i ==> is_digit(#[trigger] g@[j]),
        decreases len - i,
    {
        if !('0' <= g[i] && g[i] <= '9') {
            assert(t[i as int] == g@[i as int]);
            return false;
        }
        i = i + 1;
    }
    assert forall|j: int| 0 <= j < t.len() implies is_digit(#[trigger] t[j]) by {
        assert(t[j] == g@[j]);
    }
    true
}

} // verus!
