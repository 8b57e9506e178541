use vstd::prelude::*;
use crate::text::push_char;

verus! {

/// How many units make one: a `Decimal` counts billionths.
pub const UNITS_PER_ONE: i64 = 1_000_000_000;

/// A decimal number held exactly, as a count of billionths.
#[derive(Debug, Clone, Copy, PartialEq, Eq, Hash, Structural)]
pub struct Decimal {
    pub units: i64,
}

pub open spec fn is_digit(c: char) -> bool {
    '0' <= c && c <= '9'
}

pub open spec fn digit_value(c: char) -> nat {
    (c as nat - '0' as nat) as nat
}

pub open spec fn all_digits(s: Seq<char>) -> bool {
    forall|i: int| 0 <= i < s.len() ==> is_digit(#[trigger] s[i])
}

/// The value of a string of decimal digits, most significant first.
pub open spec fn digits_value(s: Seq<char>) -> nat
    decreases s.len(),
{
    if s.len() == 0 {
        0
    } else {
        digits_value(s.drop_last()) * 10 + digit_value(s.last())
    }
}

pub open spec fn pow10(n: nat) -> nat
    decreases n,
{
    if n == 0 {
        1
    } else {
        10 * pow10((n - 1) as nat)
    }
}

/// `s` without one leading `+` or `-`.
pub open spec fn unsigned_part(s: Seq<char>) -> Seq<char> {
    if s.len() > 0 && (s[0] == '-' || s[0] == '+') {
        s.drop_first()
    } else {
        s
    }
}

pub open spec fn is_negative(s: Seq<char>) -> bool {
    s.len() > 0 && s[0] == '-'
}

/// How many characters `s` starts with before its first `.`.
pub open spec fn point_pos(s: Seq<char>) -> nat
    decreases s.len(),
{
    if s.len() == 0 || s[0] == '.' {
        0
    } else {
        1 + point_pos(s.drop_first())
    }
}

pub open spec fn in_i64(v: int) -> bool {
    i64::MIN <= v <= i64::MAX
}

/// The first nine digits of a fraction: the ones a count of billionths keeps.
pub open spec fn kept_digits(frac: Seq<char>) -> Seq<char> {
    if frac.len() <= 9 {
        frac
    } else {
        frac.take(9)
    }
}

/// The number of billionths that a decimal literal stands for: an optional
/// sign, digits, and optionally a point and more digits, with at least one
/// digit in all; digits after the ninth behind the point are dropped. `None`
/// for any other text or a value out of range.
pub open spec fn decimal_units(s: Seq<char>) -> Option<int> {
    let b = unsigned_part(s);
    let k = point_pos(b);
    let whole = b.take(k as int);
    let frac = if k < b.len() { b.skip(k + 1int) } else { Seq::<char>::empty() };
    let kept = kept_digits(frac);
    let m = digits_value(whole) * pow10(9) + digits_value(kept) * pow10((9 - kept.len()) as nat);
    let v = if is_negative(s) { -m } else { m as int };
    if all_digits(whole) && all_digits(frac) && whole.len() + frac.len() > 0 && in_i64(v) {
        Some(v)
    } else {
        None
    }
}

/// The value of an integer literal: an optional sign and at least one digit;
/// `None` for any other text or a value outside `i32`.
pub open spec fn int_value(s: Seq<char>) -> Option<int> {
    let b = unsigned_part(s);
    let m = digits_value(b);
    let v = if is_negative(s) { -m } else { m as int };
    if b.len() > 0 && all_digits(b) && i32::MIN <= v <= i32::MAX {
        Some(v)
    } else {
        None
    }
}

/// `true` and `false`.
pub open spec fn bool_value(s: Seq<char>) -> Option<bool> {
    if s == "true"@ {
        Some(true)
    } else if s == "false"@ {
        Some(false)
    } else {
        None
    }
}

pub open spec fn digit_char(d: nat) -> char {
    ('0' as nat + d) as char
}

/// `n` in decimal, without leading zeros.
pub open spec fn nat_text(n: nat) -> Seq<char>
    decreases n,
{
    if n < 10 {
        seq![digit_char(n)]
    } else {
        nat_text(n / 10).push(digit_char(n % 10))
    }
}

/// The last `n` decimal digits of `f`, zero padded.
pub open spec fn fixed_digits(f: nat, n: nat) -> Seq<char>
    decreases n,
{
    if n == 0 {
        seq![]
    } else {
        fixed_digits(f / 10, (n - 1) as nat).push(digit_char(f % 10))
    }
}

/// The last `n` decimal digits of `f`, zero padded, without trailing zeros.
pub open spec fn frac_text(f: nat, n: nat) -> Seq<char>
    decreases n,
{
    if n > 0 && f % 10 == 0 {
        frac_text(f / 10, (n - 1) as nat)
    } else {
        fixed_digits(f, n)
    }
}

pub open spec fn abs(u: int) -> nat {
    if u < 0 {
        (-u) as nat
    } else {
        u as nat
    }
}

/// A number of billionths in decimal: a `-` if negative, the whole part, and
/// the fraction after a point without trailing zeros. A whole number gets no
/// point unless `point` is set, which writes `.0`.
pub open spec fn decimal_text(u: int, point: bool) -> Seq<char> {
    let m = abs(u);
    let sign = if u < 0 { seq!['-'] } else { Seq::<char>::empty() };
    let f = m % pow10(9);
    let tail = if f != 0 {
        seq!['.'] + frac_text(f, 9)
    } else if point {
        seq!['.', '0']
    } else {
        Seq::<char>::empty()
    };
    sign + nat_text(m / pow10(9)) + tail
}

proof fn lemma_digits_prefix(s: Seq<char>, k: int)
    requires
        0 <= k <= s.len(),
    ensures
        digits_value(s.take(k)) <= digits_value(s),
    decreases s.len(),
{
    if k < s.len() {
        assert(s.drop_last().take(k) =~= s.take(k));
        lemma_digits_prefix(s.drop_last(), k);
    } else {
        assert(s.take(k) =~= s);
    }
}

/// Reads the digits `w[from..to]`; `None` when one is not a digit or the value
/// is at least `limit`.
fn read_digits(w: &Vec<char>, from: usize, to: usize, limit: u64) -> (r: Option<u64>)
    requires
        from <= to <= w.len(),
        0 < limit <= 0x1000_0000_0000_0000,
    ensures
        match r {
            Some(v) => all_digits(w@.subrange(from as int, to as int)) && v == digits_value(w@.subrange(from as int, to as int)) && v < limit,
            None => !all_digits(w@.subrange(from as int, to as int)) || digits_value(w@.subrange(from as int, to as int)) >= limit,
        },
{
    let ghost d = w@.subrange(from as int, to as int);
    let mut v: u64 = 0;
    let mut i: usize = from;
    while i < to
        invariant
            from <= i <= to <= w.len(),
            limit <= 0x1000_0000_0000_0000,
            d == w@.subrange(from as int, to as int),
            forall|j: int| from <= j < i ==> is_digit(#[trigger] w@[j]),
            v == digits_value(w@.subrange(from as int, i as int)),
            v < limit,
        decreases to - i,
    {
        let ghost p = w@.subrange(from as int, i as int + 1);
        assert(p.drop_last() =~= w@.subrange(from as int, i as int));
        assert(d[i - from] == w@[i as int]);
        let c = w[i];
        if !('0' <= c && c <= '9') {
            assert(!is_digit(d[i - from]));
            return None;
        }
        v = v * 10 + ((c as u32) - ('0' as u32)) as u64;
        assert(v == digits_value(p));
        if v >= limit {
            proof {
                assert(p == d.take(i - from + 1));
                lemma_digits_prefix(d, i - from + 1);
            }
            return None;
        }
        i = i + 1;
    }
    assert(w@.subrange(from as int, i as int) == d);
    Some(v)
}

/// Whether `w[from..to]` holds digits only.
fn digits_only(w: &Vec<char>, from: usize, to: usize) -> (r: bool)
    requires
        from <= to <= w.len(),
    ensures
        r == all_digits(w@.subrange(from as int, to as int)),
{
    let mut i: usize = from;
    while i < to
        invariant
            from <= i <= to <= w.len(),
            forall|j: int| from <= j < i ==> is_digit(#[trigger] w@[j]),
        decreases to - i,
    {
        if !('0' <= w[i] && w[i] <= '9') {
            assert(w@.subrange(from as int, to as int)[i - from] == w@[i as int]);
            return false;
        }
        i = i + 1;
    }
    assert forall|j: int| 0 <= j < to - from implies is_digit(#[trigger] w@.subrange(from as int, to as int)[j]) by {
        assert(w@.subrange(from as int, to as int)[j] == w@[from + j]);
    }
    true
}

fn sign_len(w: &Vec<char>) -> (r: usize)
    ensures
        w@.subrange(r as int, w@.len() as int) == unsigned_part(w@),
        r <= w.len(),
{
    if w.len() > 0 && (w[0] == '-' || w[0] == '+') {
        assert(w@.subrange(1, w@.len() as int) =~= w@.drop_first());
        1
    } else {
        assert(w@.subrange(0, w@.len() as int) =~= w@);
        0
    }
}

proof fn lemma_point_pos(s: Seq<char>, k: int)
    requires
        0 <= k <= s.len(),
        forall|j: int| 0 <= j < k ==> #[trigger] s[j] != '.',
        k == s.len() || s[k] == '.',
    ensures
        point_pos(s) == k,
    decreases s.len(),
{
    if k > 0 {
        lemma_point_pos(s.drop_first(), k - 1);
    }
}

proof fn lemma_pow10_values()
    ensures
        pow10(0) == 1,
        pow10(1) == 10,
        pow10(2) == 100,
        pow10(3) == 1000,
        pow10(4) == 10000,
        pow10(5) == 100000,
        pow10(6) == 1000000,
        pow10(7) == 10000000,
        pow10(8) == 100000000,
        pow10(9) == 1000000000,
{
    reveal_with_fuel(pow10, 10);
}

fn pow10_exec(n: usize) -> (r: u64)
    requires
        n <= 9,
    ensures
        r == pow10(n as nat),
{
    proof {
        lemma_pow10_values();
    }
    let mut r: u64 = 1;
    let mut i: usize = 0;
    while i < n
        invariant
            i <= n <= 9,
            r == pow10(i as nat),
        decreases n - i,
    {
        proof {
            lemma_pow10_values();
            lemma_pow10_mono(i as nat + 1, 9);
        }
        r = r * 10;
        i = i + 1;
    }
    r
}

proof fn lemma_pow10_mono(a: nat, b: nat)
    requires
        a <= b,
    ensures
        pow10(a) <= pow10(b),
    decreases b,
{
    if a < b {
        lemma_pow10_mono(a, (b - 1) as nat);
    }
}

impl Decimal {
    /// Reads a decimal literal held in a string (see `decimal_units`).
    pub fn read(s: &str) -> (r: Option<Decimal>)
        ensures
            match r {
                Some(d) => decimal_units(s@) == Some(d.units as int),
                None => decimal_units(s@) is None,
            },
    {
        Decimal::parse(&crate::text::chars_of(s))
    }

    /// Reads a decimal literal (see `decimal_units`).
    pub fn parse(w: &Vec<char>) -> (r: Option<Decimal>)
        ensures
            match r {
                Some(d) => decimal_units(w@) == Some(d.units as int),
                None => decimal_units(w@) is None,
            },
    {
        proof {
            lemma_pow10_values();
        }
        let s = sign_len(w);
        let ghost b = unsigned_part(w@);
        let mut k: usize = s;
        while k < w.len() && w[k] != '.'
            invariant
                s <= k <= w.len(),
                forall|j: int| s <= j < k ==> #[trigger] w@[j] != '.',
            decreases w.len() - k,
        {
            k = k + 1;
        }
        proof {
            assert forall|j: int| 0 <= j < k - s implies #[trigger] b[j] != '.' by {
                assert(b[j] == w@[j + s]);
            }
            if k < w.len() {
                assert(b[k - s] == w@[k as int]);
            }
            lemma_point_pos(b, k - s);
            assert(b.take(k - s) =~= w@.subrange(s as int, k as int));
        }
        let frac_from: usize = if k < w.len() { k + 1 } else { w.len() };
        let ghost frac = if k - s < b.len() { b.skip(k - s + 1) } else { Seq::<char>::empty() };
        assert(frac =~= w@.subrange(frac_from as int, w@.len() as int));
        let frac_len = w.len() - frac_from;
        if k - s + frac_len == 0 {
            return None;
        }
        let kept_len: usize = if frac_len > 9 { 9 } else { frac_len };
        let kept_to = frac_from + kept_len;
        let ghost kept = kept_digits(frac);
        assert(kept =~= w@.subrange(frac_from as int, kept_to as int));
        if !digits_only(w, kept_to, w.len()) {
            proof {
                let j = choose|j: int| 0 <= j < w@.subrange(kept_to as int, w@.len() as int).len() && !is_digit(#[trigger] w@.subrange(kept_to as int, w@.len() as int)[j]);
                assert(frac[j + kept_len] == w@[kept_to + j]);
            }
            return None;
        }
        let whole = match read_digits(w, s, k, 10_000_000_000) {
            Some(v) => v,
            None => {
                return None;
            },
        };
        let f = match read_digits(w, frac_from, kept_to, 1_000_000_000) {
            Some(v) => v,
            None => {
                proof {
                    if all_digits(frac) {
                        assert forall|j: int| 0 <= j < kept.len() implies is_digit(#[trigger] kept[j]) by {
                            assert(kept[j] == frac[j]);
                        }
                        lemma_digits_bound(kept);
                        lemma_pow10_mono(kept.len(), 9);
                    }
                }
                return None;
            },
        };
        proof {
            assert forall|j: int| 0 <= j < frac.len() implies is_digit(#[trigger] frac[j]) by {
                if j < kept_len {
                    assert(frac[j] == kept[j]);
                } else {
                    assert(frac[j] == w@.subrange(kept_to as int, w@.len() as int)[j - kept_len]);
                }
            }
        }
        let scale = pow10_exec(9 - kept_len);
        proof {
            lemma_digits_bound(kept);
            lemma_pow10_mono((9 - kept_len) as nat, 9);
            assert(f * scale < pow10(kept_len as nat) * pow10((9 - kept_len) as nat)) by (nonlinear_arith)
                requires
                    f < pow10(kept_len as nat),
                    scale == pow10((9 - kept_len) as nat),
                    scale > 0,
            ;
            lemma_pow10_add(kept_len as nat, (9 - kept_len) as nat);
        }
        let m: u64 = whole * 1_000_000_000 + f * scale;
        let neg = w.len() > 0 && w[0] == '-';
        if neg {
            if m > 0x8000_0000_0000_0000 {
                return None;
            }
            if m == 0x8000_0000_0000_0000 {
                return Some(Decimal { units: i64::MIN });
            }
            Some(Decimal { units: -(m as i64) })
        } else {
            if m > 0x7fff_ffff_ffff_ffff {
                return None;
            }
            Some(Decimal { units: m as i64 })
        }
    }
}

/// Appends `n` in decimal.
fn push_nat(s: &mut String, n: u128)
    ensures
        final(s)@ == old(s)@ + nat_text(n as nat),
    decreases n,
{
    if n >= 10 {
        push_nat(s, n / 10);
    }
    push_char(s, digit(n % 10));
    proof {
        if n >= 10 {
            assert(old(s)@ + nat_text(n as nat) =~= old(s)@ + nat_text((n / 10) as nat) + seq![digit_char((n % 10) as nat)]);
        }
    }
}

fn digit(d: u128) -> (r: char)
    requires
        d < 10,
    ensures
        r == digit_char(d as nat),
{
    (('0' as u8) + (d as u8)) as char
}

/// Appends the last `n` digits of `f`, zero padded.
fn push_fixed(s: &mut String, f: u128, n: usize)
    ensures
        final(s)@ == old(s)@ + fixed_digits(f as nat, n as nat),
    decreases n,
{
    if n > 0 {
        push_fixed(s, f / 10, n - 1);
        push_char(s, digit(f % 10));
        assert(final(s)@ =~= old(s)@ + fixed_digits(f as nat, n as nat));
    } else {
        assert(final(s)@ =~= old(s)@ + fixed_digits(f as nat, n as nat));
    }
}

impl Decimal {
    /// The value in decimal, as `decimal_text` writes it.
    pub fn to_text(&self, point: bool) -> (r: String)
        ensures
            r@ == decimal_text(self.units as int, point),
    {
        units_text(self.units as i128, point)
    }

}

/// A number of billionths in decimal, as `decimal_text` writes it.
pub fn units_text(u: i128, point: bool) -> (r: String)
    requires
        -0x1_0000_0000_0000_0000_0000 < u < 0x1_0000_0000_0000_0000_0000,
    ensures
        r@ == decimal_text(u as int, point),
{
    proof {
        lemma_pow10_values();
    }
    let mut s = String::new();
    let m: u128 = if u < 0 {
        push_char(&mut s, '-');
        (-u) as u128
    } else {
        u as u128
    };
    assert(m == abs(u as int));
    push_nat(&mut s, m / 1_000_000_000);
    let f = m % 1_000_000_000;
    if f != 0 {
        push_char(&mut s, '.');
        let mut g = f;
        let mut n: usize = 9;
        while n > 0 && g % 10 == 0
            invariant
                n <= 9,
                frac_text(g as nat, n as nat) == frac_text(f as nat, 9),
            decreases n,
        {
            g = g / 10;
            n = n - 1;
        }
        assert(frac_text(g as nat, n as nat) == fixed_digits(g as nat, n as nat));
        push_fixed(&mut s, g, n);
    } else if point {
        push_char(&mut s, '.');
        push_char(&mut s, '0');
    }
    assert(s@ =~= decimal_text(u as int, point));
    s
}

/// Reads an integer literal (see `int_value`).
pub fn parse_int(w: &Vec<char>) -> (r: Option<i32>)
    ensures
        match r {
            Some(v) => int_value(w@) == Some(v as int),
            None => int_value(w@) is None,
        },
{
    let s = sign_len(w);
    if s >= w.len() {
        return None;
    }
    let m = match read_digits(w, s, w.len(), 0x1_0000_0000) {
        Some(v) => v,
        None => {
            return None;
        },
    };
    let neg = w.len() > 0 && w[0] == '-';
    if neg {
        if m > 0x8000_0000 {
            return None;
        }
        Some((-(m as i64)) as i32)
    } else {
        if m > 0x7fff_ffff {
            return None;
        }
        Some(m as i32)
    }
}

/// `w` holds exactly the characters of `lit`.
pub fn is_word(w: &Vec<char>, lit: &str) -> (r: bool)
    ensures
        r == (w@ == lit@),
{
    let n = lit.unicode_len();
    if n != w.len() {
        return false;
    }
    let mut i: usize = 0;
    while i < n
        invariant
            n == lit@.len() == w@.len(),
            i <= n,
            forall|j: int| 0 <= j < i ==> w@[j] == lit@[j],
        decreases n - i,
    {
        if w[i] != lit.get_char(i) {
            return false;
        }
        i = i + 1;
    }
    assert(w@ =~= lit@);
    true
}

/// Reads `true` or `false`.
pub fn parse_bool(w: &Vec<char>) -> (r: Option<bool>)
    ensures
        r == bool_value(w@),
{
    if is_word(w, "true") {
        Some(true)
    } else if is_word(w, "false") {
        Some(false)
    } else {
        None
    }
}

proof fn lemma_digits_bound(s: Seq<char>)
    requires
        all_digits(s),
    ensures
        digits_value(s) < pow10(s.len()),
    decreases s.len(),
{
    if s.len() > 0 {
        let t = s.drop_last();
        assert forall|i: int| 0 <= i < t.len() implies is_digit(#[trigger] t[i]) by {
            assert(t[i] == s[i]);
        }
        lemma_digits_bound(t);
        assert(is_digit(s[s.len() - 1]));
    }
}

proof fn lemma_pow10_add(a: nat, b: nat)
    ensures
        pow10(a) * pow10(b) == pow10(a + b),
    decreases a,
{
    if a == 0 {
        assert(pow10(0) == 1);
    } else {
        assert((a + b - 1) as nat == (a - 1) as nat + b);
        assert(pow10(a + b) == 10 * pow10((a + b - 1) as nat));
        lemma_pow10_add((a - 1) as nat, b);
        assert(pow10(a) * pow10(b) == 10 * (pow10((a - 1) as nat) * pow10(b))) by (nonlinear_arith)
            requires
                pow10(a) == 10 * pow10((a - 1) as nat),
        ;
    }
}

proof fn lemma_nat_text(n: nat)
    ensures
        nat_text(n).len() >= 1,
        all_digits(nat_text(n)),
        digits_value(nat_text(n)) == n,
    decreases n,
{
    lemma_digit_char(n % 10);
    if n >= 10 {
        lemma_nat_text(n / 10);
        let t = nat_text(n);
        assert(t.drop_last() =~= nat_text(n / 10));
        assert(t.last() == digit_char(n % 10));
        assert((n / 10) * 10 + n % 10 == n) by (nonlinear_arith);
        assert forall|i: int| 0 <= i < t.len() implies is_digit(#[trigger] t[i]) by {
            if i < t.len() - 1 {
                assert(t[i] == nat_text(n / 10)[i]);
            }
        }
    } else {
        assert(nat_text(n).drop_last() =~= Seq::<char>::empty());
        assert(digits_value(Seq::<char>::empty()) == 0);
        assert(n % 10 == n);
    }
}

proof fn lemma_digit_char(d: nat)
    requires
        d < 10,
    ensures
        digit_value(digit_char(d)) == d,
        is_digit(digit_char(d)),
{
    assert(('0' as nat + d) as char as nat == '0' as nat + d);
}

proof fn lemma_fixed_digits(f: nat, n: nat)
    ensures
        fixed_digits(f, n).len() == n,
        all_digits(fixed_digits(f, n)),
        digits_value(fixed_digits(f, n)) == f % pow10(n),
    decreases n,
{
    if n > 0 {
        lemma_fixed_digits(f / 10, (n - 1) as nat);
        lemma_digit_char(f % 10);
        let t = fixed_digits(f, n);
        assert(t.drop_last() =~= fixed_digits(f / 10, (n - 1) as nat));
        assert forall|i: int| 0 <= i < t.len() implies is_digit(#[trigger] t[i]) by {
            if i < t.len() - 1 {
                assert(t[i] == fixed_digits(f / 10, (n - 1) as nat)[i]);
            }
        }
        let p = pow10((n - 1) as nat);
        assert(p > 0) by {
            lemma_pow10_pos((n - 1) as nat);
        }
        assert(((f / 10) % p) * 10 + f % 10 == f % (10 * p)) by (nonlinear_arith)
            requires
                p > 0,
        {
            vstd::arithmetic::div_mod::lemma_mod_breakdown(f as int, 10, p as int);
        }
    } else {
        assert(f % 1 == 0);
    }
}

proof fn lemma_pow10_pos(n: nat)
    ensures
        pow10(n) > 0,
    decreases n,
{
    if n > 0 {
        lemma_pow10_pos((n - 1) as nat);
    }
}

proof fn lemma_frac_text(f: nat, n: nat)
    requires
        0 < f < pow10(n),
    ensures
        0 < frac_text(f, n).len() <= n,
        all_digits(frac_text(f, n)),
        digits_value(frac_text(f, n)) * pow10((n - frac_text(f, n).len()) as nat) == f,
    decreases n,
{
    if n > 0 && f % 10 == 0 {
        let p = pow10((n - 1) as nat);
        assert(f / 10 < p && f / 10 > 0) by (nonlinear_arith)
            requires
                0 < f < 10 * p,
                f % 10 == 0,
        ;
        lemma_frac_text(f / 10, (n - 1) as nat);
        let t = frac_text(f / 10, (n - 1) as nat);
        let k = (n - 1 - t.len()) as nat;
        assert((n - t.len()) as nat == k + 1);
        assert(pow10(k + 1) == 10 * pow10(k));
        assert(digits_value(t) * (10 * pow10(k)) == (digits_value(t) * pow10(k)) * 10) by (nonlinear_arith);
        assert(f == (f / 10) * 10) by (nonlinear_arith)
            requires
                f % 10 == 0,
        ;
        assert(frac_text(f, n) == t);
        assert(digits_value(t) * pow10(k) == f / 10);
    } else {
        lemma_fixed_digits(f, n);
        assert(pow10(0) == 1);
        assert(frac_text(f, n) == fixed_digits(f, n));
        assert(f % pow10(n) == f) by {
            vstd::arithmetic::div_mod::lemma_small_mod(f, pow10(n));
        }
        assert((n - n) as nat == 0);
    }
}

/// Reading the decimal text of a number gives the number back.
pub proof fn lemma_decimal_round_trip(u: i64, point: bool)
    ensures
        decimal_units(decimal_text(u as int, point)) == Some(u as int),
{
    lemma_pow10_values();
    let m = abs(u as int);
    let q = m / pow10(9);
    let f = m % pow10(9);
    let sign = if u < 0 { seq!['-'] } else { Seq::<char>::empty() };
    let tail = if f != 0 {
        seq!['.'] + frac_text(f, 9)
    } else if point {
        seq!['.', '0']
    } else {
        Seq::<char>::empty()
    };
    let txt = decimal_text(u as int, point);
    assert(txt == sign + nat_text(q) + tail);
    lemma_nat_text(q);
    let whole = nat_text(q);
    let b = unsigned_part(txt);
    assert(b =~= whole + tail) by {
        if u < 0 {
            assert(txt[0] == '-');
            assert(txt.drop_first() =~= whole + tail);
        } else {
            assert(txt =~= whole + tail);
            assert(is_digit(whole[0]));
        }
    }
    assert(is_negative(txt) == (u < 0)) by {
        if u >= 0 {
            assert(txt[0] == whole[0]);
            assert(is_digit(whole[0]));
        }
    }
    assert forall|j: int| 0 <= j < whole.len() implies #[trigger] b[j] != '.' by {
        assert(b[j] == whole[j]);
        assert(is_digit(whole[j]));
    }
    if tail.len() > 0 {
        assert(b[whole.len() as int] == '.');
    }
    lemma_point_pos(b, whole.len() as int);
    assert(b.take(whole.len() as int) =~= whole);
    let frac = if (whole.len() as int) < b.len() { b.skip(whole.len() + 1int) } else { Seq::<char>::empty() };
    if f != 0 {
        lemma_frac_text(f, 9);
        assert(frac =~= frac_text(f, 9));
        let n = frac.len();
        assert(digits_value(frac) * pow10((9 - n) as nat) == f);
    } else if point {
        assert(frac =~= seq!['0']);
        assert(seq!['0'].drop_last() =~= Seq::<char>::empty());
        assert(seq!['0'].last() == '0');
        assert(digits_value(Seq::<char>::empty()) == 0);
        assert(digits_value(frac) == 0);
        let z = digits_value(frac);
        assert(z * pow10(8) == 0) by (nonlinear_arith)
            requires
                z == 0,
        ;
        assert(all_digits(frac));
    } else {
        assert(frac =~= Seq::<char>::empty());
        let z = digits_value(frac);
        assert(z == 0);
        assert(z * pow10(9) == 0) by (nonlinear_arith)
            requires
                z == 0,
        ;
    }
    assert(m == q * pow10(9) + f) by {
        vstd::arithmetic::div_mod::lemma_fundamental_div_mod(m as int, pow10(9) as int);
    }
}

pub open spec fn is_number_char(c: char) -> bool {
    is_digit(c) || c == '-' || c == '.'
}

/// The decimal text of a number is not empty, starts with a digit or `-`, and
/// holds only digits, `-` and `.`.
pub proof fn lemma_decimal_text_chars(u: i64, point: bool)
    ensures
        decimal_text(u as int, point).len() > 0,
        is_digit(decimal_text(u as int, point)[0]) || decimal_text(u as int, point)[0] == '-',
        forall|i: int| 0 <= i < decimal_text(u as int, point).len() ==> is_number_char(#[trigger] decimal_text(u as int, point)[i]),
{
    lemma_pow10_values();
    let m = abs(u as int);
    let q = m / pow10(9);
    let f = m % pow10(9);
    let sign = if u < 0 { seq!['-'] } else { Seq::<char>::empty() };
    let tail = if f != 0 {
        seq!['.'] + frac_text(f, 9)
    } else if point {
        seq!['.', '0']
    } else {
        Seq::<char>::empty()
    };
    let txt = decimal_text(u as int, point);
    assert(txt == sign + nat_text(q) + tail);
    lemma_nat_text(q);
    if f != 0 {
        lemma_frac_text(f, 9);
    }
    assert forall|i: int| 0 <= i < tail.len() implies is_number_char(#[trigger] tail[i]) by {
        if f != 0 && i > 0 {
            assert(tail[i] == frac_text(f, 9)[i - 1]);
        }
    }
    assert forall|i: int| 0 <= i < txt.len() implies is_number_char(#[trigger] txt[i]) by {
        if i < sign.len() {
        } else if i < sign.len() + nat_text(q).len() {
            assert(txt[i] == nat_text(q)[i - sign.len()]);
        } else {
            assert(txt[i] == tail[i - sign.len() - nat_text(q).len()]);
        }
    }
    if u >= 0 {
        assert(txt[0] == nat_text(q)[0]);
    }
}

} // verus!
