//! Text-boundary helpers: blank-name detection, lexicographic order on
//! names, and parsing of decimal text into fixed-point thousandths.

use vstd::prelude::*;
use vstd::string::*;

verus! {

/// Greatest quantity the store accepts: thousandths of a unit held in 32 bits.
pub const MAX_MILLI: u64 = 4294967295;

/// Characters treated as blank space when testing whether a name is empty:
/// the Unicode White_Space set.
pub open spec fn is_space_char(c: char) -> bool {
    let u = c as u32;
    (0x9 <= u && u <= 0xd) || u == 0x20 || u == 0x85 || u == 0xa0 || u == 0x1680 || (0x2000 <= u
        && u <= 0x200a) || u == 0x2028 || u == 0x2029 || u == 0x202f || u == 0x205f || u == 0x3000
}

/// A name is blank when it holds nothing but space characters.
pub open spec fn is_blank(s: Seq<char>) -> bool {
    forall|i: int| 0 <= i < s.len() ==> is_space_char(s[i])
}

/// Decides whether a string is blank (empty or all space characters).
pub fn str_is_blank(s: &str) -> (r: bool)
    ensures
        r == is_blank(s@),
{
    let n: usize = s.unicode_len();
    let mut i: usize = 0;
    while i < n
        invariant
            i <= n,
            n == s@.len(),
            forall|j: int| 0 <= j < i ==> is_space_char(s@[j]),
        decreases n - i,
    {
        let u = s.get_char(i) as u32;
        let space = (0x9 <= u && u <= 0xd) || u == 0x20 || u == 0x85 || u == 0xa0 || u == 0x1680
            || (0x2000 <= u && u <= 0x200a) || u == 0x2028 || u == 0x2029 || u == 0x202f
            || u == 0x205f || u == 0x3000;
        if !space {
            assert(!is_space_char(s@[i as int]));
            return false;
        }
        i += 1;
    }
    true
}

/// Lexicographic order on character sequences, by code point; the order in
/// which list and item names are presented.
pub open spec fn lex_le(a: Seq<char>, b: Seq<char>) -> bool
    decreases a.len(),
{
    if a.len() == 0 {
        true
    } else if b.len() == 0 {
        false
    } else if a[0] == b[0] {
        lex_le(a.skip(1), b.skip(1))
    } else {
        (a[0] as u32) < (b[0] as u32)
    }
}

pub proof fn lemma_lex_le_refl(a: Seq<char>)
    ensures
        lex_le(a, a),
    decreases a.len(),
{
    if a.len() > 0 {
        lemma_lex_le_refl(a.skip(1));
    }
}

/// The order tells sequences apart: mutual `lex_le` is equality.
pub proof fn lemma_lex_le_antisym(a: Seq<char>, b: Seq<char>)
    requires
        lex_le(a, b),
        lex_le(b, a),
    ensures
        a == b,
    decreases a.len(),
{
    if a.len() == 0 {
        assert(b.len() == 0);
        assert(a =~= b);
    } else {
        assert(b.len() > 0);
        assert(a[0] == b[0]);
        lemma_lex_le_antisym(a.skip(1), b.skip(1));
        assert forall|i: int| 0 <= i < a.len() implies a[i] == b[i] by {
            if i > 0 {
                assert(a.skip(1)[i - 1] == a[i]);
                assert(b.skip(1)[i - 1] == b[i]);
            }
        }
        assert(a =~= b);
    }
}

pub proof fn lemma_lex_le_total(a: Seq<char>, b: Seq<char>)
    ensures
        lex_le(a, b) || lex_le(b, a),
    decreases a.len(),
{
    if a.len() > 0 && b.len() > 0 {
        if a[0] == b[0] {
            lemma_lex_le_total(a.skip(1), b.skip(1));
        } else {
            vstd::utf8::char_u32_cast(a[0], a[0] as u32);
            vstd::utf8::char_u32_cast(b[0], b[0] as u32);
            assert((a[0] as u32) != (b[0] as u32));
        }
    }
}

pub proof fn lemma_lex_le_trans(a: Seq<char>, b: Seq<char>, c: Seq<char>)
    requires
        lex_le(a, b),
        lex_le(b, c),
    ensures
        lex_le(a, c),
    decreases a.len(),
{
    if a.len() > 0 && b.len() > 0 && c.len() > 0 && a[0] == b[0] && b[0] == c[0] {
        lemma_lex_le_trans(a.skip(1), b.skip(1), c.skip(1));
    }
}

/// Decides the lexicographic order on two strings.
pub fn str_le(a: &str, b: &str) -> (r: bool)
    ensures
        r == lex_le(a@, b@),
{
    let an: usize = a.unicode_len();
    let bn: usize = b.unicode_len();
    let mut i: usize = 0;
    proof {
        assert(a@.skip(0) =~= a@);
        assert(b@.skip(0) =~= b@);
    }
    loop
        invariant
            an == a@.len(),
            bn == b@.len(),
            i <= an,
            i <= bn,
            lex_le(a@, b@) == lex_le(a@.skip(i as int), b@.skip(i as int)),
        decreases an - i,
    {
        if i == an {
            return true;
        }
        if i == bn {
            return false;
        }
        let ca = a.get_char(i);
        let cb = b.get_char(i);
        if ca == cb {
            proof {
                assert(a@.skip(i as int).skip(1) =~= a@.skip(i + 1));
                assert(b@.skip(i as int).skip(1) =~= b@.skip(i + 1));
            }
            i += 1;
        } else {
            return (ca as u32) < (cb as u32);
        }
    }
}

pub open spec fn is_digit(c: char) -> bool {
    ('0' as u32) <= (c as u32) && (c as u32) <= ('9' as u32)
}

pub open spec fn digit_val(c: char) -> int {
    (c as u32) - ('0' as u32)
}

pub open spec fn all_digits(s: Seq<char>) -> bool {
    forall|i: int| 0 <= i < s.len() ==> is_digit(s[i])
}

/// Value of a run of decimal digits, most significant first.
pub open spec fn digits_val(s: Seq<char>) -> int
    decreases s.len(),
{
    if s.len() == 0 {
        0
    } else {
        digits_val(s.drop_last()) * 10 + digit_val(s.last())
    }
}

pub proof fn lemma_digits_val_nonneg(s: Seq<char>)
    requires
        all_digits(s),
    ensures
        digits_val(s) >= 0,
    decreases s.len(),
{
    if s.len() > 0 {
        assert(all_digits(s.drop_last()));
        lemma_digits_val_nonneg(s.drop_last());
    }
}

/// A longer run of digits never has a smaller value.
pub proof fn lemma_digits_val_prefix_le(s: Seq<char>, i: int)
    requires
        all_digits(s),
        0 <= i <= s.len(),
    ensures
        digits_val(s.take(i)) <= digits_val(s),
    decreases s.len() - i,
{
    if i < s.len() {
        assert(s.take(i + 1).drop_last() =~= s.take(i));
        assert(s.take(i + 1).last() == s[i]);
        assert(all_digits(s.take(i)));
        lemma_digits_val_nonneg(s.take(i));
        lemma_digits_val_prefix_le(s, i + 1);
    } else {
        assert(s.take(i) =~= s);
    }
}

pub open spec fn parse_digits_spec(sub: Seq<char>, cap: int) -> Option<int> {
    if all_digits(sub) && digits_val(sub) <= cap {
        Some(digits_val(sub))
    } else {
        None
    }
}

/// Reads the digit run `s[from..to]`; `None` on a non-digit or a value over
/// `cap`.
pub fn parse_digits_capped(s: &str, from: usize, to: usize, cap: u64) -> (r: Option<u64>)
    requires
        from <= to <= s@.len(),
    ensures
        ({
            let sub = s@.subrange(from as int, to as int);
            match r {
                Some(v) => parse_digits_spec(sub, cap as int) == Some(v as int),
                None => parse_digits_spec(sub, cap as int) is None,
            }
        }),
{
    let ghost sub = s@.subrange(from as int, to as int);
    let mut acc: u64 = 0;
    let mut i: usize = from;
    proof {
        assert(sub.take(0) =~= Seq::<char>::empty());
    }
    while i < to
        invariant
            from <= i <= to <= s@.len(),
            sub == s@.subrange(from as int, to as int),
            acc <= cap,
            all_digits(sub.take(i - from)),
            acc == digits_val(sub.take(i - from)),
        decreases to - i,
    {
        let ghost k = i - from;
        let c = s.get_char(i);
        let cu = c as u32;
        assert(sub[k as int] == s@[i as int]);
        if !(48 <= cu && cu <= 57) {
            assert(!is_digit(sub[k as int]));
            return None;
        }
        let d: u64 = (cu - 48) as u64;
        assert(is_digit(sub[k as int]) && digit_val(sub[k as int]) == d);
        proof {
            assert(sub.take(k + 1).drop_last() =~= sub.take(k as int));
            assert(sub.take(k + 1).last() == sub[k as int]);
        }
        let overflow: bool = if d > cap {
            true
        } else {
            acc > (cap - d) / 10
        };
        if overflow {
            proof {
                assert(acc * 10 + d > cap) by (nonlinear_arith)
                    requires
                        d > cap || acc > (cap - d) / 10,
                        acc >= 0,
                        d >= 0,
                        cap >= 0,
                ;
                assert(digits_val(sub.take(k + 1)) > cap);
                if all_digits(sub) {
                    lemma_digits_val_prefix_le(sub, k + 1);
                }
            }
            return None;
        }
        proof {
            assert(acc * 10 + d <= cap) by (nonlinear_arith)
                requires
                    d <= cap,
                    acc <= (cap - d) / 10,
                    acc >= 0,
                    d >= 0,
            ;
        }
        acc = acc * 10 + d;
        i += 1;
    }
    proof {
        assert(sub.take(to - from) =~= sub);
    }
    Some(acc)
}

/// The first three digits of the fraction, scaled to thousandths.
pub open spec fn frac_milli(f: Seq<char>) -> int {
    if f.len() >= 3 {
        digits_val(f.take(3))
    } else if f.len() == 2 {
        digits_val(f) * 10
    } else if f.len() == 1 {
        digits_val(f) * 100
    } else {
        0
    }
}

pub proof fn lemma_frac_milli_bounds(f: Seq<char>)
    requires
        all_digits(f),
    ensures
        0 <= frac_milli(f) <= 999,
    decreases f.len(),
{
    if f.len() >= 3 {
        assert(all_digits(f.take(3)));
        lemma_digits_bounded(f.take(3));
    } else {
        lemma_digits_bounded(f);
    }
}

/// A run of up to three digits stays below a thousand.
pub proof fn lemma_digits_bounded(s: Seq<char>)
    requires
        all_digits(s),
        s.len() <= 3,
    ensures
        0 <= digits_val(s),
        s.len() <= 1 ==> digits_val(s) <= 9,
        s.len() <= 2 ==> digits_val(s) <= 99,
        digits_val(s) <= 999,
    decreases s.len(),
{
    if s.len() > 0 {
        assert(all_digits(s.drop_last()));
        lemma_digits_bounded(s.drop_last());
    }
}

/// Reads the fraction digits `s[from..]` into thousandths; digits past the
/// third are read for validity but truncated away.
pub fn parse_frac_milli(s: &str, from: usize) -> (r: Option<u64>)
    requires
        from <= s@.len(),
    ensures
        ({
            let f = s@.skip(from as int);
            match r {
                Some(v) => all_digits(f) && v == frac_milli(f) && v <= 999,
                None => !all_digits(f),
            }
        }),
{
    let ghost f = s@.skip(from as int);
    let n: usize = s.unicode_len();
    let mut acc: u64 = 0;
    let mut i: usize = from;
    proof {
        assert(f.take(0) =~= Seq::<char>::empty());
    }
    while i < n
        invariant
            from <= i <= n,
            n == s@.len(),
            f == s@.skip(from as int),
            all_digits(f.take(i - from)),
            acc <= 999,
            i - from >= 3 ==> acc == digits_val(f.take(3)),
            i - from < 3 ==> acc == digits_val(f.take(i - from)),
        decreases n - i,
    {
        let ghost k = i - from;
        let c = s.get_char(i);
        let cu = c as u32;
        assert(f[k as int] == s@[i as int]);
        if !(48 <= cu && cu <= 57) {
            assert(!is_digit(f[k as int]));
            return None;
        }
        assert(is_digit(f[k as int]) && digit_val(f[k as int]) == cu - 48);
        if i - from < 3 {
            proof {
                assert(f.take(k + 1).drop_last() =~= f.take(k as int));
                assert(f.take(k + 1).last() == f[k as int]);
                assert(all_digits(f.take(k as int)));
                lemma_digits_bounded(f.take(k as int));
            }
            acc = acc * 10 + (cu - 48) as u64;
        }
        i += 1;
    }
    proof {
        assert(f.take(n - from) =~= f);
        if f.len() >= 3 {
            assert(all_digits(f.take(3)));
            lemma_digits_bounded(f.take(3));
        } else {
            lemma_digits_bounded(f);
        }
    }
    let len: usize = n - from;
    if len == 0 {
        Some(0)
    } else if len == 1 {
        Some(acc * 100)
    } else if len == 2 {
        Some(acc * 10)
    } else {
        Some(acc)
    }
}

/// Index of the first decimal point, `-1` when there is none.
pub open spec fn find_dot(s: Seq<char>) -> int
    decreases s.len(),
{
    if s.len() == 0 {
        -1
    } else if s[0] == '.' {
        0
    } else if find_dot(s.drop_first()) == -1 {
        -1
    } else {
        find_dot(s.drop_first()) + 1
    }
}

pub proof fn lemma_find_dot(s: Seq<char>)
    ensures
        find_dot(s) >= -1,
        find_dot(s) == -1 ==> forall|i: int| 0 <= i < s.len() ==> s[i] != '.',
        find_dot(s) >= 0 ==> 0 <= find_dot(s) < s.len() && s[find_dot(s)] == '.' && forall|i: int|
            0 <= i < find_dot(s) ==> s[i] != '.',
    decreases s.len(),
{
    if s.len() > 0 && s[0] != '.' {
        let t = s.drop_first();
        lemma_find_dot(t);
        assert(forall|i: int| 0 <= i < t.len() ==> t[i] == s[i + 1]);
        if find_dot(t) == -1 {
            assert forall|i: int| 0 <= i < s.len() implies s[i] != '.' by {
                if i >= 1 {
                    assert(t[i - 1] != '.');
                }
            }
        } else {
            assert(s[find_dot(s)] == t[find_dot(t)]);
            assert forall|i: int| 0 <= i < find_dot(s) implies s[i] != '.' by {
                if i >= 1 {
                    assert(t[i - 1] != '.');
                }
            }
        }
    }
}

/// Index of the first decimal point of `s`, or its length when there is
/// none.
fn find_dot_exec(s: &str) -> (r: usize)
    ensures
        r == if find_dot(s@) == -1 {
            s@.len() as int
        } else {
            find_dot(s@)
        },
        r <= s@.len(),
{
    let n: usize = s.unicode_len();
    let mut i: usize = 0;
    while i < n
        invariant
            i <= n,
            n == s@.len(),
            forall|j: int| 0 <= j < i ==> s@[j] != '.',
        decreases n - i,
    {
        if s.get_char(i) == '.' {
            proof {
                lemma_find_dot(s@);
                if find_dot(s@) == -1 {
                    assert(s@[i as int] != '.');
                } else if find_dot(s@) < i {
                    assert(s@[find_dot(s@)] != '.');
                } else if find_dot(s@) > i {
                    assert(s@[i as int] != '.');
                }
            }
            return i;
        }
        i += 1;
    }
    proof {
        lemma_find_dot(s@);
        if find_dot(s@) >= 0 {
            assert(s@[find_dot(s@)] != '.');
        }
    }
    n
}

/// The strings accepted as decimal quantities: digits with at most one
/// decimal point, and at least one digit.
pub open spec fn dec_valid(s: Seq<char>) -> bool {
    if find_dot(s) == -1 {
        s.len() >= 1 && all_digits(s)
    } else {
        s.len() >= 2 && all_digits(s.take(find_dot(s))) && all_digits(s.skip(find_dot(s) + 1))
    }
}

/// Value of a valid decimal string in thousandths, the fraction truncated to
/// three digits.
pub open spec fn dec_milli(s: Seq<char>) -> int {
    if find_dot(s) == -1 {
        digits_val(s) * 1000
    } else {
        digits_val(s.take(find_dot(s))) * 1000 + frac_milli(s.skip(find_dot(s) + 1))
    }
}

/// What the text boundary makes of a quantity field: its value in
/// thousandths when the text is a decimal number within the store's range.
pub open spec fn parse_milli_spec(s: Seq<char>) -> Option<int> {
    if dec_valid(s) && dec_milli(s) <= MAX_MILLI {
        Some(dec_milli(s))
    } else {
        None
    }
}

/// The parse-or-default policy: unparsable quantity text stands for zero.
pub open spec fn milli_or_zero(s: Seq<char>) -> int {
    match parse_milli_spec(s) {
        Some(v) => v,
        None => 0,
    }
}

/// Parses a decimal quantity into thousandths.
pub fn parse_milli(s: &str) -> (r: Option<u64>)
    ensures
        match r {
            Some(v) => parse_milli_spec(s@) == Some(v as int),
            None => parse_milli_spec(s@) is None,
        },
{
    let n: usize = s.unicode_len();
    let dot: usize = find_dot_exec(s);
    proof {
        lemma_find_dot(s@);
    }
    if dot == n {
        assert(find_dot(s@) == -1);
        if n == 0 {
            return None;
        }
        let capi: u64 = MAX_MILLI / 1000;
        let r = parse_digits_capped(s, 0, n, capi);
        proof {
            assert(s@.subrange(0, n as int) =~= s@);
        }
        match r {
            Some(v) => {
                assert(v * 1000 <= MAX_MILLI);
                Some(v * 1000)
            },
            None => {
                proof {
                    if all_digits(s@) {
                        lemma_digits_val_nonneg(s@);
                        assert(digits_val(s@) > capi);
                        assert(digits_val(s@) * 1000 > MAX_MILLI) by (nonlinear_arith)
                            requires
                                digits_val(s@) >= MAX_MILLI / 1000 + 1,
                        ;
                    }
                }
                None
            },
        }
    } else {
        assert(s@[dot as int] == '.');
        assert(find_dot(s@) == dot);
        if n < 2 {
            return None;
        }
        let ghost ip = s@.take(dot as int);
        let ghost fp = s@.skip(dot as int + 1);
        let capi: u64 = MAX_MILLI / 1000;
        let ri = parse_digits_capped(s, 0, dot, capi);
        proof {
            assert(s@.subrange(0, dot as int) =~= ip);
        }
        let iv: u64;
        match ri {
            Some(v) => {
                iv = v;
            },
            None => {
                proof {
                    if dec_valid(s@) {
                        lemma_digits_val_nonneg(ip);
                        lemma_frac_milli_bounds(fp);
                        assert(digits_val(ip) > capi);
                        assert(digits_val(ip) * 1000 > MAX_MILLI) by (nonlinear_arith)
                            requires
                                digits_val(ip) >= MAX_MILLI / 1000 + 1,
                        ;
                    }
                }
                return None;
            },
        }
        let rf = parse_frac_milli(s, dot + 1);
        match rf {
            Some(fv) => {
                let v: u64 = iv * 1000 + fv;
                proof {
                    assert(iv * 1000 <= capi * 1000) by (nonlinear_arith)
                        requires
                            0 <= iv <= capi,
                    ;
                }
                if v > MAX_MILLI {
                    None
                } else {
                    Some(v)
                }
            },
            None => None,
        }
    }
}

/// What the text boundary makes of an identifier field: its value when the
/// text is a digit run no greater than `cap`.
pub open spec fn parse_uint_spec(s: Seq<char>, cap: int) -> Option<int> {
    if s.len() >= 1 && all_digits(s) && digits_val(s) <= cap {
        Some(digits_val(s))
    } else {
        None
    }
}

pub open spec fn uint_or_zero(s: Seq<char>, cap: int) -> int {
    match parse_uint_spec(s, cap) {
        Some(v) => v,
        None => 0,
    }
}

/// Parses an identifier field: a plain digit run, capped.
pub fn parse_uint(s: &str, cap: u64) -> (r: Option<u64>)
    ensures
        match r {
            Some(v) => parse_uint_spec(s@, cap as int) == Some(v as int),
            None => parse_uint_spec(s@, cap as int) is None,
        },
{
    let n: usize = s.unicode_len();
    if n == 0 {
        return None;
    }
    let r = parse_digits_capped(s, 0, n, cap);
    proof {
        assert(s@.subrange(0, n as int) =~= s@);
    }
    r
}

} // verus!
