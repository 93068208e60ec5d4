//! Field-level parsing shared by the CSV and jTrainGraph importers: splitting
//! at a separator, signed integers, the decimal floating-point syntax, and
//! clock times (`H:MM` / `H:MM:SS`).

use vstd::prelude::*;
use crate::text::{all_digits, digits_value, is_digit, parse_unsigned, parse_unsigned_spec, unsigned_body, trim_spec, trim_chars};

verus! {

/// `s` split at every occurrence of `sep` (`str::split` with a `char` pattern):
/// always at least one part, and empty parts are kept.
pub open spec fn split_spec(s: Seq<char>, sep: char) -> Seq<Seq<char>>
    decreases s.len(),
{
    if s.len() == 0 {
        seq![Seq::<char>::empty()]
    } else {
        let p = split_spec(s.drop_last(), sep);
        if s.last() == sep {
            p.push(Seq::<char>::empty())
        } else {
            p.update(p.len() - 1, p.last().push(s.last()))
        }
    }
}

/// Views of a vector of character vectors.
pub open spec fn char_vec_views(v: Seq<Vec<char>>) -> Seq<Seq<char>> {
    v.map_values(|x: Vec<char>| x@)
}

proof fn lemma_split_nonempty(s: Seq<char>, sep: char)
    ensures
        split_spec(s, sep).len() >= 1,
    decreases s.len(),
{
    if s.len() > 0 {
        lemma_split_nonempty(s.drop_last(), sep);
    }
}

/// Split `s` at every `sep`.
pub fn split_chars(s: &[char], sep: char) -> (r: Vec<Vec<char>>)
    ensures
        char_vec_views(r@) == split_spec(s@, sep),
{
    let mut done: Vec<Vec<char>> = Vec::new();
    let mut cur: Vec<char> = Vec::new();
    let mut i: usize = 0;
    while i < s.len()
        invariant
            i <= s@.len(),
            char_vec_views(done@).push(cur@) == split_spec(s@.subrange(0, i as int), sep),
        decreases s.len() - i,
    {
        let c = s[i];
        let ghost prev = s@.subrange(0, i as int);
        let ghost next = s@.subrange(0, i + 1);
        assert(next.drop_last() =~= prev);
        proof {
            lemma_split_nonempty(prev, sep);
        }
        if c == sep {
            let finished = cur;
            done.push(finished);
            cur = Vec::new();
            assert(char_vec_views(done@).push(cur@) =~= split_spec(next, sep));
        } else {
            cur.push(c);
            assert(char_vec_views(done@).push(cur@) =~= split_spec(next, sep));
        }
        i = i + 1;
    }
    assert(s@.subrange(0, s@.len() as int) =~= s@);
    done.push(cur);
    done
}


/// `s[from..]` as a vector.
fn chars_from(s: &[char], from: usize) -> (r: Vec<char>)
    requires
        from <= s@.len(),
    ensures
        r@ == s@.subrange(from as int, s@.len() as int),
{
    let mut r: Vec<char> = Vec::new();
    let mut i = from;
    while i < s.len()
        invariant
            from <= i <= s@.len(),
            r@ == s@.subrange(from as int, i as int),
        decreases s.len() - i,
    {
        r.push(s[i]);
        i = i + 1;
        assert(r@ =~= s@.subrange(from as int, i as int));
    }
    r
}

/// What `str::parse::<i32>` gives: an optional sign, then at least one ASCII
/// digit, with a value in the range of `i32`.
pub open spec fn parse_i32_spec(s: Seq<char>) -> Option<int> {
    if s.len() > 0 && s[0] == '-' {
        let b = s.drop_first();
        if b.len() > 0 && all_digits(b) && digits_value(b) <= 2147483648 {
            Some(-(digits_value(b) as int))
        } else {
            None
        }
    } else {
        match parse_unsigned_spec(s, 2147483647) {
            Some(v) => Some(v as int),
            None => None,
        }
    }
}

/// Parse a signed 32-bit decimal integer (`str::parse::<i32>`).
pub fn parse_i32(s: &[char]) -> (r: Option<i32>)
    ensures
        match parse_i32_spec(s@) {
            Some(v) => r == Some(v as i32),
            None => r is None,
        },
{
    if s.len() > 0 && s[0] == '-' {
        let b = chars_from(s, 1);
        assert(b@ =~= s@.drop_first());
        if b.len() == 0 {
            return None;
        }
        if b[0] == '+' {
            assert(!is_digit(b@[0]));
            return None;
        }
        assert(unsigned_body(b@) == b@);
        match parse_unsigned(b.as_slice(), 2147483648) {
            Some(v) => {
                if v == 2147483648 {
                    Some(-2147483647i32 - 1)
                } else {
                    let w: i32 = v as i32;
                    Some(-w)
                }
            },
            None => None,
        }
    } else {
        match parse_unsigned(s, 2147483647) {
            Some(v) => Some(v as i32),
            None => None,
        }
    }
}


/// ASCII lower-casing of one character.
pub open spec fn ascii_lower(c: char) -> char {
    if 'A' <= c && c <= 'Z' {
        ((c as u32) + 32) as char
    } else {
        c
    }
}

/// `s` equals the lower-case ASCII word `w`, ignoring ASCII case.
pub open spec fn matches_ci(s: Seq<char>, w: Seq<char>) -> bool {
    s.len() == w.len() && forall|i: int| 0 <= i < s.len() ==> ascii_lower(#[trigger] s[i]) == w[i]
}

/// `+` or `-`.
pub open spec fn is_sign(c: char) -> bool {
    c == '+' || c == '-'
}

/// `s` without one leading sign character, if it has one.
pub open spec fn unsigned_part(s: Seq<char>) -> Seq<char> {
    if s.len() > 0 && is_sign(s[0]) {
        s.drop_first()
    } else {
        s
    }
}

/// Digits and at most one `.`, with at least one digit
/// (`Digit+ | Digit+ '.' Digit* | Digit* '.' Digit+`).
pub open spec fn mantissa_syntax(m: Seq<char>) -> bool {
    &&& forall|i: int| 0 <= i < m.len() ==> is_digit(#[trigger] m[i]) || m[i] == '.'
    &&& forall|i: int, j: int| 0 <= i < j < m.len() && #[trigger] m[i] == '.' ==> #[trigger] m[j] != '.'
    &&& exists|i: int| 0 <= i < m.len() && is_digit(#[trigger] m[i])
}

/// An exponent after the `e`: an optional sign and at least one digit.
pub open spec fn exponent_syntax(e: Seq<char>) -> bool {
    let d = unsigned_part(e);
    d.len() > 0 && all_digits(d)
}

/// `e` or `E`.
pub open spec fn is_exp_mark(c: char) -> bool {
    c == 'e' || c == 'E'
}

/// A mantissa, optionally followed by `e`/`E` and an exponent.
pub open spec fn number_syntax(b: Seq<char>) -> bool {
    exists|k: int|
        0 <= k <= b.len() && mantissa_syntax(#[trigger] b.take(k)) && (k == b.len() || (
        is_exp_mark(b[k]) && exponent_syntax(b.skip(k + 1))))
}

/// The strings that `str::parse::<f64>` accepts, as its documentation gives the
/// grammar: an optional sign, then `inf`, `infinity`, `nan` (in any case) or a
/// decimal number with an optional exponent.
pub open spec fn float_syntax(s: Seq<char>) -> bool {
    let b = unsigned_part(s);
    ||| matches_ci(b, seq!['i', 'n', 'f'])
    ||| matches_ci(b, seq!['i', 'n', 'f', 'i', 'n', 'i', 't', 'y'])
    ||| matches_ci(b, seq!['n', 'a', 'n'])
    ||| number_syntax(b)
}

fn ascii_lower_exec(c: char) -> (r: char)
    ensures
        r == ascii_lower(c),
{
    if 'A' <= c && c <= 'Z' {
        let v: u8 = (c as u32) as u8;
        (v + 32) as char
    } else {
        c
    }
}

fn matches_ci_exec(s: &[char], w: &[char]) -> (r: bool)
    ensures
        r == matches_ci(s@, w@),
{
    if s.len() != w.len() {
        return false;
    }
    let mut i: usize = 0;
    while i < s.len()
        invariant
            s@.len() == w@.len(),
            i <= s@.len(),
            forall|j: int| 0 <= j < i ==> ascii_lower(#[trigger] s@[j]) == w@[j],
        decreases s.len() - i,
    {
        if ascii_lower_exec(s[i]) != w[i] {
            return false;
        }
        i = i + 1;
    }
    true
}

fn exponent_ok(e: &[char]) -> (r: bool)
    ensures
        r == exponent_syntax(e@),
{
    let start: usize = if e.len() > 0 && (e[0] == '+' || e[0] == '-') { 1 } else { 0 };
    let d = chars_from(e, start);
    assert(d@ =~= unsigned_part(e@));
    if d.len() == 0 {
        return false;
    }
    let mut i: usize = 0;
    while i < d.len()
        invariant
            i <= d@.len(),
            d@ == unsigned_part(e@),
            forall|j: int| 0 <= j < i ==> is_digit(#[trigger] d@[j]),
        decreases d.len() - i,
    {
        if !('0' <= d[i] && d[i] <= '9') {
            assert(!is_digit(d@[i as int]));
            assert(!all_digits(d@));
            assert(!exponent_syntax(e@));
            return false;
        }
        i = i + 1;
    }
    true
}

/// Whether `b` (no sign) is a decimal number with an optional exponent.
fn number_ok(b: &[char]) -> (r: bool)
    ensures
        r == number_syntax(b@),
{
    let n = b.len();
    let mut i: usize = 0;
    let mut seen_dot = false;
    let mut seen_digit = false;
    while i < n && !(b[i] == 'e' || b[i] == 'E')
        invariant
            n == b@.len(),
            i <= n,
            forall|j: int| 0 <= j < i ==> !is_exp_mark(#[trigger] b@[j]),
            forall|j: int| 0 <= j < i ==> is_digit(#[trigger] b@[j]) || b@[j] == '.',
            forall|j: int, l: int| 0 <= j < l < i && #[trigger] b@[j] == '.' ==> #[trigger] b@[l] != '.',
            seen_dot == exists|j: int| 0 <= j < i && #[trigger] b@[j] == '.',
            seen_digit == exists|j: int| 0 <= j < i && is_digit(#[trigger] b@[j]),
        decreases n - i,
    {
        let c = b[i];
        if c == '.' {
            if seen_dot {
                proof {
                    let j0 = choose|j: int| 0 <= j < i && #[trigger] b@[j] == '.';
                    assert forall|k: int| 0 <= k <= b@.len() implies !(mantissa_syntax(#[trigger] b@.take(k))
                        && (k == b@.len() || (is_exp_mark(b@[k]) && exponent_syntax(b@.skip(k + 1))))) by {
                        if k > i {
                            assert(b@.take(k)[j0] == '.');
                            assert(b@.take(k)[i as int] == '.');
                        } else if k < i {
                            assert(!is_exp_mark(b@[k]));
                        }
                    }
                }
                return false;
            }
            seen_dot = true;
        } else if '0' <= c && c <= '9' {
            seen_digit = true;
        } else {
            proof {
                assert forall|k: int| 0 <= k <= b@.len() implies !(mantissa_syntax(#[trigger] b@.take(k))
                    && (k == b@.len() || (is_exp_mark(b@[k]) && exponent_syntax(b@.skip(k + 1))))) by {
                    if k > i {
                        assert(b@.take(k)[i as int] == c);
                    } else if k < i {
                        assert(!is_exp_mark(b@[k]));
                    }
                }
            }
            return false;
        }
        i = i + 1;
    }
    let ghost k0 = i as int;
    let ghost m = b@.take(k0);
    assert forall|j: int| 0 <= j < k0 implies #[trigger] m[j] == b@[j] by {}
    if !seen_digit {
        proof {
            assert forall|k: int| 0 <= k <= b@.len() implies !(mantissa_syntax(#[trigger] b@.take(k))
                && (k == b@.len() || (is_exp_mark(b@[k]) && exponent_syntax(b@.skip(k + 1))))) by {
                if k > k0 {
                    assert(b@.take(k)[k0] == b@[k0]);
                } else if k < k0 {
                    assert(!is_exp_mark(b@[k]));
                } else {
                    assert forall|j: int| 0 <= j < k implies !is_digit(#[trigger] b@.take(k)[j]) by {
                        assert(b@.take(k)[j] == b@[j]);
                    }
                }
            }
        }
        return false;
    }
    assert(mantissa_syntax(m)) by {
        let j1 = choose|j: int| 0 <= j < k0 && is_digit(#[trigger] b@[j]);
        assert(is_digit(m[j1]));
    }
    if i == n {
        assert(b@.take(k0) == m);
        return true;
    }
    let e = chars_from(b, i + 1);
    assert(e@ =~= b@.skip(k0 + 1));
    let ok = exponent_ok(e.as_slice());
    if !ok {
        proof {
            assert forall|k: int| 0 <= k <= b@.len() implies !(mantissa_syntax(#[trigger] b@.take(k))
                && (k == b@.len() || (is_exp_mark(b@[k]) && exponent_syntax(b@.skip(k + 1))))) by {
                if k > k0 {
                    assert(b@.take(k)[k0] == b@[k0]);
                } else if k < k0 {
                    assert(!is_exp_mark(b@[k]));
                }
            }
        }
    }
    ok
}

/// Whether `str::parse::<f64>` accepts `s`.
pub fn is_float_literal(s: &[char]) -> (r: bool)
    ensures
        r == float_syntax(s@),
{
    let start: usize = if s.len() > 0 && (s[0] == '+' || s[0] == '-') { 1 } else { 0 };
    let b = chars_from(s, start);
    assert(b@ =~= unsigned_part(s@));
    let inf = vec!['i', 'n', 'f'];
    let infinity = vec!['i', 'n', 'f', 'i', 'n', 'i', 't', 'y'];
    let nan = vec!['n', 'a', 'n'];
    assert(inf@ =~= seq!['i', 'n', 'f']);
    assert(infinity@ =~= seq!['i', 'n', 'f', 'i', 'n', 'i', 't', 'y']);
    assert(nan@ =~= seq!['n', 'a', 'n']);
    if matches_ci_exec(b.as_slice(), inf.as_slice()) {
        return true;
    }
    if matches_ci_exec(b.as_slice(), infinity.as_slice()) {
        return true;
    }
    if matches_ci_exec(b.as_slice(), nan.as_slice()) {
        return true;
    }
    number_ok(b.as_slice())
}


/// Seconds since midnight of the clock time `h:m:s`, when it is one
/// (hour below 24, minute and second below 60).
pub open spec fn hms_spec(h: nat, m: nat, s: nat) -> Option<nat> {
    if h < 24 && m < 60 && s < 60 {
        Some(h * 3600 + m * 60 + s)
    } else {
        None
    }
}

/// `chrono::NaiveTime::from_hms_opt`, read back through
/// `Timelike::num_seconds_from_midnight`: `None` unless the hour is below 24 and
/// the minute and second below 60; otherwise the time, as the number of seconds
/// since midnight that chrono stores for it.
#[verifier::external_body]
fn hms_seconds(h: u32, m: u32, s: u32) -> (r: Option<u32>)
    ensures
        r == match hms_spec(h as nat, m as nat, s as nat) {
            Some(v) => Some(v as u32),
            None => None::<u32>,
        },
{
    match chrono::NaiveTime::from_hms_opt(h, m, s) {
        Some(t) => Some(chrono::Timelike::num_seconds_from_midnight(&t)),
        None => None,
    }
}

/// A field parsed as `u32` (`str::parse::<u32>`).
pub open spec fn parse_u32_spec(s: Seq<char>) -> Option<nat> {
    parse_unsigned_spec(s, 4294967295)
}

/// A clock time written `H:MM` or `H:MM:SS`, as seconds since midnight: the
/// fields are `u32` numbers, and the time must be a valid time of day.
pub open spec fn parse_time_spec(s: Seq<char>) -> Option<nat> {
    let p = split_spec(s, ':');
    if s.len() == 0 {
        None
    } else if p.len() == 2 {
        match (parse_u32_spec(p[0]), parse_u32_spec(p[1])) {
            (Some(h), Some(m)) => hms_spec(h, m, 0),
            _ => None,
        }
    } else if p.len() == 3 {
        match (parse_u32_spec(p[0]), parse_u32_spec(p[1]), parse_u32_spec(p[2])) {
            (Some(h), Some(m), Some(sec)) => hms_spec(h, m, sec),
            _ => None,
        }
    } else {
        None
    }
}

fn parse_u32_field(s: &Vec<char>) -> (r: Option<u32>)
    ensures
        match parse_u32_spec(s@) {
            Some(v) => r == Some(v as u32),
            None => r is None,
        },
{
    match parse_unsigned(s.as_slice(), 4294967295) {
        Some(v) => Some(v as u32),
        None => None,
    }
}

/// Parse a clock time `H:MM` or `H:MM:SS` into seconds since midnight.
pub fn parse_time_seconds(s: &[char]) -> (r: Option<u32>)
    ensures
        match parse_time_spec(s@) {
            Some(v) => r == Some(v as u32),
            None => r is None,
        },
{
    if s.len() == 0 {
        return None;
    }
    let parts = split_chars(s, ':');
    proof {
        assert(char_vec_views(parts@).len() == parts@.len());
        assert forall|i: int| 0 <= i < parts@.len() implies #[trigger] char_vec_views(parts@)[i] == parts@[i]@ by {}
    }
    if parts.len() == 2 {
        let h = match parse_u32_field(&parts[0]) { Some(v) => v, None => { return None; } };
        let m = match parse_u32_field(&parts[1]) { Some(v) => v, None => { return None; } };
        hms_seconds(h, m, 0)
    } else if parts.len() == 3 {
        let h = match parse_u32_field(&parts[0]) { Some(v) => v, None => { return None; } };
        let m = match parse_u32_field(&parts[1]) { Some(v) => v, None => { return None; } };
        let sec = match parse_u32_field(&parts[2]) { Some(v) => v, None => { return None; } };
        hms_seconds(h, m, sec)
    } else {
        None
    }
}

/// `s`, trimmed, splits at `:` into two or three fields of ASCII digits only
/// (fields may be empty).
pub open spec fn time_format_spec(s: Seq<char>) -> bool {
    let p = split_spec(trim_spec(s), ':');
    2 <= p.len() <= 3 && forall|i: int| 0 <= i < p.len() ==> all_digits(#[trigger] p[i])
}

/// Whether `s` looks like a clock time (`H:MM:SS`, `HH:MM`, ...).
pub fn time_format_chars(s: &[char]) -> (r: bool)
    ensures
        r == time_format_spec(s@),
{
    let t = trim_chars(s);
    let parts = split_chars(t.as_slice(), ':');
    let ghost p = split_spec(trim_spec(s@), ':');
    proof {
        assert(char_vec_views(parts@).len() == parts@.len());
        assert forall|i: int| 0 <= i < parts@.len() implies #[trigger] p[i] == parts@[i]@ by {
            assert(char_vec_views(parts@)[i] == parts@[i]@);
        }
    }
    if parts.len() < 2 || parts.len() > 3 {
        return false;
    }
    let mut i: usize = 0;
    while i < parts.len()
        invariant
            i <= parts@.len(),
            p.len() == parts@.len(),
            p == split_spec(trim_spec(s@), ':'),
            2 <= p.len() <= 3,
            forall|k: int| 0 <= k < parts@.len() ==> #[trigger] p[k] == parts@[k]@,
            forall|k: int| 0 <= k < i ==> all_digits(#[trigger] p[k]),
        decreases parts.len() - i,
    {
        let part = &parts[i];
        let mut j: usize = 0;
        while j < part.len()
            invariant
                j <= part@.len(),
                i < parts@.len(),
                p.len() == parts@.len(),
                p == split_spec(trim_spec(s@), ':'),
                part@ == p[i as int],
                forall|k: int| 0 <= k < j ==> is_digit(#[trigger] part@[k]),
            decreases part.len() - j,
        {
            if !('0' <= part[j] && part[j] <= '9') {
                assert(!is_digit(part@[j as int]));
                assert(!all_digits(p[i as int]));
                return false;
            }
            j = j + 1;
        }
        assert(all_digits(p[i as int]));
        i = i + 1;
    }
    true
}

} // verus!
