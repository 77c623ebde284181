use vstd::prelude::*;

verus! {

/// The byte `b` is an ASCII decimal digit.
pub open spec fn is_digit(b: u8) -> bool {
    48 <= b <= 57
}

/// The byte `b` is ASCII white space: a space, or one of `\t`, `\n`, the
/// vertical tab, the form feed and `\r`. Only these bytes are trimmed from a
/// line: white space outside ASCII, such as a UTF-8 no-break space, stays,
/// and a line that holds it spells no number.
pub open spec fn is_space(b: u8) -> bool {
    b == 32 || (9 <= b <= 13)
}

/// The value of a string of decimal digits, most significant first.
pub open spec fn digits_value(s: Seq<u8>) -> int
    decreases s.len(),
{
    if s.len() == 0 {
        0
    } else {
        10 * digits_value(s.drop_last()) + (s.last() - 48)
    }
}

/// The decimal digits of `n`, most significant first, without leading zeros.
pub open spec fn decimal_digits(n: nat) -> Seq<u8>
    decreases n,
{
    if n < 10 {
        seq![(48 + n) as u8]
    } else {
        decimal_digits(n / 10) + seq![(48 + n % 10) as u8]
    }
}

/// The decimal text of `v`: its digits, after a `-` when it is negative.
pub open spec fn decimal_text(v: int) -> Seq<u8> {
    if v < 0 {
        seq![45u8] + decimal_digits((-v) as nat)
    } else {
        decimal_digits(v as nat)
    }
}

/// A list of numbers as text: each number in decimal, followed by a newline.
pub open spec fn format_lines(s: Seq<i64>) -> Seq<u8>
    decreases s.len(),
{
    if s.len() == 0 {
        seq![]
    } else {
        format_lines(s.drop_last()) + decimal_text(s.last() as int) + seq![10u8]
    }
}

/// `s` without its leading white space.
pub open spec fn trim_start(s: Seq<u8>) -> Seq<u8>
    decreases s.len(),
{
    if s.len() > 0 && is_space(s[0]) {
        trim_start(s.drop_first())
    } else {
        s
    }
}

/// `s` without its trailing white space.
pub open spec fn trim_end(s: Seq<u8>) -> Seq<u8>
    decreases s.len(),
{
    if s.len() > 0 && is_space(s.last()) {
        trim_end(s.drop_last())
    } else {
        s
    }
}

/// Every byte of `s` is a decimal digit.
pub open spec fn all_digits(s: Seq<u8>) -> bool {
    forall|i: int| 0 <= i < s.len() ==> is_digit(#[trigger] s[i])
}

/// The length of the sign that `s` starts with: `1` for a `+` or a `-`,
/// else `0`.
pub open spec fn sign_len(s: Seq<u8>) -> int {
    if s.len() > 0 && (s[0] == 45u8 || s[0] == 43u8) {
        1
    } else {
        0
    }
}

/// The integer that `s` spells: an optional `+` or `-`, then at least one
/// decimal digit and nothing else, with a value that fits in an `i64`.
pub open spec fn parse_integer(s: Seq<u8>) -> Option<int> {
    let body = s.subrange(sign_len(s), s.len() as int);
    let v = if s.len() > 0 && s[0] == 45u8 {
        -digits_value(body)
    } else {
        digits_value(body)
    };
    if body.len() == 0 || !all_digits(body) {
        None
    } else if i64::MIN <= v <= i64::MAX {
        Some(v)
    } else {
        None
    }
}

/// The index of the first newline of `s` at or after `i`, or the length of
/// `s` when there is none.
pub open spec fn line_end(s: Seq<u8>, i: int) -> int
    decreases s.len() - i,
{
    if i >= s.len() || s[i] == 10u8 {
        i
    } else {
        line_end(s, i + 1)
    }
}

proof fn lemma_line_end(s: Seq<u8>, i: int)
    requires
        0 <= i <= s.len(),
    ensures
        i <= line_end(s, i) <= s.len(),
        line_end(s, i) < s.len() ==> s[line_end(s, i)] == 10u8,
        forall|j: int| i <= j < line_end(s, i) ==> #[trigger] s[j] != 10u8,
    decreases s.len() - i,
{
    if i < s.len() && s[i] != 10u8 {
        lemma_line_end(s, i + 1);
    }
}

#[via_fn]
proof fn parse_lines_from_decreases(s: Seq<u8>, i: int) {
    if 0 <= i <= s.len() {
        lemma_line_end(s, i);
    }
}

/// The numbers that the lines of `s` from index `i` on spell, once trimmed
/// of white space; lines that spell no integer are skipped.
pub open spec fn parse_lines_from(s: Seq<u8>, i: int) -> Seq<i64>
    decreases s.len() - i
    via parse_lines_from_decreases
{
    if i < 0 || i > s.len() {
        seq![]
    } else {
        let e = line_end(s, i);
        let head = match parse_integer(trim_end(trim_start(s.subrange(i, e)))) {
            Some(v) => seq![v as i64],
            None => seq![],
        };
        if e >= s.len() {
            head
        } else {
            head + parse_lines_from(s, e + 1)
        }
    }
}

proof fn lemma_line_end_at(s: Seq<u8>, i: int, e: int)
    requires
        0 <= i <= e <= s.len(),
        forall|j: int| i <= j < e ==> #[trigger] s[j] != 10u8,
        e == s.len() || s[e] == 10u8,
    ensures
        line_end(s, i) == e,
    decreases e - i,
{
    if i < e {
        lemma_line_end_at(s, i + 1, e);
    }
}

proof fn lemma_digits_value_nonneg(s: Seq<u8>)
    requires
        forall|i: int| 0 <= i < s.len() ==> is_digit(#[trigger] s[i]),
    ensures
        digits_value(s) >= 0,
    decreases s.len(),
{
    if s.len() > 0 {
        assert(is_digit(s[s.len() - 1]));
        lemma_digits_value_nonneg(s.drop_last());
    }
}

/// A string of digits is worth at least as much as any of its prefixes.
proof fn lemma_digits_value_prefix(s: Seq<u8>, k: int)
    requires
        0 <= k <= s.len(),
        forall|i: int| 0 <= i < s.len() ==> is_digit(#[trigger] s[i]),
    ensures
        digits_value(s.subrange(0, k)) <= digits_value(s),
    decreases s.len(),
{
    if k < s.len() {
        let t = s.drop_last();
        assert(t.subrange(0, k) =~= s.subrange(0, k));
        lemma_digits_value_prefix(t, k);
        lemma_digits_value_nonneg(t);
        assert(is_digit(s[s.len() - 1]));
    } else {
        assert(s.subrange(0, k) =~= s);
    }
}

/// The decimal text of `v`.
fn decimal_bytes(v: i64) -> (r: Vec<u8>)
    ensures
        r@ == decimal_text(v as int),
{
    let mut m: u64 = if v < 0 {
        (-(v as i128)) as u64
    } else {
        v as u64
    };
    let ghost magnitude = m as nat;
    let mut digits: Vec<u8> = Vec::new();
    loop
        invariant_except_break
            decimal_digits(magnitude) == decimal_digits(m as nat) + digits@,
            m == 0 ==> digits@.len() == 0,
        ensures
            decimal_digits(magnitude) == digits@,
        decreases m,
    {
        let d = (m % 10) as u8;
        let ghost before = digits@;
        digits.insert(0, 48 + d);
        proof {
            let mn = m as nat;
            if mn >= 10 {
                assert(decimal_digits(mn) == decimal_digits(mn / 10) + seq![(48 + mn % 10) as u8]);
                assert(decimal_digits(magnitude) =~= decimal_digits(mn / 10) + digits@);
            } else {
                assert(decimal_digits(mn) == seq![(48 + mn) as u8]);
                assert(decimal_digits(magnitude) =~= digits@);
                assert(decimal_digits(0) =~= seq![48u8]);
            }
        }
        m = m / 10;
        if m == 0 {
            break;
        }
    }
    if v < 0 {
        let mut r: Vec<u8> = Vec::new();
        r.push(45);
        r.append(&mut digits);
        assert(r@ =~= seq![45u8] + decimal_digits(magnitude));
        r
    } else {
        digits
    }
}

/// The primes as text, each in decimal on a line of its own.
pub fn format_prime_list(primes: &[i64]) -> (r: Vec<u8>)
    ensures
        r@ == format_lines(primes@),
{
    let mut r: Vec<u8> = Vec::new();
    let mut j: usize = 0;
    while j < primes.len()
        invariant
            j <= primes@.len(),
            r@ == format_lines(primes@.subrange(0, j as int)),
        decreases primes@.len() - j,
    {
        let mut text = decimal_bytes(primes[j]);
        r.append(&mut text);
        r.push(10);
        proof {
            let next = primes@.subrange(0, j + 1);
            assert(next.drop_last() =~= primes@.subrange(0, j as int));
            assert(r@ =~= format_lines(next));
        }
        j = j + 1;
    }
    assert(primes@.subrange(0, primes@.len() as int) =~= primes@);
    r
}

/// The integer that `s[start..end]` spells once trimmed of white space.
fn parse_line(s: &[u8], start: usize, end: usize) -> (r: Option<i64>)
    requires
        start <= end <= s@.len(),
    ensures
        match parse_integer(trim_end(trim_start(s@.subrange(start as int, end as int)))) {
            Some(v) => r == Some(v as i64),
            None => r.is_none(),
        },
{
    let ghost line = s@.subrange(start as int, end as int);
    let mut a = start;
    while a < end && (s[a] == 32 || (9 <= s[a] && s[a] <= 13))
        invariant
            start <= a <= end <= s@.len(),
            trim_start(line) == trim_start(s@.subrange(a as int, end as int)),
        decreases end - a,
    {
        assert(s@.subrange(a as int, end as int).drop_first() =~= s@.subrange(a + 1, end as int));
        a = a + 1;
    }
    let mut b = end;
    while b > a && (s[b - 1] == 32 || (9 <= s[b - 1] && s[b - 1] <= 13))
        invariant
            start <= a <= b <= end <= s@.len(),
            trim_start(line) == s@.subrange(a as int, end as int),
            trim_end(s@.subrange(a as int, end as int)) == trim_end(s@.subrange(a as int, b as int)),
        decreases b - a,
    {
        assert(s@.subrange(a as int, b as int).drop_last() =~= s@.subrange(a as int, b - 1));
        b = b - 1;
    }
    let ghost t = s@.subrange(a as int, b as int);
    assert(trim_end(trim_start(line)) == t);
    let mut p = a;
    let mut neg = false;
    if p < b && s[p] == 45 {
        neg = true;
        p = p + 1;
    } else if p < b && s[p] == 43 {
        p = p + 1;
    }
    let ghost body = s@.subrange(p as int, b as int);
    assert(body =~= t.subrange(sign_len(t), t.len() as int));
    assert(neg == (t.len() > 0 && t[0] == 45u8));
    if p == b {
        return None;
    }
    let mut acc: i128 = 0;
    let mut k = p;
    while k < b
        invariant
            p <= k <= b <= s@.len(),
            body == s@.subrange(p as int, b as int),
            trim_end(trim_start(s@.subrange(start as int, end as int))) == t,
            body == t.subrange(sign_len(t), t.len() as int),
            neg == (t.len() > 0 && t[0] == 45u8),
            0 <= acc <= 9223372036854775808,
            acc == digits_value(s@.subrange(p as int, k as int)),
            forall|i: int| p <= i < k ==> is_digit(#[trigger] s@[i]),
        decreases b - k,
    {
        let c = s[k];
        if c < 48 || c > 57 {
            assert(!is_digit(body[k - p]));
            assert(!all_digits(body));
            return None;
        }
        proof {
            let next = s@.subrange(p as int, k + 1);
            assert(next.drop_last() =~= s@.subrange(p as int, k as int));
        }
        acc = acc * 10 + (c - 48) as i128;
        k = k + 1;
        if acc > 9223372036854775808 {
            proof {
                if all_digits(body) {
                    assert(body.subrange(0, k - p) =~= s@.subrange(p as int, k as int));
                    lemma_digits_value_prefix(body, k - p);
                }
            }
            return None;
        }
    }
    assert(s@.subrange(p as int, k as int) =~= body);
    assert(all_digits(body)) by {
        assert forall|i: int| 0 <= i < body.len() implies is_digit(#[trigger] body[i]) by {
            assert(body[i] == s@[p + i]);
        }
    }
    let v: i128 = if neg {
        -acc
    } else {
        acc
    };
    if v < i64::MIN as i128 || v > i64::MAX as i128 {
        return None;
    }
    Some(v as i64)
}

/// The numbers that the lines of `text` spell, in order: each line is
/// trimmed of white space, and a line that does not spell an integer that
/// fits in an `i64` is skipped.
pub fn parse_prime_list(text: &[u8]) -> (r: Vec<i64>)
    ensures
        r@ == parse_lines_from(text@, 0),
{
    let mut result: Vec<i64> = Vec::new();
    let mut i: usize = 0;
    loop
        invariant
            i <= text@.len(),
            parse_lines_from(text@, 0) == result@ + parse_lines_from(text@, i as int),
        decreases text@.len() - i,
    {
        let mut e = i;
        while e < text.len() && text[e] != 10
            invariant
                i <= e <= text@.len(),
                forall|j: int| i <= j < e ==> #[trigger] text@[j] != 10u8,
            decreases text@.len() - e,
        {
            e = e + 1;
        }
        proof {
            lemma_line_end_at(text@, i as int, e as int);
        }
        let entry = parse_line(text, i, e);
        let ghost before = result@;
        match entry {
            Some(v) => result.push(v),
            None => {},
        }
        if e >= text.len() {
            proof {
                assert(result@ =~= before + parse_lines_from(text@, i as int));
            }
            assert(result@ + parse_lines_from(text@, text@.len() as int) =~= result@) by {
                assert(line_end(text@, text@.len() as int) == text@.len());
                assert(text@.subrange(text@.len() as int, text@.len() as int).len() == 0);
            }
            return result;
        }
        proof {
            assert(before + parse_lines_from(text@, i as int) =~= result@ + parse_lines_from(text@, e + 1));
        }
        i = e + 1;
    }
}

} // verus!
