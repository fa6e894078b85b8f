use vstd::prelude::*;

verus! {

// ---------------------------------------------------------------------------
// Characters and fields
// ---------------------------------------------------------------------------

/// `String::push`: appends `c`.
#[verifier::external_body]
pub(crate) fn push_char(s: &mut String, c: char)
    ensures
        final(s)@ == old(s)@.push(c),
{
    s.push(c);
}

/// The characters of `s`, one by one.
pub fn chars_of(s: &str) -> (v: Vec<char>)
    ensures
        v@ == s@,
{
    let n = s.unicode_len();
    let mut v: Vec<char> = Vec::new();
    let mut i: usize = 0;
    while i < n
        invariant
            i <= n,
            n == s@.len(),
            v@ == s@.take(i as int),
        decreases n - i,
    {
        let c = s.get_char(i);
        v.push(c);
        i += 1;
        assert(v@ == s@.take(i as int));
    }
    assert(s@.take(n as int) == s@);
    v
}

/// The pieces of `s` between the occurrences of `sep`, as `str::split` yields them: one more
/// piece than there are separators, empty pieces included.
pub open spec fn split_on(s: Seq<char>, sep: char) -> Seq<Seq<char>>
    decreases s.len(),
{
    if s.len() == 0 {
        seq![Seq::empty()]
    } else {
        let prev = split_on(s.drop_last(), sep);
        if s.last() == sep {
            prev.push(Seq::empty())
        } else {
            prev.update(prev.len() - 1, prev.last().push(s.last()))
        }
    }
}

/// A split always yields at least one piece.
pub proof fn lemma_split_nonempty(s: Seq<char>, sep: char)
    ensures
        split_on(s, sep).len() >= 1,
    decreases s.len(),
{
    if s.len() > 0 {
        lemma_split_nonempty(s.drop_last(), sep);
    }
}

/// The pieces of `s` between the occurrences of `sep`.
pub fn split_chars(s: &Vec<char>, sep: char) -> (parts: Vec<Vec<char>>)
    ensures
        parts.len() == split_on(s@, sep).len(),
        forall|k: int| 0 <= k < parts.len() ==> #[trigger] parts[k]@ == split_on(s@, sep)[k],
{
    let mut parts: Vec<Vec<char>> = Vec::new();
    let mut cur: Vec<char> = Vec::new();
    let mut i: usize = 0;
    assert(s@.take(0) == Seq::<char>::empty());
    while i < s.len()
        invariant
            i <= s.len(),
            parts.len() + 1 == split_on(s@.take(i as int), sep).len(),
            forall|k: int| 0 <= k < parts.len() ==> #[trigger] parts[k]@ == split_on(s@.take(i as int), sep)[k],
            cur@ == split_on(s@.take(i as int), sep).last(),
        decreases s.len() - i,
    {
        let ghost prev = split_on(s@.take(i as int), sep);
        assert(s@.take(i + 1).drop_last() == s@.take(i as int));
        assert(s@.take(i + 1).last() == s@[i as int]);
        let c = s[i];
        if c == sep {
            parts.push(cur);
            cur = Vec::new();
        } else {
            cur.push(c);
        }
        i += 1;
    }
    parts.push(cur);
    assert(s@.take(s.len() as int) == s@);
    parts
}

// ---------------------------------------------------------------------------
// Digits and numbers
// ---------------------------------------------------------------------------

pub open spec fn is_digit_char(c: char) -> bool {
    '0' <= c <= '9'
}

pub open spec fn all_digits(s: Seq<char>) -> bool {
    forall|i: int| 0 <= i < s.len() ==> is_digit_char(#[trigger] s[i])
}

/// The number written by the decimal digits `s`.
pub open spec fn digits_value(s: Seq<char>) -> nat
    decreases s.len(),
{
    if s.len() == 0 {
        0
    } else {
        digits_value(s.drop_last()) * 10 + (s.last() as nat - '0' as nat) as nat
    }
}

/// `s` without the one leading `+` it may have.
pub open spec fn unsigned_digits(s: Seq<char>) -> Seq<char> {
    if s.len() > 0 && s[0] == '+' {
        s.skip(1)
    } else {
        s
    }
}

/// What parsing `s` as a `usize` gives: an optional `+`, then at least one decimal digit,
/// and a value that fits.
pub open spec fn parse_usize_spec(s: Seq<char>) -> Option<usize> {
    let d = unsigned_digits(s);
    if d.len() > 0 && all_digits(d) && digits_value(d) <= usize::MAX {
        Some(digits_value(d) as usize)
    } else {
        None
    }
}

proof fn lemma_digits_value_grows(s: Seq<char>, i: int)
    requires
        0 <= i <= s.len(),
        all_digits(s),
    ensures
        digits_value(s.take(i)) <= digits_value(s),
    decreases s.len() - i,
{
    if i < s.len() {
        lemma_digits_value_grows(s, i + 1);
        assert(s.take(i + 1).drop_last() == s.take(i));
    } else {
        assert(s.take(i) == s);
    }
}

/// Parses a decimal `usize` as `str::parse` does.
pub fn parse_usize(s: &Vec<char>) -> (res: Option<usize>)
    ensures
        res == parse_usize_spec(s@),
{
    let start: usize = if s.len() > 0 && s[0] == '+' { 1 } else { 0 };
    let ghost d = unsigned_digits(s@);
    assert(d == s@.skip(start as int));
    if start >= s.len() {
        return None;
    }
    let mut value: usize = 0;
    let mut i: usize = start;
    assert(d.take(0) == Seq::<char>::empty());
    while i < s.len()
        invariant
            start <= i <= s.len(),
            start < s.len(),
            d == unsigned_digits(s@),
            d == s@.skip(start as int),
            forall|j: int| 0 <= j < i - start ==> is_digit_char(#[trigger] d[j]),
            value == digits_value(d.take(i - start)),
        decreases s.len() - i,
    {
        let c = s[i];
        assert(d[i - start] == c);
        if !('0' <= c && c <= '9') {
            assert(!all_digits(d));
            return None;
        }
        assert(d.take(i - start + 1).drop_last() == d.take(i - start));
        let digit = (c as u32 - '0' as u32) as usize;
        match value.checked_mul(10) {
            Some(m) => {
                match m.checked_add(digit) {
                    Some(v) => {
                        value = v;
                    },
                    None => {
                        proof {
                            if all_digits(d) {
                                lemma_digits_value_grows(d, i - start + 1);
                            }
                        }
                        return None;
                    },
                }
            },
            None => {
                proof {
                    if all_digits(d) {
                        lemma_digits_value_grows(d, i - start + 1);
                    }
                }
                return None;
            },
        }
        i += 1;
    }
    assert(d.take(i - start) == d);
    Some(value)
}

// ---------------------------------------------------------------------------
// The syntax of a floating-point number, as `f64::from_str` documents it
// ---------------------------------------------------------------------------

/// `c` is the lower-case ASCII letter `lower`, in either case.
pub open spec fn ci_eq(c: char, lower: char) -> bool {
    c == lower || c as int == lower as int - 32
}

/// `s` spells the lower-case word `w`, letters in either case.
pub open spec fn ci_word(s: Seq<char>, w: Seq<char>) -> bool {
    s.len() == w.len() && forall|i: int| 0 <= i < s.len() ==> ci_eq(#[trigger] s[i], w[i])
}

pub open spec fn word_inf() -> Seq<char> {
    seq!['i', 'n', 'f']
}

pub open spec fn word_infinity() -> Seq<char> {
    seq!['i', 'n', 'f', 'i', 'n', 'i', 't', 'y']
}

pub open spec fn word_nan() -> Seq<char> {
    seq!['n', 'a', 'n']
}

pub open spec fn is_sign_char(c: char) -> bool {
    c == '+' || c == '-'
}

pub open spec fn is_exp_char(c: char) -> bool {
    c == 'e' || c == 'E'
}

/// Digits, with at most one decimal point, and at least one digit.
pub open spec fn mantissa_ok(m: Seq<char>) -> bool {
    ||| (m.len() > 0 && all_digits(m))
    ||| exists|k: int|
        0 <= k < m.len() && m.len() > 1 && #[trigger] m[k] == '.' && all_digits(m.take(k)) && all_digits(
            m.skip(k + 1),
        )
}

/// An optional sign, then at least one digit.
pub open spec fn exponent_ok(e: Seq<char>) -> bool {
    let d = if e.len() > 0 && is_sign_char(e[0]) {
        e.skip(1)
    } else {
        e
    };
    d.len() > 0 && all_digits(d)
}

/// A mantissa, then optionally `e` or `E` and an exponent.
pub open spec fn decimal_ok(t: Seq<char>) -> bool {
    ||| mantissa_ok(t)
    ||| exists|k: int|
        0 <= k < t.len() && is_exp_char(#[trigger] t[k]) && mantissa_ok(t.take(k)) && exponent_ok(
            t.skip(k + 1),
        )
}

pub open spec fn unsigned_float_ok(t: Seq<char>) -> bool {
    ci_word(t, word_inf()) || ci_word(t, word_infinity()) || ci_word(t, word_nan()) || decimal_ok(t)
}

/// `s` parses as an `f64`: an optional sign, then `inf`, `infinity` or `nan` in any case, or
/// a decimal number with an optional exponent.
pub open spec fn float_syntax(s: Seq<char>) -> bool {
    if s.len() > 0 && is_sign_char(s[0]) {
        unsigned_float_ok(s.skip(1))
    } else {
        unsigned_float_ok(s)
    }
}

/// Whether `s[from..to]` are all decimal digits.
fn digits_between(s: &Vec<char>, from: usize, to: usize) -> (res: bool)
    requires
        from <= to <= s.len(),
    ensures
        res == all_digits(s@.subrange(from as int, to as int)),
{
    let mut i = from;
    while i < to
        invariant
            from <= i <= to <= s.len(),
            forall|j: int| from <= j < i ==> is_digit_char(#[trigger] s@[j]),
        decreases to - i,
    {
        let c = s[i];
        if !('0' <= c && c <= '9') {
            assert(s@.subrange(from as int, to as int)[i - from] == c);
            return false;
        }
        i += 1;
    }
    assert forall|j: int| 0 <= j < to - from implies is_digit_char(
        #[trigger] s@.subrange(from as int, to as int)[j],
    ) by {
        assert(s@.subrange(from as int, to as int)[j] == s@[from + j]);
    }
    true
}

/// The first index in `s[from..to]` that holds `c`, or `to`.
pub(crate) fn find_char(s: &Vec<char>, from: usize, to: usize, c: char) -> (k: usize)
    requires
        from <= to <= s.len(),
    ensures
        from <= k <= to,
        k < to ==> s@[k as int] == c,
        forall|j: int| from <= j < k ==> s@[j] != c,
{
    let mut i = from;
    while i < to
        invariant
            from <= i <= to <= s.len(),
            forall|j: int| from <= j < i ==> s@[j] != c,
        decreases to - i,
    {
        if s[i] == c {
            return i;
        }
        i += 1;
    }
    to
}

/// Whether `s[from..to]` is a mantissa.
fn mantissa_between(s: &Vec<char>, from: usize, to: usize) -> (res: bool)
    requires
        from <= to <= s.len(),
    ensures
        res == mantissa_ok(s@.subrange(from as int, to as int)),
{
    let ghost m = s@.subrange(from as int, to as int);
    let dot = find_char(s, from, to, '.');
    if dot == to {
        let r = to > from && digits_between(s, from, to);
        proof {
            if !r && to > from {
                assert forall|k: int| 0 <= k < m.len() implies #[trigger] m[k] != '.' by {
                    assert(m[k] == s@[from + k]);
                }
            }
        }
        return r;
    }
    let a = digits_between(s, from, dot);
    let b = digits_between(s, dot + 1, to);
    let r = to - from > 1 && a && b;
    proof {
        let k0 = dot - from;
        assert(m[k0] == '.');
        assert(m.take(k0) == s@.subrange(from as int, dot as int));
        assert(m.skip(k0 + 1) == s@.subrange(dot + 1, to as int));
        assert(!all_digits(m)) by {
            assert(!is_digit_char(m[k0]));
        }
        if !r {
            assert forall|k: int|
                0 <= k < m.len() && m.len() > 1 && #[trigger] m[k] == '.' implies !(all_digits(m.take(k))
                && all_digits(m.skip(k + 1))) by {
                if k < k0 {
                    assert(m.skip(k + 1)[k0 - k - 1] == '.');
                } else if k > k0 {
                    assert(m.take(k)[k0] == '.');
                }
            }
        }
    }
    r
}

/// Whether `s[from..to]` is an exponent.
fn exponent_between(s: &Vec<char>, from: usize, to: usize) -> (res: bool)
    requires
        from <= to <= s.len(),
    ensures
        res == exponent_ok(s@.subrange(from as int, to as int)),
{
    let ghost e = s@.subrange(from as int, to as int);
    let start = if from < to && (s[from] == '+' || s[from] == '-') { from + 1 } else { from };
    assert(from < to && is_sign_char(e[0]) ==> e.skip(1) == s@.subrange(from + 1, to as int));
    start < to && digits_between(s, start, to)
}

/// Whether `s[from..to]` is a decimal number with an optional exponent.
fn decimal_between(s: &Vec<char>, from: usize, to: usize) -> (res: bool)
    requires
        from <= to <= s.len(),
    ensures
        res == decimal_ok(s@.subrange(from as int, to as int)),
{
    let ghost t = s@.subrange(from as int, to as int);
    let e1 = find_char(s, from, to, 'e');
    let e2 = find_char(s, from, e1, 'E');
    // the first exponent letter
    let k = e2;
    proof {
        assert forall|j: int| from <= j < k implies !is_exp_char(s@[j]) by {}
    }
    if k == to {
        let r = mantissa_between(s, from, to);
        proof {
            if !r {
                assert forall|j: int| 0 <= j < t.len() implies !is_exp_char(#[trigger] t[j]) by {
                    assert(t[j] == s@[from + j]);
                }
            }
        }
        return r;
    }
    assert(k < to);
    assert(is_exp_char(s@[k as int]));
    let a = mantissa_between(s, from, k);
    let b = exponent_between(s, k + 1, to);
    let r = a && b;
    proof {
        let k0 = k - from;
        assert(t[k0] == s@[k as int]);
        assert(t.take(k0) == s@.subrange(from as int, k as int));
        assert(t.skip(k0 + 1) == s@.subrange(k + 1, to as int));
        assert(!mantissa_ok(t)) by {
            assert(!is_digit_char(t[k0]));
            assert forall|j: int|
                0 <= j < t.len() && t.len() > 1 && #[trigger] t[j] == '.' implies !(all_digits(t.take(j))
                && all_digits(t.skip(j + 1))) by {
                if j < k0 {
                    assert(t.skip(j + 1)[k0 - j - 1] == t[k0]);
                } else {
                    assert(t.take(j)[k0] == t[k0]);
                }
            }
        }
        if !r {
            assert forall|j: int|
                0 <= j < t.len() && is_exp_char(#[trigger] t[j]) implies !(mantissa_ok(t.take(j))
                && exponent_ok(t.skip(j + 1))) by {
                if j > k0 {
                    let tj = t.take(j);
                    assert(tj[k0] == t[k0]);
                    assert(!all_digits(tj)) by {
                        assert(!is_digit_char(tj[k0]));
                    }
                    assert forall|q: int|
                        0 <= q < tj.len() && tj.len() > 1 && #[trigger] tj[q] == '.' implies !(all_digits(
                            tj.take(q),
                        ) && all_digits(tj.skip(q + 1))) by {
                        if q < k0 {
                            assert(tj.skip(q + 1)[k0 - q - 1] == t[k0]);
                        } else {
                            assert(tj.take(q)[k0] == t[k0]);
                        }
                    }
                } else if j < k0 {
                    assert(t[j] == s@[from + j]);
                }
            }
        }
    }
    r
}

/// Whether `s[from..to]` spells the lower-case word `w`, in either case (`up` is `w` in
/// upper case).
fn word_between(s: &Vec<char>, from: usize, to: usize, w: &Vec<char>, up: &Vec<char>) -> (res: bool)
    requires
        from <= to <= s.len(),
        up.len() == w.len(),
        forall|i: int| 0 <= i < w.len() ==> #[trigger] up@[i] as int == w@[i] as int - 32,
    ensures
        res == ci_word(s@.subrange(from as int, to as int), w@),
{
    let ghost t = s@.subrange(from as int, to as int);
    if to - from != w.len() {
        return false;
    }
    let mut i: usize = 0;
    while i < w.len()
        invariant
            i <= w.len(),
            to - from == w.len(),
            up.len() == w.len(),
            from <= to <= s.len(),
            t == s@.subrange(from as int, to as int),
            forall|j: int| 0 <= j < w.len() ==> #[trigger] up@[j] as int == w@[j] as int - 32,
            forall|j: int| 0 <= j < i ==> ci_eq(#[trigger] t[j], w@[j]),
        decreases w.len() - i,
    {
        let c = s[from + i];
        assert(t[i as int] == c);
        assert(up@[i as int] as int == w@[i as int] as int - 32);
        if !(c == w[i] || c == up[i]) {
            return false;
        }
        i += 1;
    }
    true
}

/// Whether `s` parses as an `f64`.
pub fn float_syntax_ok(s: &Vec<char>) -> (res: bool)
    ensures
        res == float_syntax(s@),
{
    let from: usize = if s.len() > 0 && (s[0] == '+' || s[0] == '-') { 1 } else { 0 };
    let to = s.len();
    assert(s@.subrange(from as int, to as int) == (if s@.len() > 0 && is_sign_char(s@[0]) {
        s@.skip(1)
    } else {
        s@
    }));
    let inf = vec!['i', 'n', 'f'];
    let inf_up = vec!['I', 'N', 'F'];
    let infinity = vec!['i', 'n', 'f', 'i', 'n', 'i', 't', 'y'];
    let infinity_up = vec!['I', 'N', 'F', 'I', 'N', 'I', 'T', 'Y'];
    let nan = vec!['n', 'a', 'n'];
    let nan_up = vec!['N', 'A', 'N'];
    assert(inf@ == word_inf());
    assert(infinity@ == word_infinity());
    assert(nan@ == word_nan());
    word_between(s, from, to, &inf, &inf_up) || word_between(s, from, to, &infinity, &infinity_up)
        || word_between(s, from, to, &nan, &nan_up) || decimal_between(s, from, to)
}

} // verus!
