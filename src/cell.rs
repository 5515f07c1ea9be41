use vstd::prelude::*;

verus! {

/// A decoded cell. Floating-point cells keep their validated text; text cells keep
/// their validated UTF-8 bytes.
#[derive(Clone, Debug, PartialEq, Eq)]
pub enum Value {
    Null,
    Boolean(bool),
    Int64(i64),
    Float64(Vec<u8>),
    Utf8(Vec<u8>),
}

/// Mathematical model of a cell.
pub enum CellView {
    Null,
    Boolean(bool),
    Int64(int),
    Float64(Seq<u8>),
    Utf8(Seq<u8>),
}

impl View for Value {
    type V = CellView;

    open spec fn view(&self) -> CellView {
        match self {
            Value::Null => CellView::Null,
            Value::Boolean(b) => CellView::Boolean(*b),
            Value::Int64(i) => CellView::Int64(*i as int),
            Value::Float64(t) => CellView::Float64(t@),
            Value::Utf8(t) => CellView::Utf8(t@),
        }
    }
}

impl Value {
    pub fn copy(&self) -> (r: Value)
        ensures
            r@ == self@,
    {
        match self {
            Value::Null => Value::Null,
            Value::Boolean(b) => Value::Boolean(*b),
            Value::Int64(i) => Value::Int64(*i),
            Value::Float64(t) => Value::Float64(copy_bytes(t.as_slice())),
            Value::Utf8(t) => Value::Utf8(copy_bytes(t.as_slice())),
        }
    }

    pub fn is_null(&self) -> (r: bool)
        ensures
            r == (self@ is Null),
    {
        match self {
            Value::Null => true,
            _ => false,
        }
    }
}

pub fn copy_bytes(b: &[u8]) -> (r: Vec<u8>)
    ensures
        r@ == b@,
{
    let mut out: Vec<u8> = Vec::new();
    let mut i: usize = 0;
    while i < b.len()
        invariant
            i <= b@.len(),
            out@ == b@.subrange(0, i as int),
        decreases b@.len() - i,
    {
        out.push(b[i]);
        i = i + 1;
        assert(out@ =~= b@.subrange(0, i as int));
    }
    assert(out@ =~= b@);
    out
}

pub open spec fn is_digit(b: u8) -> bool {
    48 <= b <= 57
}

pub open spec fn is_sign(b: u8) -> bool {
    b == 43 || b == 45
}

/// Decimal value of a run of digits.
pub open spec fn digits_value(s: Seq<u8>) -> int
    decreases s.len(),
{
    if s.len() == 0 {
        0
    } else {
        digits_value(s.drop_last()) * 10 + (s.last() - 48)
    }
}

pub open spec fn all_digits(s: Seq<u8>) -> bool {
    forall|i: int| 0 <= i < s.len() ==> is_digit(s[i])
}

pub open spec fn i64_range(v: int) -> bool {
    i64::MIN <= v <= i64::MAX
}

/// An optional sign and at least one digit, read as a decimal that fits in `i64`.
pub open spec fn spec_parse_int(s: Seq<u8>) -> Option<int> {
    let neg = s.len() > 0 && s[0] == 45;
    let start: int = if s.len() > 0 && is_sign(s[0]) {
        1
    } else {
        0
    };
    let body = s.subrange(start, s.len() as int);
    let v = if neg {
        -digits_value(body)
    } else {
        digits_value(body)
    };
    if body.len() > 0 && all_digits(body) && i64_range(v) {
        Some(v)
    } else {
        None
    }
}

proof fn lemma_digits_value_nonneg(s: Seq<u8>)
    requires
        all_digits(s),
    ensures
        digits_value(s) >= 0,
    decreases s.len(),
{
    if s.len() > 0 {
        lemma_digits_value_nonneg(s.drop_last());
    }
}

/// A longer digit run is worth at least as much as its prefix.
proof fn lemma_digits_value_grows(s: Seq<u8>, i: int)
    requires
        all_digits(s),
        0 <= i <= s.len(),
    ensures
        digits_value(s.subrange(0, i)) <= digits_value(s),
    decreases s.len() - i,
{
    if i < s.len() {
        let t = s.subrange(0, i + 1);
        assert(t.drop_last() =~= s.subrange(0, i));
        lemma_digits_value_nonneg(s.subrange(0, i));
        lemma_digits_value_grows(s, i + 1);
    } else {
        assert(s.subrange(0, i) =~= s);
    }
}

/// Reads an integer cell: an optional sign and digits, within the range of `i64`.
pub fn parse_i64(s: &[u8]) -> (r: Option<i64>)
    ensures
        r is Some <==> spec_parse_int(s@) is Some,
        r is Some ==> r->Some_0 as int == spec_parse_int(s@)->Some_0,
{
    let n = s.len();
    let neg = n > 0 && s[0] == 45u8;
    let start: usize = if n > 0 && (s[0] == 43u8 || s[0] == 45u8) {
        1
    } else {
        0
    };
    let ghost body = s@.subrange(start as int, n as int);
    if start >= n {
        return None;
    }
    // Magnitude limit: 2^63 for negative numbers, 2^63 - 1 otherwise.
    let limit: u64 = if neg {
        9223372036854775808u64
    } else {
        9223372036854775807u64
    };
    let mut acc: u64 = 0;
    let mut i: usize = start;
    while i < n
        invariant
            start <= i <= n,
            n == s@.len(),
            start < n,
            body == s@.subrange(start as int, n as int),
            all_digits(body.subrange(0, i - start)),
            acc as int == digits_value(body.subrange(0, i - start)),
            acc <= limit,
            limit >= 9,
            start == if s@.len() > 0 && is_sign(s@[0]) {
                1int
            } else {
                0int
            },
            neg == (s@.len() > 0 && s@[0] == 45),
            limit == if neg {
                9223372036854775808u64
            } else {
                9223372036854775807u64
            },
        decreases n - i,
    {
        let b = s[i];
        if b < 48u8 || b > 57u8 {
            assert(0 <= i - start < body.len());
            assert(body[i - start] == b);
            assert(!all_digits(body));
            return None;
        }
        let d = (b - 48u8) as u64;
        let ghost pre = body.subrange(0, i - start);
        let ghost next = body.subrange(0, i + 1 - start);
        assert(next.drop_last() =~= pre);
        assert(all_digits(next)) by {
            assert forall|k: int| 0 <= k < next.len() implies is_digit(next[k]) by {
                if k < pre.len() {
                    assert(next[k] == pre[k]);
                }
            }
        }
        if acc > (limit - d) / 10 {
            // acc * 10 + d exceeds the limit, and further digits only add to it.
            assert(acc * 10 + d > limit) by (nonlinear_arith)
                requires
                    acc > (limit - d) / 10,
                    d <= 9,
                    limit >= 9,
            ;
            proof {
                if all_digits(body) {
                    lemma_digits_value_grows(body, i + 1 - start);
                }
            }
            return None;
        }
        assert(acc * 10 + d <= limit) by (nonlinear_arith)
            requires
                acc <= (limit - d) / 10,
                d <= 9,
                limit >= 9,
        ;
        acc = acc * 10 + d;
        i = i + 1;
    }
    assert(body.subrange(0, n - start) =~= body);
    if neg {
        if acc == 9223372036854775808u64 {
            Some(-9223372036854775807i64 - 1)
        } else {
            Some(-(acc as i64))
        }
    } else {
        Some(acc as i64)
    }
}

/// Length of the run of digits that starts at `i`.
pub open spec fn digit_run(s: Seq<u8>, i: int) -> int
    decreases s.len() - i,
{
    if 0 <= i < s.len() && is_digit(s[i]) {
        1 + digit_run(s, i + 1)
    } else {
        0
    }
}

proof fn lemma_digit_run_bounds(s: Seq<u8>, i: int)
    requires
        0 <= i <= s.len(),
    ensures
        0 <= digit_run(s, i) <= s.len() - i,
    decreases s.len() - i,
{
    if i < s.len() && is_digit(s[i]) {
        lemma_digit_run_bounds(s, i + 1);
    }
}

fn scan_digits(s: &[u8], i: usize) -> (r: usize)
    requires
        i <= s@.len(),
    ensures
        r as int == i + digit_run(s@, i as int),
        r <= s@.len(),
{
    let mut j: usize = i;
    while j < s.len() && s[j] >= 48u8 && s[j] <= 57u8
        invariant
            i <= j <= s@.len(),
            digit_run(s@, i as int) == (j - i) + digit_run(s@, j as int),
        decreases s@.len() - j,
    {
        j = j + 1;
    }
    j
}

pub open spec fn is_exp_marker(b: u8) -> bool {
    b == 101 || b == 69
}

/// Decimal floating-point text: an optional sign, digits with an optional fraction
/// (at least one digit in all), then an optional exponent with at least one digit.
pub open spec fn is_float_text(s: Seq<u8>) -> bool {
    let sign_end: int = if s.len() > 0 && is_sign(s[0]) {
        1
    } else {
        0
    };
    let a = digit_run(s, sign_end);
    let int_end = sign_end + a;
    let has_dot = int_end < s.len() && s[int_end] == 46;
    let frac_start = if has_dot {
        int_end + 1
    } else {
        int_end
    };
    let b = if has_dot {
        digit_run(s, frac_start)
    } else {
        0
    };
    let frac_end = frac_start + b;
    let has_exp = frac_end < s.len() && is_exp_marker(s[frac_end]);
    let exp_digits = if has_exp && frac_end + 1 < s.len() && is_sign(s[frac_end + 1]) {
        frac_end + 2
    } else {
        frac_end + 1
    };
    let c = digit_run(s, exp_digits);
    a + b > 0 && if has_exp {
        c > 0 && exp_digits + c == s.len()
    } else {
        frac_end == s.len()
    }
}

/// Whether the cell is decimal floating-point text.
pub fn check_float_text(s: &[u8]) -> (r: bool)
    ensures
        r == is_float_text(s@),
{
    let n = s.len();
    let sign_end: usize = if n > 0 && (s[0] == 43u8 || s[0] == 45u8) {
        1
    } else {
        0
    };
    let int_end = scan_digits(s, sign_end);
    let has_dot = int_end < n && s[int_end] == 46u8;
    let frac_start: usize = if has_dot {
        int_end + 1
    } else {
        int_end
    };
    let frac_end = if has_dot {
        scan_digits(s, frac_start)
    } else {
        frac_start
    };
    if int_end == sign_end && frac_end == frac_start {
        return false;
    }
    let has_exp = frac_end < n && (s[frac_end] == 101u8 || s[frac_end] == 69u8);
    if !has_exp {
        return frac_end == n;
    }
    let exp_digits: usize = if frac_end + 1 < n && (s[frac_end + 1] == 43u8 || s[frac_end + 1] == 45u8) {
        frac_end + 2
    } else {
        frac_end + 1
    };
    if exp_digits > n {
        proof {
            assert(digit_run(s@, exp_digits as int) == 0);
        }
        return false;
    }
    let exp_end = scan_digits(s, exp_digits);
    proof {
        let ghost spec_sign_end: int = if s@.len() > 0 && is_sign(s@[0]) {
            1
        } else {
            0
        };
        assert(spec_sign_end == sign_end);
        assert(int_end == spec_sign_end + digit_run(s@, spec_sign_end));
        assert(frac_end == frac_start + if has_dot {
            digit_run(s@, frac_start as int)
        } else {
            0
        });
        assert(has_exp == (frac_end < s@.len() && is_exp_marker(s@[frac_end as int])));
        assert(exp_digits == if frac_end + 1 < s@.len() && is_sign(s@[frac_end + 1]) {
            frac_end + 2
        } else {
            frac_end + 1
        });
        assert(exp_end - exp_digits == digit_run(s@, exp_digits as int));
        let ghost a = digit_run(s@, sign_end as int);
        let ghost b = if has_dot {
            digit_run(s@, frac_start as int)
        } else {
            0
        };
        lemma_digit_run_bounds(s@, sign_end as int);
        if has_dot {
            lemma_digit_run_bounds(s@, frac_start as int);
        }
        assert(is_float_text(s@) == (a + b > 0 && (exp_end - exp_digits > 0 && exp_end == s@.len())));
    }
    exp_end > exp_digits && exp_end == n
}

pub open spec fn ascii_lower(b: u8) -> u8 {
    if 65 <= b <= 90 {
        (b + 32) as u8
    } else {
        b
    }
}

/// Equal to `word` (lower case) up to ASCII case.
pub open spec fn eq_ignore_case(s: Seq<u8>, word: Seq<u8>) -> bool {
    s.len() == word.len() && forall|i: int| 0 <= i < s.len() ==> ascii_lower(s[i]) == word[i]
}

pub open spec fn word_true() -> Seq<u8> {
    seq![116u8, 114u8, 117u8, 101u8]
}

pub open spec fn word_false() -> Seq<u8> {
    seq![102u8, 97u8, 108u8, 115u8, 101u8]
}

/// `true` or `false` in any ASCII case.
pub open spec fn spec_parse_bool(s: Seq<u8>) -> Option<bool> {
    if eq_ignore_case(s, word_false()) {
        Some(false)
    } else if eq_ignore_case(s, word_true()) {
        Some(true)
    } else {
        None
    }
}

fn lower_byte(b: u8) -> (r: u8)
    ensures
        r == ascii_lower(b),
{
    if b >= 65u8 && b <= 90u8 {
        b + 32u8
    } else {
        b
    }
}

fn matches_word(s: &[u8], word: &[u8]) -> (r: bool)
    ensures
        r == eq_ignore_case(s@, word@),
{
    if s.len() != word.len() {
        return false;
    }
    let mut i: usize = 0;
    while i < s.len()
        invariant
            s@.len() == word@.len(),
            i <= s@.len(),
            forall|k: int| 0 <= k < i ==> ascii_lower(s@[k]) == word@[k],
        decreases s@.len() - i,
    {
        if lower_byte(s[i]) != word[i] {
            return false;
        }
        i = i + 1;
    }
    true
}

/// Reads a boolean cell.
pub fn parse_bool(s: &[u8]) -> (r: Option<bool>)
    ensures
        r == spec_parse_bool(s@),
{
    let f: [u8; 5] = [102u8, 97u8, 108u8, 115u8, 101u8];
    let t: [u8; 4] = [116u8, 114u8, 117u8, 101u8];
    assert(f@ =~= word_false());
    assert(t@ =~= word_true());
    if matches_word(s, f.as_slice()) {
        Some(false)
    } else if matches_word(s, t.as_slice()) {
        Some(true)
    } else {
        None
    }
}

} // verus!
