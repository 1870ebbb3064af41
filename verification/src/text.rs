//! Character-level access to strings: a string's characters as a vector and
//! back, and case folding.

use vstd::prelude::*;
use vstd::string::StringExecFns;

verus! {

broadcast use vstd::string::group_string_axioms;

/// The characters of `s`, in order.
pub fn chars_of(s: &str) -> (r: Vec<char>)
    ensures
        r@ == s@,
{
    let mut r: Vec<char> = Vec::new();
    for c in it: s.chars()
        invariant
            it.seq() == s@,
            r@ == it.seq().take(it.index() as int),
    {
        r.push(c);
        proof {
            assert(r@ =~= it.seq().take(it.index() as int + 1));
        }
    }
    proof {
        assert(r@ =~= s@);
    }
    r
}

/// Appends one character (`String::push`).
#[verifier::external_body]
pub(crate) fn push_char(s: &mut String, c: char)
    ensures
        final(s)@ == old(s)@.push(c),
{
    s.push(c);
}

/// The string made of the characters `cs[from..to]`.
pub fn string_of(cs: &[char], from: usize, to: usize) -> (r: String)
    requires
        from <= to <= cs@.len(),
    ensures
        r@ == cs@.subrange(from as int, to as int),
{
    let mut r = String::new();
    let mut i = from;
    while i < to
        invariant
            from <= i <= to <= cs@.len(),
            r@ == cs@.subrange(from as int, i as int),
        decreases to - i,
    {
        push_char(&mut r, cs[i]);
        i = i + 1;
        proof {
            assert(r@ =~= cs@.subrange(from as int, i as int));
        }
    }
    r
}

/// `c` has the Unicode `White_Space` property (what `char::is_whitespace` tests).
pub open spec fn is_white_space(c: char) -> bool {
    let u = c as u32;
    ||| 0x09 <= u <= 0x0D
    ||| u == 0x20 || u == 0x85 || u == 0xA0 || u == 0x1680
    ||| 0x2000 <= u <= 0x200A
    ||| u == 0x2028 || u == 0x2029 || u == 0x202F || u == 0x205F || u == 0x3000
}

/// `s` without its leading white space.
pub open spec fn trim_start(s: Seq<char>) -> Seq<char>
    decreases s.len(),
{
    if s.len() > 0 && is_white_space(s[0]) {
        trim_start(s.drop_first())
    } else {
        s
    }
}

/// `s` without its trailing white space.
pub open spec fn trim_end(s: Seq<char>) -> Seq<char>
    decreases s.len(),
{
    if s.len() > 0 && is_white_space(s.last()) {
        trim_end(s.drop_last())
    } else {
        s
    }
}

/// `s` without leading and trailing white space (`str::trim`).
pub open spec fn trim(s: Seq<char>) -> Seq<char> {
    trim_end(trim_start(s))
}

/// `s` without leading copies of `c`.
pub open spec fn strip_start(s: Seq<char>, c: char) -> Seq<char>
    decreases s.len(),
{
    if s.len() > 0 && s[0] == c {
        strip_start(s.drop_first(), c)
    } else {
        s
    }
}

/// `s` without trailing copies of `c`.
pub open spec fn strip_end(s: Seq<char>, c: char) -> Seq<char>
    decreases s.len(),
{
    if s.len() > 0 && s.last() == c {
        strip_end(s.drop_last(), c)
    } else {
        s
    }
}

/// `s` without leading and trailing copies of `c` (`str::trim_matches`).
pub open spec fn strip(s: Seq<char>, c: char) -> Seq<char> {
    strip_end(strip_start(s, c), c)
}

/// `s` begins with `p`.
pub open spec fn starts_with(s: Seq<char>, p: Seq<char>) -> bool {
    p.len() <= s.len() && s.subrange(0, p.len() as int) == p
}

/// Position of the first `c` in `s`.
pub open spec fn find_char(s: Seq<char>, c: char) -> Option<int>
    decreases s.len(),
{
    if s.len() == 0 {
        None
    } else {
        match find_char(s.drop_last(), c) {
            Some(i) => Some(i),
            None => if s.last() == c { Some(s.len() - 1) } else { None },
        }
    }
}

/// Whether `c` is white space.
pub fn white_space(c: char) -> (r: bool)
    ensures
        r == is_white_space(c),
{
    let u = c as u32;
    (0x09 <= u && u <= 0x0D) || u == 0x20 || u == 0x85 || u == 0xA0 || u == 0x1680
        || (0x2000 <= u && u <= 0x200A) || u == 0x2028 || u == 0x2029 || u == 0x202F || u == 0x205F
        || u == 0x3000
}

/// Bounds of `cs[from..to]` with leading and trailing white space removed.
pub fn trim_range(cs: &[char], from: usize, to: usize) -> (r: (usize, usize))
    requires
        from <= to <= cs@.len(),
    ensures
        from <= r.0 <= r.1 <= to,
        cs@.subrange(r.0 as int, r.1 as int) == trim(cs@.subrange(from as int, to as int)),
{
    let mut a = from;
    while a < to && white_space(cs[a])
        invariant
            from <= a <= to <= cs@.len(),
            trim_start(cs@.subrange(a as int, to as int)) == trim_start(cs@.subrange(from as int, to as int)),
        decreases to - a,
    {
        proof {
            assert(cs@.subrange(a as int, to as int).drop_first() =~= cs@.subrange(a as int + 1, to as int));
        }
        a = a + 1;
    }
    let mut b = to;
    proof {
        assert(trim_start(cs@.subrange(a as int, to as int)) == cs@.subrange(a as int, to as int));
    }
    while b > a && white_space(cs[b - 1])
        invariant
            from <= a <= b <= to <= cs@.len(),
            trim_end(cs@.subrange(a as int, b as int)) == trim(cs@.subrange(from as int, to as int)),
        decreases b - a,
    {
        proof {
            assert(cs@.subrange(a as int, b as int).drop_last() =~= cs@.subrange(a as int, b as int - 1));
        }
        b = b - 1;
    }
    (a, b)
}

/// Bounds of `cs[from..to]` with leading and trailing copies of `c` removed.
pub fn strip_range(cs: &[char], from: usize, to: usize, c: char) -> (r: (usize, usize))
    requires
        from <= to <= cs@.len(),
    ensures
        from <= r.0 <= r.1 <= to,
        cs@.subrange(r.0 as int, r.1 as int) == strip(cs@.subrange(from as int, to as int), c),
{
    let mut a = from;
    while a < to && cs[a] == c
        invariant
            from <= a <= to <= cs@.len(),
            strip_start(cs@.subrange(a as int, to as int), c) == strip_start(cs@.subrange(from as int, to as int), c),
        decreases to - a,
    {
        proof {
            assert(cs@.subrange(a as int, to as int).drop_first() =~= cs@.subrange(a as int + 1, to as int));
        }
        a = a + 1;
    }
    let mut b = to;
    proof {
        assert(strip_start(cs@.subrange(a as int, to as int), c) == cs@.subrange(a as int, to as int));
    }
    while b > a && cs[b - 1] == c
        invariant
            from <= a <= b <= to <= cs@.len(),
            strip_end(cs@.subrange(a as int, b as int), c) == strip(cs@.subrange(from as int, to as int), c),
        decreases b - a,
    {
        proof {
            assert(cs@.subrange(a as int, b as int).drop_last() =~= cs@.subrange(a as int, b as int - 1));
        }
        b = b - 1;
    }
    (a, b)
}

/// Whether `cs[from..to]` begins with `p`.
pub fn range_starts_with(cs: &[char], from: usize, to: usize, p: &[char]) -> (r: bool)
    requires
        from <= to <= cs@.len(),
    ensures
        r == starts_with(cs@.subrange(from as int, to as int), p@),
{
    if p.len() > to - from {
        return false;
    }
    let mut i: usize = 0;
    while i < p.len()
        invariant
            from <= to <= cs@.len(),
            p@.len() <= to - from,
            i <= p@.len(),
            forall|j: int| 0 <= j < i ==> cs@[from + j] == p@[j],
        decreases p@.len() - i,
    {
        if cs[from + i] != p[i] {
            proof {
                assert(cs@.subrange(from as int, to as int).subrange(0, p@.len() as int)[i as int] != p@[i as int]);
            }
            return false;
        }
        i = i + 1;
    }
    proof {
        assert(cs@.subrange(from as int, to as int).subrange(0, p@.len() as int) =~= p@);
    }
    true
}

/// Position (relative to `from`) of the first `c` in `cs[from..to]`.
pub fn range_find(cs: &[char], from: usize, to: usize, c: char) -> (r: Option<usize>)
    requires
        from <= to <= cs@.len(),
    ensures
        match r {
            Some(i) => find_char(cs@.subrange(from as int, to as int), c) == Some(i as int) && i < to - from,
            None => find_char(cs@.subrange(from as int, to as int), c) is None,
        },
{
    let mut i = from;
    while i < to
        invariant
            from <= i <= to <= cs@.len(),
            find_char(cs@.subrange(from as int, i as int), c) is None,
        decreases to - i,
    {
        proof {
            assert(cs@.subrange(from as int, i as int + 1).drop_last() =~= cs@.subrange(from as int, i as int));
        }
        if cs[i] == c {
            proof {
                assert(cs@.subrange(from as int, to as int).subrange(0, (i - from) as int) =~= cs@.subrange(from as int, i as int));
                lemma_find_char_prefix(cs@.subrange(from as int, to as int), c, (i - from) as int);
                assert(cs@.subrange(from as int, to as int).subrange(0, (i - from) as int + 1) =~= cs@.subrange(from as int, i as int + 1));
            }
            return Some(i - from);
        }
        i = i + 1;
    }
    proof {
        assert(cs@.subrange(from as int, i as int) =~= cs@.subrange(from as int, to as int));
    }
    None
}

/// The first `c` of a sequence is the first `c` of every prefix that holds it.
pub proof fn lemma_find_char_prefix(s: Seq<char>, c: char, k: int)
    requires
        0 <= k < s.len(),
        s[k] == c,
        find_char(s.subrange(0, k), c) is None,
    ensures
        find_char(s, c) == Some(k),
        find_char(s.subrange(0, k + 1), c) == Some(k),
    decreases s.len(),
{
    assert(s.subrange(0, k + 1).drop_last() =~= s.subrange(0, k));
    if k < s.len() - 1 {
        assert(s.drop_last().subrange(0, k) =~= s.subrange(0, k));
        lemma_find_char_prefix(s.drop_last(), c, k);
    } else {
        assert(s.drop_last() =~= s.subrange(0, k));
    }
}

/// The character of decimal digit `d`.
pub open spec fn digit_char(d: int) -> char {
    (48 + d) as char
}

/// Decimal digits of `n`, without sign or leading zeros (`"0"` for zero).
pub open spec fn decimal(n: nat) -> Seq<char>
    decreases n,
{
    if n < 10 {
        seq![digit_char(n as int)]
    } else {
        decimal(n / 10).push(digit_char((n % 10) as int))
    }
}

/// Decimal form of a signed integer, with `-` before negative values.
pub open spec fn signed_decimal(n: int) -> Seq<char> {
    if n < 0 {
        seq!['-'] + decimal((-n) as nat)
    } else {
        decimal(n as nat)
    }
}

/// Decimal text of `n` (what `format!("{}", n)` writes).
pub fn decimal_string(n: u64) -> (r: String)
    ensures
        r@ == decimal(n as nat),
{
    let mut q = n;
    let mut buf: Vec<char> = Vec::new();
    let ghost mut suffix: Seq<char> = Seq::empty();
    while q >= 10
        invariant
            decimal(n as nat) == decimal(q as nat) + suffix,
            suffix.len() == buf@.len(),
            forall|j: int| 0 <= j < suffix.len() ==> #[trigger] suffix[j] == buf@[buf@.len() - 1 - j],
        decreases q,
    {
        let d = q % 10;
        let c = char_of_digit(d as u8);
        proof {
            assert(decimal(q as nat) == decimal((q / 10) as nat).push(digit_char(d as int)));
            assert(decimal(q as nat) + suffix =~= decimal((q / 10) as nat) + (seq![c] + suffix));
            suffix = seq![c] + suffix;
        }
        buf.push(c);
        q = q / 10;
    }
    let mut r = String::new();
    push_char(&mut r, char_of_digit(q as u8));
    let mut i = buf.len();
    proof {
        assert(r@ =~= decimal(q as nat));
    }
    while i > 0
        invariant
            i <= buf@.len(),
            suffix.len() == buf@.len(),
            forall|j: int| 0 <= j < suffix.len() ==> #[trigger] suffix[j] == buf@[buf@.len() - 1 - j],
            r@ == decimal(q as nat) + suffix.subrange(0, buf@.len() - i),
        decreases i,
    {
        i = i - 1;
        push_char(&mut r, buf[i]);
        proof {
            assert(suffix[buf@.len() - 1 - i] == buf@[i as int]);
            assert(r@ =~= decimal(q as nat) + suffix.subrange(0, buf@.len() - i));
        }
    }
    proof {
        assert(suffix.subrange(0, buf@.len() as int) =~= suffix);
    }
    r
}

/// The character of a decimal digit.
fn char_of_digit(d: u8) -> (c: char)
    requires
        d < 10,
    ensures
        c == digit_char(d as int),
{
    match d {
        0 => '0',
        1 => '1',
        2 => '2',
        3 => '3',
        4 => '4',
        5 => '5',
        6 => '6',
        7 => '7',
        8 => '8',
        _ => '9',
    }
}

/// Decimal text of a signed value.
pub fn signed_decimal_string(n: i64) -> (r: String)
    ensures
        r@ == signed_decimal(n as int),
{
    if n < 0 {
        let m: u64 = if n == i64::MIN { 0x8000_0000_0000_0000u64 } else { (-n) as u64 };
        let digits = decimal_string(m);
        let mut r = String::new();
        push_char(&mut r, '-');
        r.append(digits.as_str());
        r
    } else {
        decimal_string(n as u64)
    }
}

/// `c` is a decimal digit.
pub open spec fn is_digit(c: char) -> bool {
    '0' <= c <= '9'
}

/// Value of a string of decimal digits.
pub open spec fn digits_value(s: Seq<char>) -> int
    decreases s.len(),
{
    if s.len() == 0 {
        0
    } else {
        digits_value(s.drop_last()) * 10 + (s.last() as int - 48)
    }
}

/// `s` is one or more decimal digits.
pub open spec fn is_digit_run(s: Seq<char>) -> bool {
    s.len() > 0 && forall|i: int| 0 <= i < s.len() ==> is_digit(#[trigger] s[i])
}

/// What `str::parse::<usize>` gives: an optional `+` then decimal digits whose
/// value fits in `usize`.
pub open spec fn parse_usize_spec(s: Seq<char>) -> Option<int> {
    let body = if s.len() > 0 && s[0] == '+' { s.drop_first() } else { s };
    if is_digit_run(body) && digits_value(body) <= usize::MAX {
        Some(digits_value(body))
    } else {
        None
    }
}

/// What `str::parse::<i32>` gives: an optional sign then decimal digits whose
/// signed value fits in `i32`.
pub open spec fn parse_i32_spec(s: Seq<char>) -> Option<int> {
    let neg = s.len() > 0 && s[0] == '-';
    let body = if s.len() > 0 && (s[0] == '+' || s[0] == '-') { s.drop_first() } else { s };
    let v = if neg { -digits_value(body) } else { digits_value(body) };
    if is_digit_run(body) && i32::MIN <= v <= i32::MAX {
        Some(v)
    } else {
        None
    }
}

/// A longer run of digits is worth at least as much as its prefix.
proof fn lemma_digits_value_grows(s: Seq<char>, k: int)
    requires
        0 <= k <= s.len(),
        forall|i: int| 0 <= i < s.len() ==> is_digit(#[trigger] s[i]),
    ensures
        0 <= digits_value(s.subrange(0, k)) <= digits_value(s),
    decreases s.len() - k,
{
    if k < s.len() {
        lemma_digits_value_grows(s, k + 1);
        assert(s.subrange(0, k + 1).drop_last() =~= s.subrange(0, k));
    } else {
        assert(s.subrange(0, k) =~= s);
        lemma_digits_value_nonneg(s);
    }
}

/// Digit runs have non-negative values.
proof fn lemma_digits_value_nonneg(s: Seq<char>)
    requires
        forall|i: int| 0 <= i < s.len() ==> is_digit(#[trigger] s[i]),
    ensures
        digits_value(s) >= 0,
    decreases s.len(),
{
    if s.len() > 0 {
        lemma_digits_value_nonneg(s.drop_last());
        assert(is_digit(s[s.len() - 1]));
    }
}

/// Value of the digits `cs[from..to]`, or `None` when some entry is not a
/// digit, the range is empty, or the value exceeds `limit`.
fn digits_up_to(cs: &[char], from: usize, to: usize, limit: u64) -> (r: Option<u64>)
    requires
        from <= to <= cs@.len(),
    ensures
        match r {
            Some(v) => is_digit_run(cs@.subrange(from as int, to as int)) && v == digits_value(cs@.subrange(from as int, to as int)) && v <= limit,
            None => !(is_digit_run(cs@.subrange(from as int, to as int)) && digits_value(cs@.subrange(from as int, to as int)) <= limit),
        },
{
    let ghost s = cs@.subrange(from as int, to as int);
    if from == to {
        return None;
    }
    let mut i = from;
    while i < to
        invariant
            from <= i <= to <= cs@.len(),
            s == cs@.subrange(from as int, to as int),
            forall|j: int| 0 <= j < i - from ==> is_digit(#[trigger] s[j]),
        decreases to - i,
    {
        let c = cs[i];
        if !('0' <= c && c <= '9') {
            proof {
                assert(!is_digit(s[i - from]));
            }
            return None;
        }
        i = i + 1;
    }
    let mut acc: u128 = 0;
    let mut i = from;
    while i < to
        invariant
            from <= i <= to <= cs@.len(),
            s == cs@.subrange(from as int, to as int),
            forall|j: int| 0 <= j < s.len() ==> is_digit(#[trigger] s[j]),
            acc == digits_value(s.subrange(0, i - from)),
            acc <= limit,
        decreases to - i,
    {
        let c = cs[i];
        proof {
            assert(is_digit(s[i - from]));
            assert(s.subrange(0, i - from + 1).drop_last() =~= s.subrange(0, i - from));
        }
        acc = acc * 10 + (c as u32 - 48) as u128;
        i = i + 1;
        if acc > limit as u128 {
            proof {
                lemma_digits_value_grows(s, i - from);
            }
            return None;
        }
    }
    proof {
        assert(s.subrange(0, i - from) =~= s);
    }
    Some(acc as u64)
}

/// `cs[from..to]` parsed as `usize` (optional `+`, then decimal digits).
pub fn parse_usize_range(cs: &[char], from: usize, to: usize) -> (r: Option<usize>)
    requires
        from <= to <= cs@.len(),
    ensures
        match r {
            Some(v) => parse_usize_spec(cs@.subrange(from as int, to as int)) == Some(v as int),
            None => parse_usize_spec(cs@.subrange(from as int, to as int)) is None,
        },
{
    let ghost s = cs@.subrange(from as int, to as int);
    let start = if from < to && cs[from] == '+' { from + 1 } else { from };
    proof {
        if from < to && cs@[from as int] == '+' {
            assert(s.drop_first() =~= cs@.subrange(start as int, to as int));
        }
    }
    match digits_up_to(cs, start, to, usize::MAX as u64) {
        Some(v) => Some(v as usize),
        None => None,
    }
}

/// `cs[from..to]` parsed as `i32` (optional sign, then decimal digits).
pub fn parse_i32_range(cs: &[char], from: usize, to: usize) -> (r: Option<i32>)
    requires
        from <= to <= cs@.len(),
    ensures
        match r {
            Some(v) => parse_i32_spec(cs@.subrange(from as int, to as int)) == Some(v as int),
            None => parse_i32_spec(cs@.subrange(from as int, to as int)) is None,
        },
{
    let ghost s = cs@.subrange(from as int, to as int);
    let neg = from < to && cs[from] == '-';
    let start = if from < to && (cs[from] == '+' || cs[from] == '-') { from + 1 } else { from };
    proof {
        if from < to && (cs@[from as int] == '+' || cs@[from as int] == '-') {
            assert(s.drop_first() =~= cs@.subrange(start as int, to as int));
        }
    }
    let limit: u64 = if neg { 0x8000_0000 } else { 0x7fff_ffff };
    match digits_up_to(cs, start, to, limit) {
        Some(v) => {
            if neg {
                Some((0 - (v as i64)) as i32)
            } else {
                Some(v as i32)
            }
        }
        None => None,
    }
}

/// The Unicode lowercase mapping of `s`, as `str::to_lowercase` computes it.
pub uninterp spec fn lowercase(s: Seq<char>) -> Seq<char>;

/// `str::to_lowercase`: the lowercase form of `s`.
#[verifier::external_body]
pub fn to_lowercase(s: &str) -> (r: String)
    ensures
        r@ == lowercase(s@),
{
    s.to_lowercase()
}

/// `s` with every non-overlapping occurrence of the non-empty `p`, found from
/// the left, replaced by `r` (`str::replace`).
pub open spec fn replaced(s: Seq<char>, p: Seq<char>, r: Seq<char>) -> Seq<char>
    decreases s.len(),
{
    if p.len() == 0 || s.len() < p.len() {
        s
    } else if s.subrange(0, p.len() as int) == p {
        r + replaced(s.subrange(p.len() as int, s.len() as int), p, r)
    } else {
        seq![s[0]] + replaced(s.drop_first(), p, r)
    }
}

/// `p` occurs in `s`.
pub open spec fn contains_seq(s: Seq<char>, p: Seq<char>) -> bool {
    exists|i: int| 0 <= i && i + p.len() <= s.len() && #[trigger] s.subrange(i, i + p.len()) == p
}

/// Whether `cs[i..]` begins with `p`.
fn matches_at(cs: &Vec<char>, i: usize, p: &Vec<char>) -> (r: bool)
    requires
        i <= cs@.len(),
    ensures
        r == (i + p@.len() <= cs@.len() && cs@.subrange(i as int, i + p@.len()) == p@),
{
    let n = cs.len();
    if p.len() > n - i {
        return false;
    }
    let mut j: usize = 0;
    while j < p.len()
        invariant
            n == cs@.len(),
            i + p@.len() <= cs@.len(),
            j <= p@.len(),
            forall|k: int| 0 <= k < j ==> cs@[i + k] == p@[k],
        decreases p@.len() - j,
    {
        if cs[i + j] != p[j] {
            proof {
                assert(cs@.subrange(i as int, i + p@.len())[j as int] != p@[j as int]);
            }
            return false;
        }
        j = j + 1;
    }
    proof {
        assert(cs@.subrange(i as int, i + p@.len()) =~= p@);
    }
    true
}

/// `s` with every occurrence of `p` replaced by `r`.
pub fn replace_all(s: &str, p: &str, r: &str) -> (out: String)
    requires
        p@.len() > 0,
    ensures
        out@ == replaced(s@, p@, r@),
{
    let cs = chars_of(s);
    let ps = chars_of(p);
    let mut out = String::new();
    let mut i: usize = 0;
    let ghost total = replaced(s@, p@, r@);
    proof {
        assert(cs@.subrange(0, cs@.len() as int) =~= cs@);
    }
    while i < cs.len()
        invariant
            ps@ == p@,
            ps@.len() > 0,
            i <= cs@.len(),
            out@ + replaced(cs@.subrange(i as int, cs@.len() as int), p@, r@) == replaced(s@, p@, r@),
        decreases cs@.len() - i,
    {
        let ghost rest = cs@.subrange(i as int, cs@.len() as int);
        if matches_at(&cs, i, &ps) {
            proof {
                assert(rest.subrange(0, p@.len() as int) =~= cs@.subrange(i as int, i + p@.len()));
                assert(rest.subrange(p@.len() as int, rest.len() as int) =~= cs@.subrange(i + p@.len(), cs@.len() as int));
                assert(out@ + r@ + replaced(cs@.subrange(i + p@.len(), cs@.len() as int), p@, r@)
                    =~= out@ + (r@ + replaced(cs@.subrange(i + p@.len(), cs@.len() as int), p@, r@)));
            }
            out.append(r);
            i = i + ps.len();
        } else {
            proof {
                assert(rest.drop_first() =~= cs@.subrange(i + 1, cs@.len() as int));
                if rest.len() >= p@.len() {
                    assert(rest.subrange(0, p@.len() as int) =~= cs@.subrange(i as int, i + p@.len()));
                }
                assert(out@.push(cs@[i as int]) + replaced(cs@.subrange(i + 1, cs@.len() as int), p@, r@)
                    =~= out@ + (seq![cs@[i as int]] + replaced(cs@.subrange(i + 1, cs@.len() as int), p@, r@)));
                if rest.len() < p@.len() {
                    assert(replaced(rest, p@, r@) == rest);
                    assert(replaced(rest.drop_first(), p@, r@) == rest.drop_first());
                    assert(rest =~= seq![cs@[i as int]] + rest.drop_first());
                }
            }
            push_char(&mut out, cs[i]);
            i = i + 1;
        }
    }
    proof {
        assert(cs@.subrange(i as int, cs@.len() as int) =~= Seq::<char>::empty());
        assert(out@ + Seq::<char>::empty() =~= out@);
    }
    out
}

/// Whether `p` occurs in `s`.
pub fn contains_str(s: &str, p: &str) -> (r: bool)
    ensures
        r == contains_seq(s@, p@),
{
    let cs = chars_of(s);
    let ps = chars_of(p);
    let n = cs.len();
    let m = ps.len();
    if m > n {
        return false;
    }
    if m == 0 {
        proof {
            assert(s@.subrange(0, 0 + p@.len() as int) =~= p@);
        }
        return true;
    }
    let mut i: usize = 0;
    while i <= n - m
        invariant
            ps@ == p@,
            cs@ == s@,
            n == cs@.len(),
            m == ps@.len(),
            1 <= m <= n,
            i <= n - m + 1,
            forall|j: int| 0 <= j < i ==> #[trigger] s@.subrange(j, j + p@.len()) != p@,
        decreases n - m + 1 - i,
    {
        if matches_at(&cs, i, &ps) {
            return true;
        }
        i = i + 1;
    }
    false
}

/// The part of `s` after its last `/` or `\` (all of `s` when it has neither).
pub open spec fn last_path_segment(s: Seq<char>) -> Seq<char>
    decreases s.len(),
{
    if s.len() == 0 {
        s
    } else if s.last() == '/' || s.last() == '\\' {
        Seq::empty()
    } else {
        last_path_segment(s.drop_last()).push(s.last())
    }
}

/// The file name at the end of a `/`- or `\`-separated path.
pub fn last_segment(path: &str) -> (r: String)
    ensures
        r@ == last_path_segment(path@),
{
    let cs = chars_of(path);
    let mut start: usize = cs.len();
    proof {
        assert(cs@.subrange(0, start as int) =~= cs@);
        assert(last_path_segment(path@) + cs@.subrange(start as int, cs@.len() as int) =~= last_path_segment(path@));
    }
    while start > 0 && cs[start - 1] != '/' && cs[start - 1] != '\\'
        invariant
            start <= cs@.len(),
            cs@ == path@,
            last_path_segment(path@) == last_path_segment(cs@.subrange(0, start as int)) + cs@.subrange(start as int, cs@.len() as int),
        decreases start,
    {
        proof {
            let pre = cs@.subrange(0, start as int);
            assert(pre.drop_last() =~= cs@.subrange(0, start - 1));
            assert(last_path_segment(pre) == last_path_segment(pre.drop_last()).push(pre.last()));
            assert(last_path_segment(pre.drop_last()).push(pre.last()) + cs@.subrange(start as int, cs@.len() as int)
                =~= last_path_segment(pre.drop_last()) + cs@.subrange(start - 1, cs@.len() as int));
        }
        start = start - 1;
    }
    proof {
        assert(last_path_segment(cs@.subrange(0, start as int)) =~= Seq::<char>::empty());
        assert(Seq::<char>::empty() + cs@.subrange(start as int, cs@.len() as int) =~= cs@.subrange(start as int, cs@.len() as int));
        if start == cs@.len() {
            assert(cs@.subrange(0, start as int) =~= cs@);
        }
    }
    string_of(cs.as_slice(), start, cs.len())
}

/// The digits of `n` are a digit run worth `n`.
proof fn lemma_decimal_digits(n: nat)
    ensures
        is_digit_run(decimal(n)),
        digits_value(decimal(n)) == n,
        decimal(n)[0] != '+',
    decreases n,
{
    if n < 10 {
        assert(digit_char(n as int) as int == 48 + n);
        let e = seq![digit_char(n as int)];
        assert(e.drop_last() =~= Seq::<char>::empty());
        assert(digits_value(e) == digits_value(e.drop_last()) * 10 + (e.last() as int - 48));
        assert(decimal(n) == e);
    } else {
        lemma_decimal_digits(n / 10);
        let d = decimal(n / 10);
        let e = d.push(digit_char((n % 10) as int));
        assert(digit_char((n % 10) as int) as int == 48 + n % 10);
        assert((n / 10) * 10 + n % 10 == n) by (nonlinear_arith);
        assert(e.drop_last() =~= d);
        assert(digits_value(e) == digits_value(d) * 10 + (e.last() as int - 48));
        assert(decimal(n) == e);
        assert forall|i: int| 0 <= i < e.len() implies is_digit(#[trigger] e[i]) by {
            if i < d.len() {
                assert(e[i] == d[i]);
            }
        }
        assert(e[0] == d[0]);
    }
}

/// Writing a value in decimal and reading it back as `usize` gives the value.
pub proof fn law_decimal_reads_back(n: nat)
    requires
        n <= usize::MAX,
    ensures
        parse_usize_spec(decimal(n)) == Some(n as int),
{
    lemma_decimal_digits(n);
}

/// Replacing a pattern that does not occur leaves the text unchanged.
pub proof fn law_replace_absent(s: Seq<char>, p: Seq<char>, r: Seq<char>)
    requires
        !contains_seq(s, p),
    ensures
        replaced(s, p, r) == s,
    decreases s.len(),
{
    if p.len() > 0 && s.len() >= p.len() {
        assert(s.subrange(0, 0 + p.len() as int) != p);
        assert(!contains_seq(s.drop_first(), p)) by {
            if contains_seq(s.drop_first(), p) {
                let i = choose|i: int| 0 <= i && i + p.len() <= s.drop_first().len() && #[trigger] s.drop_first().subrange(i, i + p.len()) == p;
                assert(s.subrange(i + 1, i + 1 + p.len()) =~= s.drop_first().subrange(i, i + p.len()));
            }
        }
        law_replace_absent(s.drop_first(), p, r);
        assert(seq![s[0]] + s.drop_first() =~= s);
    }
}

/// `p` occurs in `s` at position `k` and nowhere else.
pub open spec fn occurs_only_at(s: Seq<char>, p: Seq<char>, k: int) -> bool {
    forall|i: int| 0 <= i && i + p.len() <= s.len() && #[trigger] s.subrange(i, i + p.len()) == p ==> i == k
}

/// Replacing a pattern that occurs once, right after `a`, replaces just that
/// occurrence.
pub proof fn law_replace_single(a: Seq<char>, p: Seq<char>, r: Seq<char>, f: Seq<char>)
    requires
        p.len() > 0,
        occurs_only_at(a + p + f, p, a.len() as int),
    ensures
        replaced(a + p + f, p, r) == a + r + f,
    decreases a.len(),
{
    let s = a + p + f;
    if a.len() == 0 {
        assert(s.subrange(0, p.len() as int) =~= p);
        assert(s.subrange(p.len() as int, s.len() as int) =~= f);
        assert(!contains_seq(f, p)) by {
            if contains_seq(f, p) {
                let j = choose|j: int| 0 <= j && j + p.len() <= f.len() && #[trigger] f.subrange(j, j + p.len()) == p;
                assert(s.subrange(p.len() + j, p.len() + j + p.len()) =~= f.subrange(j, j + p.len()));
            }
        }
        law_replace_absent(f, p, r);
        assert(a + r + f =~= r + f);
    } else {
        assert(s.subrange(0, p.len() as int) != p) by {
            if s.subrange(0, p.len() as int) == p {
                assert(s.subrange(0, 0 + p.len() as int) == p);
            }
        }
        let a1 = a.drop_first();
        assert(s.drop_first() =~= a1 + p + f);
        assert forall|i: int| 0 <= i && i + p.len() <= (a1 + p + f).len() && #[trigger] (a1 + p + f).subrange(i, i + p.len()) == p
            implies i == a1.len() by {
            assert(s.subrange(i + 1, i + 1 + p.len()) =~= (a1 + p + f).subrange(i, i + p.len()));
        }
        law_replace_single(a1, p, r, f);
        assert(seq![s[0]] + (a1 + r + f) =~= a + r + f);
    }
}

/// The message of the error `str::parse::<i32>` gives for `s`: the
/// `Display` text of its `std::num::IntErrorKind`.
pub uninterp spec fn int_parse_message(s: Seq<char>) -> Seq<char>;

/// `str::parse::<i32>`; an error is handed back as its message.
#[verifier::external_body]
pub(crate) fn parse_i32_text(s: &str) -> (r: Result<i32, String>)
    ensures
        match r {
            Ok(v) => parse_i32_spec(s@) == Some(v as int),
            Err(e) => parse_i32_spec(s@) is None && e@ == int_parse_message(s@),
        },
{
    match s.parse::<i32>() {
        Ok(v) => Ok(v),
        Err(e) => Err(e.to_string()),
    }
}

/// The pieces of `s` between the separators `c`, as `str::split` gives
/// them (one more piece than there are separators).
pub open spec fn split_char(s: Seq<char>, c: char) -> Seq<Seq<char>>
    decreases s.len(),
{
    if s.len() == 0 {
        seq![Seq::empty()]
    } else {
        let p = split_char(s.drop_last(), c);
        if s.last() == c {
            p.push(Seq::empty())
        } else {
            p.update(p.len() - 1, p.last().push(s.last()))
        }
    }
}

/// The views of a list of strings.
pub open spec fn views(v: Seq<String>) -> Seq<Seq<char>> {
    v.map_values(|x: String| x@)
}

/// Splits `s` at every `c`.
pub fn split_on(s: &str, c: char) -> (r: Vec<String>)
    ensures
        views(r@) == split_char(s@, c),
{
    let cs = chars_of(s);
    let mut pieces: Vec<String> = Vec::new();
    let mut cur = String::new();
    let mut i: usize = 0;
    proof {
        assert(cs@.take(0) =~= Seq::<char>::empty());
        assert(views(pieces@).push(cur@) =~= seq![Seq::<char>::empty()]);
    }
    while i < cs.len()
        invariant
            i <= cs@.len(),
            cs@ == s@,
            split_char(cs@.take(i as int), c) == views(pieces@).push(cur@),
        decreases cs@.len() - i,
    {
        let ghost before = views(pieces@);
        let ghost cur0 = cur@;
        proof {
            assert(cs@.take(i as int + 1).drop_last() =~= cs@.take(i as int));
            assert(cs@.take(i as int + 1).last() == cs@[i as int]);
        }
        if cs[i] == c {
            pieces.push(cur);
            cur = String::new();
            proof {
                assert(views(pieces@) =~= before.push(cur0));
                assert(views(pieces@).push(cur@) =~= before.push(cur0).push(Seq::empty()));
            }
        } else {
            push_char(&mut cur, cs[i]);
            proof {
                assert(views(pieces@) =~= before);
                assert(before.push(cur0).update(before.len() as int, cur0.push(cs@[i as int])) =~= views(pieces@).push(cur@));
            }
        }
        i = i + 1;
    }
    proof {
        assert(cs@.take(i as int) =~= s@);
    }
    let ghost before = views(pieces@);
    let ghost last = cur@;
    pieces.push(cur);
    proof {
        assert(views(pieces@) =~= before.push(last));
    }
    pieces
}

/// `s` without leading and trailing white space.
pub fn trim_str(s: &str) -> (r: String)
    ensures
        r@ == trim(s@),
{
    let cs = chars_of(s);
    proof {
        assert(cs@.subrange(0, cs@.len() as int) =~= cs@);
    }
    let (a, b) = trim_range(cs.as_slice(), 0, cs.len());
    string_of(cs.as_slice(), a, b)
}

} // verus!
