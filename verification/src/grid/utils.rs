//! Verified text helpers: whitespace trimming, line splitting, and parsing
//! of signed 8-bit integers and separator-delimited pairs of them.

use vstd::prelude::*;

verus! {

/// The Unicode white-space characters (the White_Space property, as
/// `char::is_whitespace` reports it): the ASCII spacing characters, the
/// next line and no-break spaces, and the Unicode space separators.
pub open spec fn spec_is_whitespace(c: char) -> bool {
    let u = c as u32;
    u == 0x09 || u == 0x0A || u == 0x0B || u == 0x0C || u == 0x0D || u == 0x20 || u == 0x85
        || u == 0xA0 || u == 0x1680 || (0x2000 <= u && u <= 0x200A) || u == 0x2028 || u == 0x2029
        || u == 0x202F || u == 0x205F || u == 0x3000
}

fn is_whitespace(c: char) -> (r: bool)
    ensures
        r == spec_is_whitespace(c),
{
    let u: u32 = c as u32;
    u == 0x09 || u == 0x0A || u == 0x0B || u == 0x0C || u == 0x0D || u == 0x20 || u == 0x85
        || u == 0xA0 || u == 0x1680 || (0x2000 <= u && u <= 0x200A) || u == 0x2028 || u == 0x2029
        || u == 0x202F || u == 0x205F || u == 0x3000
}

/// `s` without its leading whitespace.
pub open spec fn trim_start(s: Seq<char>) -> Seq<char>
    decreases s.len(),
{
    if s.len() > 0 && spec_is_whitespace(s[0]) {
        trim_start(s.drop_first())
    } else {
        s
    }
}

/// `s` without its trailing whitespace.
pub open spec fn trim_end(s: Seq<char>) -> Seq<char>
    decreases s.len(),
{
    if s.len() > 0 && spec_is_whitespace(s.last()) {
        trim_end(s.drop_last())
    } else {
        s
    }
}

/// `s` without leading and trailing whitespace.
pub open spec fn trimmed(s: Seq<char>) -> Seq<char> {
    trim_end(trim_start(s))
}

proof fn lemma_trim_start_skip(s: Seq<char>, k: int)
    requires
        0 <= k <= s.len(),
        forall|i: int| 0 <= i < k ==> spec_is_whitespace(s[i]),
        k == s.len() || !spec_is_whitespace(s[k]),
    ensures
        trim_start(s) =~= s.subrange(k, s.len() as int),
    decreases k,
{
    if k == 0 {
        assert(trim_start(s) =~= s.subrange(0, s.len() as int));
    } else {
        lemma_trim_start_skip(s.drop_first(), k - 1);
        assert(s.drop_first().subrange(k - 1, s.len() - 1) =~= s.subrange(k, s.len() as int));
    }
}

proof fn lemma_trim_end_skip(s: Seq<char>, k: int)
    requires
        0 <= k <= s.len(),
        forall|i: int| k <= i < s.len() ==> spec_is_whitespace(s[i]),
        k == 0 || !spec_is_whitespace(s[k - 1]),
    ensures
        trim_end(s) =~= s.subrange(0, k),
    decreases s.len() - k,
{
    if k == s.len() {
        assert(trim_end(s) =~= s.subrange(0, k));
    } else {
        assert(spec_is_whitespace(s.last()));
        lemma_trim_end_skip(s.drop_last(), k);
        assert(s.drop_last().subrange(0, k) =~= s.subrange(0, k));
    }
}

proof fn lemma_trimmed_bounds(s: Seq<char>, a: int, b: int)
    requires
        0 <= a < b <= s.len(),
        forall|i: int| 0 <= i < a ==> spec_is_whitespace(s[i]),
        forall|i: int| b <= i < s.len() ==> spec_is_whitespace(s[i]),
        !spec_is_whitespace(s[a]),
        !spec_is_whitespace(s[b - 1]),
    ensures
        trimmed(s) =~= s.subrange(a, b),
{
    lemma_trim_start_skip(s, a);
    let t = s.subrange(a, s.len() as int);
    lemma_trim_end_skip(t, b - a);
    assert(t.subrange(0, b - a) =~= s.subrange(a, b));
}

/// Strips leading and trailing whitespace.
pub fn trim(s: &str) -> (r: &str)
    ensures
        r@ == trimmed(s@),
{
    let n: usize = s.unicode_len();
    let mut a: usize = 0;
    while a < n && is_whitespace(s.get_char(a))
        invariant
            a <= n,
            n == s@.len(),
            forall|i: int| 0 <= i < a ==> spec_is_whitespace(s@[i]),
        decreases n - a,
    {
        a = a + 1;
    }
    if a == n {
        proof {
            lemma_trim_start_skip(s@, n as int);
            assert(trim_start(s@) =~= Seq::<char>::empty());
            assert(trimmed(s@) =~= s@.subrange(n as int, n as int));
        }
        return s.substring_char(n, n);
    }
    let mut b: usize = n;
    while b > a && is_whitespace(s.get_char(b - 1))
        invariant
            a < b <= n,
            n == s@.len(),
            !spec_is_whitespace(s@[a as int]),
            forall|i: int| b <= i < n ==> spec_is_whitespace(s@[i]),
        decreases b,
    {
        b = b - 1;
    }
    proof {
        lemma_trimmed_bounds(s@, a as int, b as int);
    }
    s.substring_char(a, b)
}

/// The index of the first occurrence of `c` in `s`, or `s.len()` when `c`
/// does not occur.
pub open spec fn first_index_of(s: Seq<char>, c: char) -> int
    decreases s.len(),
{
    if s.len() == 0 {
        0
    } else if s[0] == c {
        0
    } else {
        1 + first_index_of(s.drop_first(), c)
    }
}

pub proof fn lemma_first_index_of_at(s: Seq<char>, c: char, k: int)
    requires
        0 <= k <= s.len(),
        forall|i: int| 0 <= i < k ==> s[i] != c,
        k == s.len() || s[k] == c,
    ensures
        first_index_of(s, c) == k,
    decreases k,
{
    if k > 0 {
        lemma_first_index_of_at(s.drop_first(), c, k - 1);
    }
}


/// The non-empty segments of `s` between newline characters, in order.
pub open spec fn split_lines(s: Seq<char>) -> Seq<Seq<char>>
    decreases s.len(),
{
    let i = first_index_of(s, '\n');
    if s.len() == 0 {
        Seq::empty()
    } else if !(0 <= i < s.len()) {
        seq![s]
    } else {
        let head = s.subrange(0, i);
        let tail = s.subrange(i + 1, s.len() as int);
        if head.len() == 0 {
            split_lines(tail)
        } else {
            seq![head] + split_lines(tail)
        }
    }
}


/// The rows joined with a newline between consecutive rows, without a
/// trailing newline.
pub open spec fn join_lines(rows: Seq<Seq<char>>) -> Seq<char>
    decreases rows.len(),
{
    if rows.len() == 0 {
        Seq::empty()
    } else if rows.len() == 1 {
        rows[0]
    } else {
        rows[0] + seq!['\n'] + join_lines(rows.drop_first())
    }
}

/// Appending one more row extends the joined text by a newline and that
/// row.
pub proof fn lemma_join_lines_push(rows: Seq<Seq<char>>, x: Seq<char>)
    requires
        rows.len() > 0,
    ensures
        join_lines(rows.push(x)) =~= join_lines(rows) + seq!['\n'] + x,
    decreases rows.len(),
{
    if rows.len() == 1 {
        assert(rows.push(x).drop_first() =~~= seq![x]);
        assert(join_lines(rows.push(x).drop_first()) == join_lines(seq![x]));
    } else {
        assert(rows.push(x).drop_first() =~~= rows.drop_first().push(x));
        lemma_join_lines_push(rows.drop_first(), x);
    }
}

/// The joined text starts with the first row's first character.
pub proof fn lemma_join_lines_first(rows: Seq<Seq<char>>)
    requires
        rows.len() > 0,
        rows[0].len() > 0,
    ensures
        join_lines(rows).len() > 0,
        join_lines(rows)[0] == rows[0][0],
{
}

/// The joined text ends with the last row's last character.
pub proof fn lemma_join_lines_last(rows: Seq<Seq<char>>)
    requires
        rows.len() > 0,
        forall|i: int| 0 <= i < rows.len() ==> rows[i].len() > 0,
    ensures
        join_lines(rows).len() > 0,
        join_lines(rows).last() == rows.last().last(),
    decreases rows.len(),
{
    if rows.len() > 1 {
        assert(forall|i: int|
            0 <= i < rows.drop_first().len() ==> rows.drop_first()[i].len() > 0);
        lemma_join_lines_last(rows.drop_first());
        assert(rows.drop_first().last() == rows.last());
    }
}

/// Splitting a newline-joined sequence of non-empty, newline-free rows
/// recovers exactly those rows.
pub proof fn lemma_split_join_lines(rows: Seq<Seq<char>>)
    requires
        forall|i: int| 0 <= i < rows.len() ==> rows[i].len() > 0,
        forall|i: int, k: int|
            0 <= i < rows.len() && 0 <= k < rows[i].len() ==> rows[i][k] != '\n',
    ensures
        split_lines(join_lines(rows)) =~~= rows,
    decreases rows.len(),
{
    if rows.len() == 0 {
    } else if rows.len() == 1 {
        let s = rows[0];
        lemma_first_index_of_at(s, '\n', s.len() as int);
        assert(split_lines(s) =~~= seq![s]);
    } else {
        let s = join_lines(rows);
        let head = rows[0];
        let rest = join_lines(rows.drop_first());
        assert forall|k: int| 0 <= k < head.len() implies s[k] != '\n' by {
            assert(s[k] == head[k]);
        }
        assert(s[head.len() as int] == '\n');
        lemma_first_index_of_at(s, '\n', head.len() as int);
        assert(s.subrange(0, head.len() as int) =~= head);
        assert(s.subrange(head.len() as int + 1, s.len() as int) =~= rest);
        assert(forall|i: int|
            0 <= i < rows.drop_first().len() ==> rows.drop_first()[i].len() > 0);
        assert forall|i: int, k: int|
            0 <= i < rows.drop_first().len() && 0 <= k < rows.drop_first()[i].len() implies rows
            .drop_first()[i][k] != '\n' by {
            assert(rows.drop_first()[i] == rows[i + 1]);
        }
        lemma_split_join_lines(rows.drop_first());
        assert(split_lines(s) =~~= seq![head] + split_lines(rest));
    }
}

/// A digit `'0'` through `'9'`.
pub open spec fn is_digit(c: char) -> bool {
    '0' as u32 <= c as u32 && c as u32 <= '9' as u32
}

pub open spec fn digit_value(c: char) -> int {
    c as u32 - '0' as u32
}

pub open spec fn all_digits(s: Seq<char>) -> bool {
    forall|i: int| 0 <= i < s.len() ==> is_digit(s[i])
}

/// The number that a sequence of digits denotes, most significant first.
pub open spec fn digits_value(s: Seq<char>) -> int
    decreases s.len(),
{
    if s.len() == 0 {
        0
    } else {
        10 * digits_value(s.drop_last()) + digit_value(s.last())
    }
}

proof fn lemma_digits_value_nonneg(s: Seq<char>)
    requires
        all_digits(s),
    ensures
        digits_value(s) >= 0,
    decreases s.len(),
{
    if s.len() > 0 {
        assert(forall|i: int| 0 <= i < s.len() - 1 ==> s.drop_last()[i] == s[i]);
        lemma_digits_value_nonneg(s.drop_last());
        assert(is_digit(s.last()));
    }
}

proof fn lemma_digits_value_prefix_le(s: Seq<char>, k: int)
    requires
        0 <= k <= s.len(),
        all_digits(s),
    ensures
        digits_value(s.subrange(0, k)) <= digits_value(s),
    decreases s.len() - k,
{
    if k == s.len() {
        assert(s.subrange(0, k) =~= s);
    } else {
        let p = s.subrange(0, k + 1);
        assert(p.drop_last() =~= s.subrange(0, k));
        assert(forall|i: int| 0 <= i < k ==> s.subrange(0, k)[i] == s[i]);
        lemma_digits_value_nonneg(s.subrange(0, k));
        assert(is_digit(p.last()));
        assert(digits_value(s.subrange(0, k)) <= digits_value(p));
        lemma_digits_value_prefix_le(s, k + 1);
    }
}


/// The glyph of one decimal digit.
pub open spec fn spec_digit_char(d: int) -> char {
    if d == 0 {
        '0'
    } else if d == 1 {
        '1'
    } else if d == 2 {
        '2'
    } else if d == 3 {
        '3'
    } else if d == 4 {
        '4'
    } else if d == 5 {
        '5'
    } else if d == 6 {
        '6'
    } else if d == 7 {
        '7'
    } else if d == 8 {
        '8'
    } else {
        '9'
    }
}

/// The decimal digits of a non-negative number, most significant first,
/// without leading zeros.
pub open spec fn spec_dec_digits(v: nat) -> Seq<char>
    decreases v,
{
    if v < 10 {
        seq![spec_digit_char(v as int)]
    } else {
        spec_dec_digits(v / 10).push(spec_digit_char((v % 10) as int))
    }
}

/// The decimal text of a signed 8-bit value: a minus sign for a negative
/// value, then the digits of its magnitude.
pub open spec fn spec_i8_text(v: int) -> Seq<char> {
    if v < 0 {
        seq!['-'] + spec_dec_digits((-v) as nat)
    } else {
        spec_dec_digits(v as nat)
    }
}

fn digit_str(d: u16) -> (r: &'static str)
    requires
        d < 10,
    ensures
        r@ == seq![spec_digit_char(d as int)],
{
    proof {
        reveal_strlit("0");
        reveal_strlit("1");
        reveal_strlit("2");
        reveal_strlit("3");
        reveal_strlit("4");
        reveal_strlit("5");
        reveal_strlit("6");
        reveal_strlit("7");
        reveal_strlit("8");
        reveal_strlit("9");
    }
    let r: &'static str = if d == 0 {
        "0"
    } else if d == 1 {
        "1"
    } else if d == 2 {
        "2"
    } else if d == 3 {
        "3"
    } else if d == 4 {
        "4"
    } else if d == 5 {
        "5"
    } else if d == 6 {
        "6"
    } else if d == 7 {
        "7"
    } else if d == 8 {
        "8"
    } else {
        "9"
    };
    proof {
        assert(r@ =~= seq![spec_digit_char(d as int)]);
    }
    r
}

/// Writes a signed 8-bit value in decimal, a minus sign first for a
/// negative one.
pub fn i8_to_text(v: i8) -> (r: String)
    ensures
        r@ == spec_i8_text(v as int),
{
    let mut out = String::new();
    let m: u16 = if v < 0 {
        out.append("-");
        (-(v as i16)) as u16
    } else {
        v as u16
    };
    proof {
        reveal_strlit("-");
        if v < 0 {
            assert(out@ =~= seq!['-']);
        }
        assert(m <= 128);
    }
    if m >= 100 {
        out.append(digit_str(m / 100));
        out.append(digit_str((m / 10) % 10));
        out.append(digit_str(m % 10));
        proof {
            let q: nat = m as nat / 10;
            assert(m as nat / 100 == 1);
            assert(10 <= q < 13);
            assert(q / 10 == 1);
            assert(spec_dec_digits(1nat) =~= seq![spec_digit_char(1)]);
            assert(spec_dec_digits(q) =~= seq![spec_digit_char(1), spec_digit_char((q % 10) as int)]);
            assert(spec_dec_digits(m as nat) =~= spec_dec_digits(q).push(
                spec_digit_char((m as nat % 10) as int),
            ));
            assert(out@ =~= spec_i8_text(v as int));
        }
    } else if m >= 10 {
        out.append(digit_str(m / 10));
        out.append(digit_str(m % 10));
        proof {
            let q: nat = m as nat / 10;
            assert(q < 10);
            assert(spec_dec_digits(q) =~= seq![spec_digit_char(q as int)]);
            assert(spec_dec_digits(m as nat) =~= spec_dec_digits(q).push(
                spec_digit_char((m as nat % 10) as int),
            ));
            assert(out@ =~= spec_i8_text(v as int));
        }
    } else {
        out.append(digit_str(m));
        proof {
            assert(out@ =~= spec_i8_text(v as int));
        }
    }
    out
}

/// The sign of a numeral (true for `'-'`) and its digit part, after an
/// optional leading `'+'` or `'-'`.
pub open spec fn sign_split(s: Seq<char>) -> (bool, Seq<char>) {
    if s.len() > 0 && (s[0] == '+' || s[0] == '-') {
        (s[0] == '-', s.drop_first())
    } else {
        (false, s)
    }
}

/// What parsing a signed 8-bit integer from text yields: an optional sign
/// `'+'` or `'-'`, then one or more digits, and a value within the 8-bit
/// range; anything else fails.
pub open spec fn spec_parse_i8(s: Seq<char>) -> Option<i8> {
    let negative = sign_split(s).0;
    let digits = sign_split(s).1;
    if digits.len() > 0 && all_digits(digits) {
        let v = if negative {
            -digits_value(digits)
        } else {
            digits_value(digits)
        };
        if i8::MIN <= v && v <= i8::MAX {
            Some(v as i8)
        } else {
            None
        }
    } else {
        None
    }
}

/// Parses a signed 8-bit integer: an optional sign, then digits, rejecting
/// values outside the 8-bit range.
pub fn parse_i8(s: &str) -> (r: Option<i8>)
    ensures
        r == spec_parse_i8(s@),
{
    let n: usize = s.unicode_len();
    if n == 0 {
        return None;
    }
    let first = s.get_char(0);
    let start: usize = if first == '-' || first == '+' {
        1
    } else {
        0
    };
    let negative = first == '-';
    let ghost digits: Seq<char> = sign_split(s@).1;
    proof {
        if start == 0 {
            assert(digits =~= s@.subrange(start as int, n as int));
        } else {
            assert(digits =~= s@.subrange(start as int, n as int));
        }
    }
    if start == n {
        return None;
    }
    let mut mag: u32 = 0;
    let mut i: usize = start;
    while i < n
        invariant
            start <= i <= n,
            n == s@.len(),
            start <= 1,
            start < n,
            digits == sign_split(s@).1,
            negative == sign_split(s@).0,
            digits =~= s@.subrange(start as int, n as int),
            forall|j: int| 0 <= j < i - start ==> is_digit(digits[j]),
            mag == digits_value(digits.subrange(0, i - start)),
            mag <= 128,
        decreases n - i,
    {
        let c = s.get_char(i);
        let cu: u32 = c as u32;
        if cu < '0' as u32 || cu > '9' as u32 {
            proof {
                assert(digits[i - start] == c);
                assert(!all_digits(digits));
            }
            return None;
        }
        let d: u32 = cu - '0' as u32;
        mag = mag * 10 + d;
        proof {
            let p = digits.subrange(0, i + 1 - start);
            assert(p.drop_last() =~= digits.subrange(0, i - start));
            assert(p.last() == digits[i - start]);
            assert(digits[i - start] == c);
        }
        i = i + 1;
        if mag > 128 {
            proof {
                if all_digits(digits) {
                    lemma_digits_value_prefix_le(digits, i - start);
                    assert(digits_value(digits) > 128);
                }
            }
            return None;
        }
    }
    proof {
        assert(all_digits(digits));
        assert(digits.subrange(0, n - start) =~= digits);
    }
    if negative {
        let v16: i16 = -(mag as i16);
        proof {
            assert(-128 <= v16 && v16 <= 0);
        }
        Some(v16 as i8)
    } else {
        if mag > 127 {
            None
        } else {
            Some(mag as i8)
        }
    }
}

/// The first two separator-delimited tokens of `s`: fails when the
/// separator is absent; a third token after a second separator is never
/// consumed.
pub open spec fn spec_split2(s: Seq<char>, sep: char) -> Option<(Seq<char>, Seq<char>)> {
    let i = first_index_of(s, sep);
    if !(0 <= i < s.len()) {
        None
    } else {
        let rest = s.subrange(i + 1, s.len() as int);
        let j = first_index_of(rest, sep);
        let right = if 0 <= j < rest.len() {
            rest.subrange(0, j)
        } else {
            rest
        };
        Some((s.subrange(0, i), right))
    }
}

/// What parsing a separator-delimited pair of signed 8-bit integers
/// yields: the whole string is trimmed of whitespace, split at the
/// separator, and the first two tokens are each parsed as an 8-bit
/// integer.
pub open spec fn spec_parse_i8_tuple(s: Seq<char>, sep: char) -> Option<(i8, i8)> {
    match spec_split2(trimmed(s), sep) {
        None => None,
        Some((left, right)) => match (spec_parse_i8(left), spec_parse_i8(right)) {
            (Some(a), Some(b)) => Some((a, b)),
            _ => None,
        },
    }
}

/// Parses a pair of signed 8-bit integers separated by `sep`, such as
/// `"4,5"` with separator `','`. Whitespace at the ends of the whole
/// string is trimmed first. Only the first two tokens are inspected, so a
/// third token after a second separator is ignored.
pub fn parse_i8_tuple(input: String, sep: char) -> (r: Option<(i8, i8)>)
    ensures
        r == spec_parse_i8_tuple(input@, sep),
{
    let t: &str = trim(input.as_str());
    let n: usize = t.unicode_len();
    let mut i: usize = 0;
    while i < n && t.get_char(i) != sep
        invariant
            i <= n,
            n == t@.len(),
            forall|k: int| 0 <= k < i ==> t@[k] != sep,
        decreases n - i,
    {
        i = i + 1;
    }
    if i == n {
        proof {
            lemma_first_index_of_at(t@, sep, n as int);
        }
        return None;
    }
    proof {
        lemma_first_index_of_at(t@, sep, i as int);
    }
    let left: &str = t.substring_char(0, i);
    let mut j: usize = i + 1;
    while j < n && t.get_char(j) != sep
        invariant
            i < n,
            i + 1 <= j <= n,
            n == t@.len(),
            forall|k: int| i + 1 <= k < j ==> t@[k] != sep,
        decreases n - j,
    {
        j = j + 1;
    }
    let right: &str = t.substring_char(i + 1, j);
    proof {
        let rest = t@.subrange(i + 1, n as int);
        assert forall|k: int| 0 <= k < j - i - 1 implies rest[k] != sep by {
            assert(rest[k] == t@[i + 1 + k]);
        }
        if j < n {
            assert(rest[j - i - 1] == t@[j as int]);
        }
        lemma_first_index_of_at(rest, sep, j - i - 1);
        if j < n {
            assert(right@ =~= rest.subrange(0, j - i - 1));
        } else {
            assert(right@ =~= rest);
        }
    }
    match (parse_i8(left), parse_i8(right)) {
        (Some(a), Some(b)) => Some((a, b)),
        _ => None,
    }
}

} // verus!
