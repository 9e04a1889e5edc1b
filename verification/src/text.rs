use vstd::prelude::*;

verus! {

/// Unicode `White_Space`: the characters that `char::is_whitespace` accepts.
pub open spec fn is_white_space(c: char) -> bool {
    ||| ('\u{9}' <= c && c <= '\u{d}')
    ||| c == ' '
    ||| c == '\u{85}'
    ||| c == '\u{a0}'
    ||| c == '\u{1680}'
    ||| ('\u{2000}' <= c && c <= '\u{200a}')
    ||| c == '\u{2028}'
    ||| c == '\u{2029}'
    ||| c == '\u{202f}'
    ||| c == '\u{205f}'
    ||| c == '\u{3000}'
}

/// `s` without its trailing white space.
pub open spec fn trim_end(s: Seq<char>) -> Seq<char>
    decreases s.len(),
{
    if s.len() > 0 && is_white_space(s.last()) {
        trim_end(s.drop_last())
    } else {
        s
    }
}

/// `s` without its leading white space.
pub open spec fn trim_start(s: Seq<char>) -> Seq<char>
    decreases s.len(),
{
    if s.len() > 0 && is_white_space(s[0]) {
        trim_start(s.drop_first())
    } else {
        s
    }
}

/// `s` without leading and trailing white space (what `str::trim` gives).
pub open spec fn trim(s: Seq<char>) -> Seq<char> {
    trim_start(trim_end(s))
}

/// The position of the last `c` in `s`, if any (what `str::rfind` finds, counted in chars).
pub open spec fn last_index_of(s: Seq<char>, c: char) -> Option<int>
    decreases s.len(),
{
    if s.len() == 0 {
        None
    } else if s.last() == c {
        Some(s.len() - 1)
    } else {
        last_index_of(s.drop_last(), c)
    }
}

/// `s` cut at every `'\n'`: the pieces between line feeds, in order, the last one
/// included even when it is empty.
pub open spec fn split_lines(s: Seq<char>) -> Seq<Seq<char>>
    decreases s.len(),
{
    if s.len() == 0 {
        seq![Seq::<char>::empty()]
    } else {
        let init = split_lines(s.drop_last());
        if s.last() == '\n' {
            init.push(Seq::<char>::empty())
        } else {
            init.update(init.len() - 1, init.last().push(s.last()))
        }
    }
}

/// `s` without the `'\n'` characters at its end (what `trim_end_matches('\n')` gives).
pub open spec fn trim_end_newlines(s: Seq<char>) -> Seq<char>
    decreases s.len(),
{
    if s.len() > 0 && s.last() == '\n' {
        trim_end_newlines(s.drop_last())
    } else {
        s
    }
}

pub proof fn lemma_last_index_of_bounds(s: Seq<char>, c: char)
    ensures
        last_index_of(s, c) matches Some(i) ==> 0 <= i < s.len() && s[i] == c,
        last_index_of(s, c) matches Some(i) ==> forall|j: int| i < j < s.len() ==> s[j] != c,
        last_index_of(s, c) is None ==> forall|j: int| 0 <= j < s.len() ==> s[j] != c,
    decreases s.len(),
{
    if s.len() > 0 && s.last() != c {
        lemma_last_index_of_bounds(s.drop_last(), c);
        assert forall|j: int| 0 <= j < s.len() - 1 implies s.drop_last()[j] == s[j] by {}
    }
}

proof fn lemma_trim_end_is_prefix(s: Seq<char>)
    ensures
        0 <= trim_end(s).len() <= s.len(),
        trim_end(s) == s.take(trim_end(s).len() as int),
        forall|i: int| trim_end(s).len() <= i < s.len() ==> is_white_space(#[trigger] s[i]),
        trim_end(s).len() > 0 ==> !is_white_space(s[trim_end(s).len() - 1]),
    decreases s.len(),
{
    if s.len() > 0 && is_white_space(s.last()) {
        lemma_trim_end_is_prefix(s.drop_last());
        let b = trim_end(s).len() as int;
        assert(s.drop_last().take(b) =~= s.take(b));
        assert forall|i: int| b <= i < s.len() implies is_white_space(#[trigger] s[i]) by {
            if i < s.len() - 1 {
                assert(s.drop_last()[i] == s[i]);
            }
        }
    } else {
        assert(s.take(s.len() as int) =~= s);
    }
}

proof fn lemma_trim_start_is_suffix(s: Seq<char>)
    ensures
        0 <= s.len() - trim_start(s).len() <= s.len(),
        trim_start(s) == s.skip(s.len() - trim_start(s).len()),
        forall|i: int| 0 <= i < s.len() - trim_start(s).len() ==> is_white_space(#[trigger] s[i]),
        trim_start(s).len() > 0 ==> !is_white_space(s[s.len() - trim_start(s).len()]),
    decreases s.len(),
{
    if s.len() > 0 && is_white_space(s[0]) {
        lemma_trim_start_is_suffix(s.drop_first());
        let a = s.len() - trim_start(s).len();
        assert(s.drop_first().skip(a - 1) =~= s.skip(a));
        assert forall|i: int| 0 <= i < a implies is_white_space(#[trigger] s[i]) by {
            if i > 0 {
                assert(s.drop_first()[i - 1] == s[i]);
            }
        }
        if trim_start(s).len() > 0 {
            assert(s.drop_first()[a - 1] == s[a]);
        }
    } else {
        assert(s.skip(0) =~= s);
    }
}

/// Trimming removes white space at both ends and nothing else: the result is
/// a contiguous part of `s`, everything before and after it is white space,
/// and it neither starts nor ends with white space.
pub proof fn lemma_trim_strips_only_white_space(s: Seq<char>)
    ensures
        exists|a: int, b: int|
            {
                &&& 0 <= a <= b <= s.len()
                &&& trim(s) == s.subrange(a, b)
                &&& forall|i: int| 0 <= i < a ==> is_white_space(#[trigger] s[i])
                &&& forall|i: int| b <= i < s.len() ==> is_white_space(#[trigger] s[i])
                &&& a < b ==> !is_white_space(s[a]) && !is_white_space(s[b - 1])
            },
{
    lemma_trim_end_is_prefix(s);
    let e = trim_end(s);
    let b = e.len() as int;
    lemma_trim_start_is_suffix(e);
    let a = b - trim_start(e).len();
    assert(e.skip(a) =~= s.subrange(a, b));
    assert forall|i: int| 0 <= i < a implies is_white_space(#[trigger] s[i]) by {
        assert(e[i] == s[i]);
    }
    if a < b {
        assert(e[a] == s[a]);
        assert(e[b - 1] == s[b - 1]);
    }
}

proof fn lemma_split_lines_nonempty(s: Seq<char>)
    ensures
        split_lines(s).len() >= 1,
    decreases s.len(),
{
    if s.len() > 0 {
        lemma_split_lines_nonempty(s.drop_last());
    }
}

/// Text without a line feed is one line, itself.
pub proof fn lemma_split_lines_single(s: Seq<char>)
    requires
        forall|i: int| 0 <= i < s.len() ==> #[trigger] s[i] != '\n',
    ensures
        split_lines(s) == seq![s],
    decreases s.len(),
{
    if s.len() == 0 {
        assert(s =~= Seq::<char>::empty());
    } else {
        assert(s.last() == s[s.len() - 1]);
        assert forall|i: int| 0 <= i < s.drop_last().len() implies #[trigger] s.drop_last()[i]
            != '\n' by {
            assert(s.drop_last()[i] == s[i]);
        }
        lemma_split_lines_single(s.drop_last());
        assert(s.drop_last().push(s.last()) =~= s);
        assert(seq![s.drop_last()].update(0, s.drop_last().push(s.last())) =~= seq![s]);
    }
}

/// A line feed cuts text in two: the lines of `a`, then those of `b`.
pub proof fn lemma_split_lines_at_line_feed(a: Seq<char>, b: Seq<char>)
    ensures
        split_lines(a + seq!['\n'] + b) == split_lines(a) + split_lines(b),
    decreases b.len(),
{
    let w = a + seq!['\n'] + b;
    if b.len() == 0 {
        assert(w =~= a.push('\n'));
        assert(w.drop_last() =~= a);
        assert(split_lines(a).push(Seq::<char>::empty()) =~= split_lines(a) + seq![
            Seq::<char>::empty(),
        ]);
    } else {
        assert(w.drop_last() =~= a + seq!['\n'] + b.drop_last());
        lemma_split_lines_at_line_feed(a, b.drop_last());
        lemma_split_lines_nonempty(b.drop_last());
        lemma_split_lines_nonempty(a);
        let x = split_lines(a);
        let y = split_lines(b.drop_last());
        assert(w.last() == b.last());
        if b.last() == '\n' {
            assert((x + y).push(Seq::<char>::empty()) =~= x + y.push(Seq::<char>::empty()));
        } else {
            let z = x + y;
            assert(z.update(z.len() - 1, z.last().push(b.last())) =~= x + y.update(
                y.len() - 1,
                y.last().push(b.last()),
            ));
        }
    }
}

/// Trimming trailing line feeds removes those and nothing else: the result is
/// a prefix of `s`, everything after it is `'\n'`, and it does not end in `'\n'`.
pub proof fn lemma_trim_end_newlines_removes_only_line_feeds(s: Seq<char>)
    ensures
        trim_end_newlines(s).len() <= s.len(),
        trim_end_newlines(s) == s.take(trim_end_newlines(s).len() as int),
        forall|i: int| trim_end_newlines(s).len() <= i < s.len() ==> #[trigger] s[i] == '\n',
        trim_end_newlines(s).len() > 0 ==> trim_end_newlines(s).last() != '\n',
    decreases s.len(),
{
    if s.len() > 0 && s.last() == '\n' {
        lemma_trim_end_newlines_removes_only_line_feeds(s.drop_last());
        let b = trim_end_newlines(s).len() as int;
        assert(s.drop_last().take(b) =~= s.take(b));
        assert forall|i: int| b <= i < s.len() implies #[trigger] s[i] == '\n' by {
            if i < s.len() - 1 {
                assert(s.drop_last()[i] == s[i]);
            }
        }
    } else {
        assert(s.take(s.len() as int) =~= s);
    }
}

/// Text that does not end in a line feed, followed by any number of line
/// feeds, trims back to that text.
pub proof fn lemma_trim_end_newlines_of_padded(c: Seq<char>, k: nat)
    requires
        c.len() == 0 || c.last() != '\n',
    ensures
        trim_end_newlines(c + Seq::new(k, |i: int| '\n')) == c,
{
    let s = c + Seq::new(k, |i: int| '\n');
    lemma_trim_end_newlines_removes_only_line_feeds(s);
    let r = trim_end_newlines(s);
    let l = r.len() as int;
    if l > c.len() {
        assert(r.last() == s[l - 1]);
        assert(s[l - 1] == '\n');
    } else if l < c.len() {
        assert(s[c.len() - 1] == c.last());
    }
    assert(s.take(c.len() as int) =~= c);
}

/// Whether `c` is white space in the sense of `char::is_whitespace`.
pub fn is_whitespace(c: char) -> (r: bool)
    ensures
        r == is_white_space(c),
{
    ('\u{9}' <= c && c <= '\u{d}') || c == ' ' || c == '\u{85}' || c == '\u{a0}' || c == '\u{1680}'
        || ('\u{2000}' <= c && c <= '\u{200a}') || c == '\u{2028}' || c == '\u{2029}' || c
        == '\u{202f}' || c == '\u{205f}' || c == '\u{3000}'
}

/// The characters of `s`, in order.
pub fn chars_of(s: &str) -> (r: Vec<char>)
    ensures
        r@ == s@,
{
    let mut r: Vec<char> = Vec::new();
    for c in it: s.chars()
        invariant
            r@ == it.seq().take(it.index() as int),
            it.seq() == s@,
    {
        r.push(c);
    }
    r
}

/// Whether `a` and `b` hold the same text.
pub fn same_text(a: &str, b: &str) -> (r: bool)
    ensures
        r == (a@ == b@),
{
    let x = chars_of(a);
    let y = chars_of(b);
    if x.len() != y.len() {
        return false;
    }
    let mut i: usize = 0;
    while i < x.len()
        invariant
            x@ == a@,
            y@ == b@,
            x@.len() == y@.len(),
            i <= x@.len(),
            forall|j: int| 0 <= j < i ==> x@[j] == y@[j],
        decreases x@.len() - i,
    {
        if x[i] != y[i] {
            return false;
        }
        i = i + 1;
    }
    assert(a@ =~= b@);
    true
}

/// The bounds, within `cs[lo..hi]`, of that range trimmed of white space at both ends.
pub fn trimmed_bounds(cs: &Vec<char>, lo: usize, hi: usize) -> (r: (usize, usize))
    requires
        lo <= hi <= cs@.len(),
    ensures
        lo <= r.0 <= r.1 <= hi,
        cs@.subrange(r.0 as int, r.1 as int) == trim(cs@.subrange(lo as int, hi as int)),
{
    let mut b = hi;
    while b > lo && is_whitespace(cs[b - 1])
        invariant
            lo <= b <= hi <= cs@.len(),
            trim_end(cs@.subrange(lo as int, hi as int)) == trim_end(
                cs@.subrange(lo as int, b as int),
            ),
        decreases b,
    {
        assert(cs@.subrange(lo as int, b as int).drop_last() =~= cs@.subrange(
            lo as int,
            b - 1,
        ));
        b = b - 1;
    }
    let mut a = lo;
    while a < b && is_whitespace(cs[a])
        invariant
            lo <= a <= b <= hi <= cs@.len(),
            trim_end(cs@.subrange(lo as int, hi as int)) == cs@.subrange(lo as int, b as int),
            trim(cs@.subrange(lo as int, hi as int)) == trim_start(
                cs@.subrange(a as int, b as int),
            ),
        decreases b - a,
    {
        assert(cs@.subrange(a as int, b as int).drop_first() =~= cs@.subrange(
            a + 1,
            b as int,
        ));
        a = a + 1;
    }
    (a, b)
}

/// The position of the last `c` within `cs[lo..hi]`, counted from the start of `cs`.
pub fn last_index_in(cs: &Vec<char>, lo: usize, hi: usize, c: char) -> (r: Option<usize>)
    requires
        lo <= hi <= cs@.len(),
    ensures
        r matches Some(k) ==> lo <= k < hi && last_index_of(
            cs@.subrange(lo as int, hi as int),
            c,
        ) == Some(k - lo),
        r is None ==> last_index_of(cs@.subrange(lo as int, hi as int), c) is None,
{
    let mut j = hi;
    while j > lo
        invariant
            lo <= j <= hi <= cs@.len(),
            last_index_of(cs@.subrange(lo as int, hi as int), c) == last_index_of(
                cs@.subrange(lo as int, j as int),
                c,
            ),
        decreases j,
    {
        assert(cs@.subrange(lo as int, j as int).drop_last() =~= cs@.subrange(
            lo as int,
            j - 1,
        ));
        if cs[j - 1] == c {
            return Some(j - 1);
        }
        j = j - 1;
    }
    None
}

/// Whether `c` is one of the ASCII digits `0` to `9`.
pub open spec fn is_digit(c: char) -> bool {
    '0' <= c && c <= '9'
}

/// The number that the digits `s` write in base ten (0 for no digits).
pub open spec fn decimal_value(s: Seq<char>) -> int
    decreases s.len(),
{
    if s.len() == 0 {
        0
    } else {
        decimal_value(s.drop_last()) * 10 + (s.last() as int - '0' as int)
    }
}

/// The value that the decimal digits `digits` write, when there is at least
/// one, all are digits, and the value fits in a `u64`.
pub open spec fn u64_of_digits(digits: Seq<char>) -> Option<u64> {
    if digits.len() > 0 && (forall|i: int| 0 <= i < digits.len() ==> is_digit(#[trigger] digits[i]))
        && decimal_value(digits) <= u64::MAX {
        Some(decimal_value(digits) as u64)
    } else {
        None
    }
}

/// What `str::parse::<u64>` gives: an optional `+` followed by one decimal
/// digit or more, whose value fits in a `u64`; `None` for anything else.
pub open spec fn parsed_u64(s: Seq<char>) -> Option<u64> {
    if s.len() > 0 && s[0] == '+' {
        u64_of_digits(s.drop_first())
    } else {
        u64_of_digits(s)
    }
}

proof fn lemma_decimal_value_grows(s: Seq<char>, j: int, k: int)
    requires
        0 <= j <= k <= s.len(),
        forall|i: int| 0 <= i < s.len() ==> is_digit(#[trigger] s[i]),
    ensures
        0 <= decimal_value(s.take(j)) <= decimal_value(s.take(k)),
    decreases k,
{
    if k > 0 {
        assert(s.take(k).drop_last() =~= s.take(k - 1));
        if j < k {
            lemma_decimal_value_grows(s, j, k - 1);
        } else {
            lemma_decimal_value_grows(s, k - 1, k - 1);
        }
    } else {
        assert(s.take(0) =~= Seq::<char>::empty());
    }
}

/// The `u64` that `s` writes in decimal, as `str::parse::<u64>` reads it.
pub fn parse_u64(s: &str) -> (r: Option<u64>)
    ensures
        r == parsed_u64(s@),
{
    let cs = chars_of(s);
    let n = cs.len();
    let first: usize = if n > 0 && cs[0] == '+' {
        1
    } else {
        0
    };
    let ghost digits = cs@.skip(first as int);
    assert(parsed_u64(s@) == u64_of_digits(digits)) by {
        if first == 1 {
            assert(digits =~= s@.drop_first());
        } else {
            assert(digits =~= s@);
        }
    }
    if first == n {
        return None;
    }
    let mut value: u64 = 0;
    let mut i = first;
    while i < n
        invariant
            first <= i <= n == cs@.len(),
            digits == cs@.skip(first as int),
            parsed_u64(s@) == u64_of_digits(digits),
            forall|j: int| 0 <= j < i - first ==> is_digit(#[trigger] digits[j]),
            value as int == decimal_value(digits.take(i - first)),
        decreases n - i,
    {
        let c = cs[i];
        if !('0' <= c && c <= '9') {
            assert(!is_digit(digits[i - first]));
            return None;
        }
        assert(digits.take(i + 1 - first).drop_last() =~= digits.take(i - first));
        let d = (c as u32 - '0' as u32) as u64;
        assert(decimal_value(digits.take(i + 1 - first)) == value * 10 + d);
        match value.checked_mul(10) {
            Some(v) => match v.checked_add(d) {
                Some(w) => {
                    value = w;
                },
                None => {
                    proof { self::lemma_overflow_is_final(digits, i + 1 - first) }
                    return None;
                },
            },
            None => {
                proof { self::lemma_overflow_is_final(digits, i + 1 - first) }
                return None;
            },
        }
        i = i + 1;
    }
    assert(digits.take(n - first) =~= digits);
    Some(value)
}

/// Once a prefix of decimal digits is past `u64::MAX`, so is the whole: a
/// non-digit later on does not matter, the parse fails either way.
proof fn lemma_overflow_is_final(digits: Seq<char>, k: int)
    requires
        0 < k <= digits.len(),
        forall|j: int| 0 <= j < k - 1 ==> is_digit(#[trigger] digits[j]),
        is_digit(digits[k - 1]),
        decimal_value(digits.take(k)) > u64::MAX,
    ensures
        u64_of_digits(digits) is None,
{
    if forall|i: int| 0 <= i < digits.len() ==> is_digit(#[trigger] digits[i]) {
        lemma_decimal_value_grows(digits, k, digits.len() as int);
        assert(digits.take(digits.len() as int) =~= digits);
    }
}

} // verus!
