use vstd::prelude::*;

verus! {

/// Relies on `String::push`: the character is appended at the end.
#[verifier::external_body]
pub(crate) fn push_char(s: &mut String, c: char)
    ensures
        final(s)@ == old(s)@.push(c),
{
    s.push(c)
}

/// Splitting a sequence on a separator character, as `str::split` does:
/// `n` separators give `n + 1` pieces, empty ones included.
pub open spec fn split_on(s: Seq<char>, sep: char) -> Seq<Seq<char>>
    decreases s.len(),
{
    if s.len() == 0 {
        seq![Seq::empty()]
    } else {
        let prev = split_on(s.drop_last(), sep);
        if s.last() == sep {
            prev.push(Seq::empty())
        } else {
            prev.update(prev.len() - 1, prev.last().push(s.last()))
        }
    }
}

pub proof fn lemma_split_nonempty(s: Seq<char>, sep: char)
    ensures
        split_on(s, sep).len() >= 1,
    decreases s.len(),
{
    if s.len() > 0 {
        lemma_split_nonempty(s.drop_last(), sep);
    }
}

pub open spec fn views(v: Seq<String>) -> Seq<Seq<char>> {
    v.map_values(|x: String| x@)
}

/// Splits `s` on every occurrence of `sep`.
pub fn split_on_char(s: &str, sep: char) -> (r: Vec<String>)
    ensures
        views(r@) == split_on(s@, sep),
{
    let n = s.unicode_len();
    let mut pieces: Vec<String> = Vec::new();
    let mut cur = String::new();
    let mut i: usize = 0;
    while i < n
        invariant
            n == s@.len(),
            i <= n,
            views(pieces@).push(cur@) == split_on(s@.take(i as int), sep),
        decreases n - i,
    {
        let c = s.get_char(i);
        proof {
            assert(s@.take(i + 1).drop_last() =~= s@.take(i as int));
            lemma_split_nonempty(s@.take(i as int), sep);
        }
        if c == sep {
            pieces.push(cur);
            cur = String::new();
            proof {
                assert(views(pieces@).push(cur@) =~= split_on(s@.take(i + 1), sep));
            }
        } else {
            push_char(&mut cur, c);
            proof {
                assert(views(pieces@).push(cur@) =~= split_on(s@.take(i + 1), sep));
            }
        }
        i = i + 1;
    }
    pieces.push(cur);
    proof {
        assert(s@.take(n as int) =~= s@);
    }
    pieces
}


/// Whether two strings hold the same characters.
pub fn same_text(a: &str, b: &str) -> (r: bool)
    ensures
        r == (a@ == b@),
{
    let n = a.unicode_len();
    if n != b.unicode_len() {
        return false;
    }
    let mut i: usize = 0;
    while i < n
        invariant
            n == a@.len(),
            n == b@.len(),
            i <= n,
            forall|m: int| 0 <= m < i ==> a@[m] == b@[m],
        decreases n - i,
    {
        if a.get_char(i) != b.get_char(i) {
            return false;
        }
        i = i + 1;
    }
    assert(a@ =~= b@);
    true
}


/// The first index at or after `i` where `c` stands in `s`, or `s.len()`.
pub open spec fn find_from(s: Seq<char>, c: char, i: int) -> int
    decreases s.len() - i,
{
    if i < 0 || i >= s.len() {
        s.len() as int
    } else if s[i] == c {
        i
    } else {
        find_from(s, c, i + 1)
    }
}

pub proof fn lemma_find_from(s: Seq<char>, c: char, i: int)
    requires
        0 <= i <= s.len(),
    ensures
        i <= find_from(s, c, i) <= s.len(),
        find_from(s, c, i) < s.len() ==> s[find_from(s, c, i)] == c,
        forall|j: int| i <= j < find_from(s, c, i) ==> s[j] != c,
    decreases s.len() - i,
{
    if i < s.len() && s[i] != c {
        lemma_find_from(s, c, i + 1);
    }
}

/// The index of the first `c` in `s`, or the length of `s` when there is none.
pub fn find_char(s: &str, c: char) -> (r: usize)
    ensures
        r == find_from(s@, c, 0),
{
    let n = s.unicode_len();
    let mut i: usize = 0;
    while i < n
        invariant
            n == s@.len(),
            i <= n,
            find_from(s@, c, i as int) == find_from(s@, c, 0),
        decreases n - i,
    {
        if s.get_char(i) == c {
            return i;
        }
        i = i + 1;
    }
    i
}

/// Relies on `str::trim`: the result depends on the characters alone.
pub uninterp spec fn trimmed(s: Seq<char>) -> Seq<char>;

/// Relies on `str::trim`, which drops leading and trailing white space.
#[verifier::external_body]
pub(crate) fn trim_text(s: &str) -> (r: String)
    ensures
        r@ == trimmed(s@),
{
    s.trim().to_string()
}

/// Relies on `String::from_utf8_lossy`: the text depends on the bytes alone.
pub uninterp spec fn lossy_text(b: Seq<u8>) -> Seq<char>;

/// Relies on `String::from_utf8_lossy`, which decodes UTF-8 and puts a
/// replacement character in place of each invalid sequence.
#[verifier::external_body]
pub(crate) fn text_of_bytes(b: &[u8]) -> (r: String)
    ensures
        r@ == lossy_text(b@),
{
    String::from_utf8_lossy(b).into_owned()
}

/// ASCII letters compare without regard to case, as `eq_ignore_ascii_case` does.
pub open spec fn ascii_fold(c: char) -> int {
    if 65 <= (c as u32) <= 90 {
        (c as u32) + 32
    } else {
        (c as u32) as int
    }
}

pub open spec fn eq_ignore_case(a: Seq<char>, b: Seq<char>) -> bool {
    a.len() == b.len() && forall|i: int| 0 <= i < a.len() ==> ascii_fold(a[i]) == ascii_fold(b[i])
}

/// Whether `a` and `b` are equal when ASCII letters are compared without case.
pub fn same_text_ignoring_case(a: &str, b: &str) -> (r: bool)
    ensures
        r == eq_ignore_case(a@, b@),
{
    let n = a.unicode_len();
    if n != b.unicode_len() {
        return false;
    }
    let mut i: usize = 0;
    while i < n
        invariant
            n == a@.len(),
            n == b@.len(),
            i <= n,
            forall|m: int| 0 <= m < i ==> ascii_fold(a@[m]) == ascii_fold(b@[m]),
        decreases n - i,
    {
        let x = a.get_char(i) as u32;
        let y = b.get_char(i) as u32;
        let fx: u32 = if 65 <= x && x <= 90 { x + 32 } else { x };
        let fy: u32 = if 65 <= y && y <= 90 { y + 32 } else { y };
        if fx != fy {
            return false;
        }
        i = i + 1;
    }
    true
}

pub open spec fn is_digit(c: char) -> bool {
    48 <= (c as u32) <= 57
}

pub open spec fn all_digits(d: Seq<char>) -> bool {
    forall|i: int| 0 <= i < d.len() ==> is_digit(#[trigger] d[i])
}

/// The number that a non-empty run of decimal digits writes.
pub open spec fn digits_value(d: Seq<char>) -> nat
    decreases d.len(),
{
    if d.len() == 0 {
        0
    } else {
        digits_value(d.drop_last()) * 10 + ((d.last() as u32) - 48) as nat
    }
}

/// What `usize::from_str` accepts: an optional `+`, then one or more
/// decimal digits, for a value that fits in `usize`.
pub open spec fn parsed_usize(s: Seq<char>) -> Option<usize> {
    let d = unsigned_digits(s);
    if d.len() > 0 && all_digits(d) && digits_value(d) <= usize::MAX {
        Some(digits_value(d) as usize)
    } else {
        None
    }
}

/// `s` without the one `+` that may lead it.
pub open spec fn unsigned_digits(s: Seq<char>) -> Seq<char> {
    if s.len() > 0 && s[0] == '+' {
        s.skip(1)
    } else {
        s
    }
}

proof fn lemma_digits_grow(d: Seq<char>, i: int)
    requires
        0 <= i <= d.len(),
        forall|j: int| 0 <= j < d.len() ==> is_digit(#[trigger] d[j]),
    ensures
        digits_value(d.take(i)) <= digits_value(d),
    decreases d.len() - i,
{
    if i < d.len() {
        lemma_digits_grow(d, i + 1);
        assert(d.take(i + 1).drop_last() =~= d.take(i));
    } else {
        assert(d.take(i) =~= d);
    }
}

/// Reads `s` as a decimal `usize`, as `str::parse::<usize>` does.
pub fn parse_usize(s: &str) -> (r: Option<usize>)
    ensures
        r == parsed_usize(s@),
{
    let n = s.unicode_len();
    let start: usize = if n > 0 && s.get_char(0) == '+' { 1 } else { 0 };
    let ghost d = unsigned_digits(s@);
    assert(d =~= s@.skip(start as int));
    if start == n {
        return None;
    }
    let mut acc: usize = 0;
    let mut i: usize = start;
    while i < n
        invariant
            n == s@.len(),
            start <= i <= n,
            d == s@.skip(start as int),
            d == unsigned_digits(s@),
            forall|j: int| 0 <= j < i - start ==> is_digit(#[trigger] d[j]),
            acc == digits_value(d.take(i - start)),
        decreases n - i,
    {
        let c = s.get_char(i);
        let x = c as u32;
        if !(48 <= x && x <= 57) {
            assert(!is_digit(d[i - start]));
            assert(!all_digits(d));
            return None;
        }
        let digit: usize = (x - 48) as usize;
        proof {
            assert(d.take(i - start + 1).drop_last() =~= d.take(i - start));
            assert(d[i - start] == c);
        }
        if acc > (usize::MAX - digit) / 10 {
            proof {
                assert(acc * 10 + digit > usize::MAX) by (nonlinear_arith)
                    requires
                        acc > (usize::MAX - digit) / 10,
                        digit <= 9,
                ;
                let t = d.take(i - start + 1);
                assert(t.last() == c);
                assert(digits_value(t) == acc * 10 + digit);
                if all_digits(d) {
                    lemma_digits_grow(d, i - start + 1);
                }
            }
            return None;
        }
        proof {
            assert(acc * 10 + digit <= usize::MAX) by (nonlinear_arith)
                requires
                    acc <= (usize::MAX - digit) / 10,
                    digit <= 9,
            ;
        }
        acc = acc * 10 + digit;
        i = i + 1;
    }
    assert(d.take(n - start) =~= d);
    Some(acc)
}

} // verus!
