use vstd::prelude::*;

use crate::text::push_char;

verus! {

/// The escapes the decoder knows: `%` followed by the two hex digits,
/// and the character they stand for, in the order they are applied.
pub open spec fn escape_table() -> Seq<(char, char, char)> {
    seq![
        ('2', '0', ' '),
        ('2', '1', '!'),
        ('2', '2', '"'),
        ('2', '3', '#'),
        ('2', '4', '$'),
        ('2', '5', '%'),
        ('2', '6', '&'),
        ('2', '7', '\''),
        ('2', '8', '('),
        ('2', '9', ')'),
        ('2', 'A', '*'),
        ('2', 'B', '+'),
        ('2', 'C', ','),
        ('2', 'D', '-'),
        ('2', 'E', '.'),
        ('2', 'F', '/'),
        ('3', 'A', ':'),
        ('3', 'B', ';'),
        ('3', 'C', '<'),
        ('3', 'D', '='),
        ('3', 'E', '>'),
        ('3', 'F', '?'),
        ('4', '0', '@'),
        ('5', 'B', '['),
        ('5', 'C', '\\'),
    ]
}

/// Whether `%`, `h1`, `h2` stand at position `j` of `s`.
pub open spec fn escape_at(s: Seq<char>, j: int, h1: char, h2: char) -> bool {
    0 <= j && j + 2 < s.len() && s[j] == '%' && s[j + 1] == h1 && s[j + 2] == h2
}

/// Replaces, from left to right and without overlap, every `%h1h2` in `s` by `c`.
pub open spec fn replace_escape(s: Seq<char>, h1: char, h2: char, c: char) -> Seq<char>
    decreases s.len(),
{
    if s.len() == 0 {
        s
    } else if escape_at(s, 0, h1, h2) {
        seq![c] + replace_escape(s.skip(3), h1, h2, c)
    } else {
        seq![s[0]] + replace_escape(s.skip(1), h1, h2, c)
    }
}

/// The first `k` replacements of the table, applied in order.
pub open spec fn decode_steps(s: Seq<char>, k: nat) -> Seq<char>
    decreases k,
{
    if k == 0 {
        s
    } else {
        let e = escape_table()[k - 1];
        replace_escape(decode_steps(s, (k - 1) as nat), e.0, e.1, e.2)
    }
}

/// What `url_decode` returns for `s`.
pub open spec fn url_decoded(s: Seq<char>) -> Seq<char> {
    decode_steps(s, escape_table().len())
}

/// No escape of the table occurs anywhere in `s`.
pub open spec fn has_no_known_escape(s: Seq<char>) -> bool {
    forall|j: int, k: int|
        0 <= k < escape_table().len() ==> !#[trigger] escape_at(
            s,
            j,
            escape_table()[k].0,
            escape_table()[k].1,
        )
}

proof fn lemma_replace_absent(s: Seq<char>, h1: char, h2: char, c: char)
    requires
        forall|j: int| !#[trigger] escape_at(s, j, h1, h2),
    ensures
        replace_escape(s, h1, h2, c) == s,
    decreases s.len(),
{
    if s.len() > 0 {
        let t = s.skip(1);
        assert forall|j: int| !#[trigger] escape_at(t, j, h1, h2) by {
            assert(escape_at(t, j, h1, h2) ==> escape_at(s, j + 1, h1, h2));
        }
        lemma_replace_absent(t, h1, h2, c);
        assert(!escape_at(s, 0, h1, h2));
        assert(seq![s[0]] + t =~= s);
    }
}

proof fn lemma_steps_absent(s: Seq<char>, k: nat)
    requires
        has_no_known_escape(s),
        k <= escape_table().len(),
    ensures
        decode_steps(s, k) == s,
    decreases k,
{
    if k > 0 {
        lemma_steps_absent(s, (k - 1) as nat);
        let e = escape_table()[k - 1];
        assert forall|j: int| !#[trigger] escape_at(s, j, e.0, e.1) by {
            assert(!escape_at(s, j, escape_table()[k - 1].0, escape_table()[k - 1].1));
        }
        lemma_replace_absent(s, e.0, e.1, e.2);
    }
}

/// Decoding leaves a string unchanged when none of the escapes it knows
/// occurs in it.
pub proof fn lemma_decode_without_escapes(s: Seq<char>)
    requires
        has_no_known_escape(s),
    ensures
        url_decoded(s) == s,
{
    lemma_steps_absent(s, escape_table().len());
}

/// In particular, a string without `%` decodes to itself.
pub proof fn lemma_decode_without_percent(s: Seq<char>)
    requires
        !s.contains('%'),
    ensures
        url_decoded(s) == s,
{
    assert forall|j: int, k: int| 0 <= k < escape_table().len() implies !#[trigger] escape_at(
        s,
        j,
        escape_table()[k].0,
        escape_table()[k].1,
    ) by {
        if 0 <= j < s.len() {
            assert(s[j] != '%');
        }
    }
    lemma_decode_without_escapes(s);
}

fn escapes() -> (r: Vec<(char, char, char)>)
    ensures
        r@ == escape_table(),
{
    let r = vec![
        ('2', '0', ' '),
        ('2', '1', '!'),
        ('2', '2', '"'),
        ('2', '3', '#'),
        ('2', '4', '$'),
        ('2', '5', '%'),
        ('2', '6', '&'),
        ('2', '7', '\''),
        ('2', '8', '('),
        ('2', '9', ')'),
        ('2', 'A', '*'),
        ('2', 'B', '+'),
        ('2', 'C', ','),
        ('2', 'D', '-'),
        ('2', 'E', '.'),
        ('2', 'F', '/'),
        ('3', 'A', ':'),
        ('3', 'B', ';'),
        ('3', 'C', '<'),
        ('3', 'D', '='),
        ('3', 'E', '>'),
        ('3', 'F', '?'),
        ('4', '0', '@'),
        ('5', 'B', '['),
        ('5', 'C', '\\'),
    ];
    assert(r@ =~= escape_table());
    r
}

/// One pass of `replace_escape` over a character vector.
fn replace_escape_vec(s: &Vec<char>, h1: char, h2: char, c: char) -> (r: Vec<char>)
    ensures
        r@ == replace_escape(s@, h1, h2, c),
{
    let n = s.len();
    let mut out: Vec<char> = Vec::new();
    let mut i: usize = 0;
    assert(s@.skip(0) =~= s@);
    assert(out@ + replace_escape(s@, h1, h2, c) =~= replace_escape(s@, h1, h2, c));
    while i < n
        invariant
            n == s@.len(),
            i <= n,
            out@ + replace_escape(s@.skip(i as int), h1, h2, c) == replace_escape(s@, h1, h2, c),
        decreases n - i,
    {
        let ghost rest = s@.skip(i as int);
        if n - i > 2 && s[i] == '%' && s[i + 1] == h1 && s[i + 2] == h2 {
            proof {
                assert(escape_at(rest, 0, h1, h2));
                assert(rest.skip(3) =~= s@.skip(i + 3));
                assert(out@.push(c) + replace_escape(s@.skip(i + 3), h1, h2, c) =~= out@ + (seq![c]
                    + replace_escape(rest.skip(3), h1, h2, c)));
            }
            out.push(c);
            i = i + 3;
        } else {
            proof {
                assert(!escape_at(rest, 0, h1, h2));
                assert(rest.skip(1) =~= s@.skip(i + 1));
                assert(out@.push(s@[i as int]) + replace_escape(s@.skip(i + 1), h1, h2, c) =~= out@
                    + (seq![rest[0]] + replace_escape(rest.skip(1), h1, h2, c)));
            }
            out.push(s[i]);
            i = i + 1;
        }
    }
    proof {
        assert(s@.skip(n as int) =~= Seq::<char>::empty());
        assert(out@ + Seq::<char>::empty() =~= out@);
    }
    out
}

/// The characters of `s`, in order.
pub fn chars_of(s: &str) -> (r: Vec<char>)
    ensures
        r@ == s@,
{
    let n = s.unicode_len();
    let mut r: Vec<char> = Vec::new();
    let mut i: usize = 0;
    while i < n
        invariant
            n == s@.len(),
            i <= n,
            r@ == s@.take(i as int),
        decreases n - i,
    {
        r.push(s.get_char(i));
        i = i + 1;
        assert(r@ =~= s@.take(i as int));
    }
    assert(s@.take(n as int) =~= s@);
    r
}

/// A string holding the characters of `v`.
pub fn string_of(v: &Vec<char>) -> (r: String)
    ensures
        r@ == v@,
{
    let mut r = String::new();
    let mut i: usize = 0;
    while i < v.len()
        invariant
            i <= v@.len(),
            r@ == v@.take(i as int),
        decreases v@.len() - i,
    {
        push_char(&mut r, v[i]);
        i = i + 1;
        assert(r@ =~= v@.take(i as int));
    }
    assert(v@.take(v@.len() as int) =~= v@);
    r
}

/// Decodes the percent escapes of a fixed set of ASCII punctuation
/// (`%20` to `%2F`, `%3A` to `%3F`, `%40`, `%5B`, `%5C`), one escape after
/// the other in that order; every other sequence is left as it is.
pub fn url_decode(s: &str) -> (r: String)
    ensures
        r@ == url_decoded(s@),
{
    let table = escapes();
    let mut cur = chars_of(s);
    let mut k: usize = 0;
    while k < table.len()
        invariant
            table@ == escape_table(),
            k <= table@.len(),
            cur@ == decode_steps(s@, k as nat),
        decreases table@.len() - k,
    {
        let (h1, h2, c) = table[k];
        cur = replace_escape_vec(&cur, h1, h2, c);
        k = k + 1;
    }
    string_of(&cur)
}

} // verus!
