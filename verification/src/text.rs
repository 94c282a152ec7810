use vstd::prelude::*;

verus! {

/// Trusted: `String::push` appends the character `c` at the end of `s`,
/// as std documents; nothing else of the call is relied on.
#[verifier::external_body]
pub fn push_char(s: &mut String, c: char)
    ensures
        final(s)@ == old(s)@.push(c),
{
    s.push(c);
}

/// The characters of `s`, in order.
pub fn collect_chars(s: &str) -> (v: Vec<char>)
    ensures
        v@ == s@,
{
    let mut v: Vec<char> = Vec::new();
    for c in it: s.chars()
        invariant
            v@ == it.seq().take(it.index() as int),
    {
        v.push(c);
    }
    v
}

/// A string holding the characters `v[from..to]`.
pub fn string_from_chars(v: &Vec<char>, from: usize, to: usize) -> (s: String)
    requires
        from <= to <= v.len(),
    ensures
        s@ == v@.subrange(from as int, to as int),
{
    let mut s = String::new();
    let mut i = from;
    while i < to
        invariant
            from <= i <= to <= v.len(),
            s@ == v@.subrange(from as int, i as int),
        decreases to - i,
    {
        push_char(&mut s, v[i]);
        assert(v@.subrange(from as int, i + 1) =~= v@.subrange(from as int, i as int).push(v@[i as int]));
        i += 1;
    }
    s
}

/// `n` copies of the character `c`.
pub open spec fn repeat_char(c: char, n: nat) -> Seq<char> {
    Seq::new(n, |i: int| c)
}

/// A string of `n` copies of `c`.
pub fn repeat_string(c: char, n: usize) -> (s: String)
    ensures
        s@ == repeat_char(c, n as nat),
{
    let mut s = String::new();
    let mut i: usize = 0;
    while i < n
        invariant
            i <= n,
            s@ == repeat_char(c, i as nat),
        decreases n - i,
    {
        push_char(&mut s, c);
        assert(repeat_char(c, (i + 1) as nat) =~= repeat_char(c, i as nat).push(c));
        i += 1;
    }
    s
}

} // verus!

verus! {

/// A string holding the single character `c`.
pub fn char_string(c: char) -> (s: String)
    ensures
        s@ == seq![c],
{
    let mut s = String::new();
    push_char(&mut s, c);
    s
}

} // verus!

verus! {

/// Unicode `White_Space`, the property that `char::is_whitespace` tests.
pub open spec fn is_white_space(c: char) -> bool {
    ||| ('\u{9}' <= c && c <= '\u{d}')
    ||| c == ' '
    ||| c == '\u{85}'
    ||| c == '\u{a0}'
    ||| c == '\u{1680}'
    ||| ('\u{2000}' <= c && c <= '\u{200a}')
    ||| c == '\u{2028}'
    ||| c == '\u{2029}'
    ||| c == '\u{202f}'
    ||| c == '\u{205f}'
    ||| c == '\u{3000}'
}

pub fn is_white_space_char(c: char) -> (b: bool)
    ensures
        b == is_white_space(c),
{
    ('\u{9}' <= c && c <= '\u{d}') || c == ' ' || c == '\u{85}' || c == '\u{a0}' || c == '\u{1680}'
        || ('\u{2000}' <= c && c <= '\u{200a}') || c == '\u{2028}' || c == '\u{2029}' || c
        == '\u{202f}' || c == '\u{205f}' || c == '\u{3000}'
}

/// The number of leading characters of `s` equal to `c`
/// (or, with `c` absent, that are white space).
pub open spec fn lead_count(s: Seq<char>, c: Option<char>) -> nat
    decreases s.len(),
{
    if s.len() > 0 && (match c {
        Some(c) => s[0] == c,
        None => is_white_space(s[0]),
    }) {
        1 + lead_count(s.drop_first(), c)
    } else {
        0
    }
}

/// The number of trailing characters of `s` equal to `c`
/// (or, with `c` absent, that are white space).
pub open spec fn trail_count(s: Seq<char>, c: Option<char>) -> nat
    decreases s.len(),
{
    if s.len() > 0 && (match c {
        Some(c) => s.last() == c,
        None => is_white_space(s.last()),
    }) {
        1 + trail_count(s.drop_last(), c)
    } else {
        0
    }
}

/// `s` without its leading white space (`str::trim_start`).
pub open spec fn trim_start(s: Seq<char>) -> Seq<char> {
    s.skip(lead_count(s, None) as int)
}

/// `s` without its trailing white space (`str::trim_end`).
pub open spec fn trim_end(s: Seq<char>) -> Seq<char> {
    s.take(s.len() - trail_count(s, None))
}

/// `s` without leading and trailing white space (`str::trim`).
pub open spec fn trim(s: Seq<char>) -> Seq<char> {
    trim_end(trim_start(s))
}

/// `s` without the trailing characters `c` (`str::trim_end_matches`).
pub open spec fn strip_end(s: Seq<char>, c: char) -> Seq<char> {
    s.take(s.len() - trail_count(s, Some(c)))
}

/// `s` without the leading and trailing characters `c` (`str::trim_matches`).
pub open spec fn strip_both(s: Seq<char>, c: char) -> Seq<char> {
    strip_end(s.skip(lead_count(s, Some(c)) as int), c)
}

pub open spec fn starts_with(s: Seq<char>, c: char) -> bool {
    s.len() > 0 && s[0] == c
}

pub open spec fn ends_with(s: Seq<char>, c: char) -> bool {
    s.len() > 0 && s.last() == c
}

/// Every character is an ASCII digit (true of the empty string).
pub open spec fn all_digits(s: Seq<char>) -> bool {
    forall|i: int| 0 <= i < s.len() ==> '0' <= #[trigger] s[i] <= '9'
}

/// Every character is a space (true of the empty string).
pub open spec fn all_spaces(s: Seq<char>) -> bool {
    forall|i: int| 0 <= i < s.len() ==> #[trigger] s[i] == ' '
}

/// Every character is a space or a tab (true of the empty string).
pub open spec fn all_blank(s: Seq<char>) -> bool {
    forall|i: int| 0 <= i < s.len() ==> (#[trigger] s[i] == ' ' || s[i] == '\t')
}

/// The index of the first `c` in `s`, if any.
pub open spec fn find_char(s: Seq<char>, c: char) -> Option<nat>
    decreases s.len(),
{
    if s.len() == 0 {
        None
    } else if s[0] == c {
        Some(0)
    } else {
        match find_char(s.drop_first(), c) {
            Some(i) => Some(i + 1),
            None => None,
        }
    }
}

/// `s` lowercases to `br`. Among all Unicode characters only `B` and `b` lowercase to
/// `b`, and only `R` and `r` to `r`, so these four spellings are all there are.
pub open spec fn is_br(s: Seq<char>) -> bool {
    &&& s.len() == 2
    &&& (s[0] == 'b' || s[0] == 'B')
    &&& (s[1] == 'r' || s[1] == 'R')
}

proof fn lemma_lead_count_le(s: Seq<char>, c: Option<char>)
    ensures
        lead_count(s, c) <= s.len(),
    decreases s.len(),
{
    if s.len() > 0 {
        lemma_lead_count_le(s.drop_first(), c);
    }
}

proof fn lemma_trail_count_le(s: Seq<char>, c: Option<char>)
    ensures
        trail_count(s, c) <= s.len(),
    decreases s.len(),
{
    if s.len() > 0 {
        lemma_trail_count_le(s.drop_last(), c);
    }
}

fn char_matches(x: char, c: Option<char>) -> (b: bool)
    ensures
        b == (match c {
            Some(c) => x == c,
            None => is_white_space(x),
        }),
{
    match c {
        Some(c) => x == c,
        None => is_white_space_char(x),
    }
}

/// The number of leading characters of `v[from..to]` that match `c`.
fn lead_count_exec(v: &Vec<char>, from: usize, to: usize, c: Option<char>) -> (n: usize)
    requires
        from <= to <= v.len(),
    ensures
        n == lead_count(v@.subrange(from as int, to as int), c),
        from + n <= to,
{
    let mut i = from;
    while i < to && char_matches(v[i], c)
        invariant
            from <= i <= to <= v.len(),
            lead_count(v@.subrange(from as int, to as int), c) == (i - from) + lead_count(
                v@.subrange(i as int, to as int),
                c,
            ),
        decreases to - i,
    {
        let ghost sub = v@.subrange(i as int, to as int);
        assert(sub.drop_first() =~= v@.subrange(i + 1, to as int));
        i += 1;
    }
    proof {
        lemma_lead_count_le(v@.subrange(i as int, to as int), c);
    }
    i - from
}

/// The number of trailing characters of `v[from..to]` that match `c`.
fn trail_count_exec(v: &Vec<char>, from: usize, to: usize, c: Option<char>) -> (n: usize)
    requires
        from <= to <= v.len(),
    ensures
        n == trail_count(v@.subrange(from as int, to as int), c),
        from + n <= to,
{
    let mut j = to;
    while j > from && char_matches(v[j - 1], c)
        invariant
            from <= j <= to <= v.len(),
            trail_count(v@.subrange(from as int, to as int), c) == (to - j) + trail_count(
                v@.subrange(from as int, j as int),
                c,
            ),
        decreases j - from,
    {
        let ghost sub = v@.subrange(from as int, j as int);
        assert(sub.drop_last() =~= v@.subrange(from as int, j - 1));
        j -= 1;
    }
    proof {
        lemma_trail_count_le(v@.subrange(from as int, j as int), c);
    }
    to - j
}

/// `str::trim_start`.
pub fn trim_start_exec(s: &str) -> (r: String)
    ensures
        r@ == trim_start(s@),
{
    let v = collect_chars(s);
    let n = lead_count_exec(&v, 0, v.len(), None);
    assert(v@.subrange(0, v@.len() as int) =~= v@);
    let r = string_from_chars(&v, n, v.len());
    assert(r@ =~= trim_start(s@));
    r
}

/// `str::trim`.
pub fn trim_exec(s: &str) -> (r: String)
    ensures
        r@ == trim(s@),
{
    let v = collect_chars(s);
    let n = lead_count_exec(&v, 0, v.len(), None);
    assert(v@.subrange(0, v@.len() as int) =~= v@);
    let m = trail_count_exec(&v, n, v.len(), None);
    assert(v@.subrange(n as int, v@.len() as int) =~= trim_start(s@));
    let r = string_from_chars(&v, n, v.len() - m);
    assert(r@ =~= trim(s@));
    r
}

/// `str::trim_end_matches` for one character.
pub fn strip_end_exec(s: &str, c: char) -> (r: String)
    ensures
        r@ == strip_end(s@, c),
{
    let v = collect_chars(s);
    let m = trail_count_exec(&v, 0, v.len(), Some(c));
    assert(v@.subrange(0, v@.len() as int) =~= v@);
    let r = string_from_chars(&v, 0, v.len() - m);
    assert(r@ =~= strip_end(s@, c));
    r
}

/// `str::trim_matches` for one character.
pub fn strip_both_exec(s: &str, c: char) -> (r: String)
    ensures
        r@ == strip_both(s@, c),
{
    let v = collect_chars(s);
    let n = lead_count_exec(&v, 0, v.len(), Some(c));
    assert(v@.subrange(0, v@.len() as int) =~= v@);
    let m = trail_count_exec(&v, n, v.len(), Some(c));
    assert(v@.subrange(n as int, v@.len() as int) =~= s@.skip(lead_count(s@, Some(c)) as int));
    let r = string_from_chars(&v, n, v.len() - m);
    assert(r@ =~= strip_both(s@, c));
    r
}

pub fn starts_with_exec(s: &str, c: char) -> (b: bool)
    ensures
        b == starts_with(s@, c),
{
    s.unicode_len() > 0 && s.get_char(0) == c
}

pub fn ends_with_exec(s: &str, c: char) -> (b: bool)
    ensures
        b == ends_with(s@, c),
{
    let n = s.unicode_len();
    n > 0 && s.get_char(n - 1) == c
}

pub fn is_empty_exec(s: &str) -> (b: bool)
    ensures
        b == (s@.len() == 0),
{
    s.unicode_len() == 0
}

pub fn all_digits_exec(s: &str) -> (b: bool)
    ensures
        b == all_digits(s@),
{
    let v = collect_chars(s);
    let mut i: usize = 0;
    while i < v.len()
        invariant
            v@ == s@,
            i <= v.len(),
            all_digits(v@.take(i as int)),
        decreases v.len() - i,
    {
        if !('0' <= v[i] && v[i] <= '9') {
            assert(!('0' <= s@[i as int] <= '9'));
            return false;
        }
        i += 1;
        assert(forall|j: int| 0 <= j < i ==> v@.take(i as int)[j] == v@.take(i - 1)[j] || j == i - 1);
    }
    assert(v@.take(i as int) =~= s@);
    true
}

pub fn all_spaces_exec(s: &str) -> (b: bool)
    ensures
        b == all_spaces(s@),
{
    let v = collect_chars(s);
    let mut i: usize = 0;
    while i < v.len()
        invariant
            v@ == s@,
            i <= v.len(),
            forall|j: int| 0 <= j < i ==> v@[j] == ' ',
        decreases v.len() - i,
    {
        if v[i] != ' ' {
            return false;
        }
        i += 1;
    }
    true
}

pub fn all_blank_exec(s: &str) -> (b: bool)
    ensures
        b == all_blank(s@),
{
    let v = collect_chars(s);
    let mut i: usize = 0;
    while i < v.len()
        invariant
            v@ == s@,
            i <= v.len(),
            forall|j: int| 0 <= j < i ==> (v@[j] == ' ' || v@[j] == '\t'),
        decreases v.len() - i,
    {
        if v[i] != ' ' && v[i] != '\t' {
            return false;
        }
        i += 1;
    }
    true
}

/// `s` split at its first `c`: the text before it and the text after it.
pub fn split_once_exec(s: &str, c: char) -> (r: Option<(String, String)>)
    ensures
        match find_char(s@, c) {
            Some(i) => r matches Some((a, b)) && a@ == s@.take(i as int) && b@ == s@.skip(i + 1int),
            None => r is None,
        },
{
    let v = collect_chars(s);
    let mut i: usize = 0;
    assert(s@.skip(0) =~= s@);
    while i < v.len()
        invariant
            v@ == s@,
            i <= v.len(),
            find_char(s@, c) == match find_char(s@.skip(i as int), c) {
                Some(k) => Some((k + i) as nat),
                None => None::<nat>,
            },
        decreases v.len() - i,
    {
        let ghost sub = s@.skip(i as int);
        if v[i] == c {
            let a = string_from_chars(&v, 0, i);
            let b = string_from_chars(&v, i + 1, v.len());
            assert(a@ =~= s@.take(i as int));
            assert(b@ =~= s@.skip(i + 1));
            return Some((a, b));
        }
        assert(sub.drop_first() =~= s@.skip(i + 1));
        i += 1;
    }
    None
}

pub fn is_br_exec(s: &str) -> (b: bool)
    ensures
        b == is_br(s@),
{
    if s.unicode_len() != 2 {
        return false;
    }
    let c0 = s.get_char(0);
    let c1 = s.get_char(1);
    (c0 == 'b' || c0 == 'B') && (c1 == 'r' || c1 == 'R')
}


/// A run of digits is any number of ASCII digits, however long: `all_digits`
/// holds exactly where every character lies between `0` and `9`.
pub proof fn law_digit_runs(s: Seq<char>)
    ensures
        all_digits(s) <==> (forall|i: int| 0 <= i < s.len() ==> '0' <= #[trigger] s[i] && s[i]
            <= '9'),
{
}

} // verus!
