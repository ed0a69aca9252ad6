//! Sequences of characters: searching, splitting and trimming.
//!
//! The specifications speak of `Seq<char>`, the view of `str` and `String`.
//! The executable functions work on `&[char]`, so that a scan is linear.

use vstd::prelude::*;
use vstd::slice::slice_subrange;

verus! {

/// `pat` stands in `hay` at index `i`.
pub open spec fn occurs_at(hay: Seq<char>, pat: Seq<char>, i: int) -> bool {
    &&& 0 <= i
    &&& i + pat.len() <= hay.len()
    &&& hay.subrange(i, i + pat.len()) == pat
}

/// `pat` stands in `hay` at index `i` and at no index before it.
pub open spec fn first_occurrence(hay: Seq<char>, pat: Seq<char>, i: int) -> bool {
    &&& occurs_at(hay, pat, i)
    &&& forall|j: int| 0 <= j < i ==> !occurs_at(hay, pat, j)
}

/// The index of the first occurrence of `pat` in `hay`, if there is one.
pub open spec fn find(hay: Seq<char>, pat: Seq<char>) -> Option<int> {
    if exists|i: int| first_occurrence(hay, pat, i) {
        Some(choose|i: int| first_occurrence(hay, pat, i))
    } else {
        None
    }
}

/// What stands before and after the first occurrence of `pat` in `hay`.
pub open spec fn split_once(hay: Seq<char>, pat: Seq<char>) -> Option<(Seq<char>, Seq<char>)> {
    match find(hay, pat) {
        Some(i) => Some((hay.subrange(0, i), hay.subrange(i + pat.len(), hay.len() as int))),
        None => None,
    }
}

/// `c` stands in `s` at index `i` and at no index after it.
pub open spec fn last_occurrence(s: Seq<char>, c: char, i: int) -> bool {
    &&& 0 <= i < s.len()
    &&& s[i] == c
    &&& forall|j: int| i < j < s.len() ==> s[j] != c
}

/// The index of the last `c` in `s`, if there is one.
pub open spec fn rfind(s: Seq<char>, c: char) -> Option<int> {
    if exists|i: int| last_occurrence(s, c, i) {
        Some(choose|i: int| last_occurrence(s, c, i))
    } else {
        None
    }
}

/// A first occurrence is the one that `find` gives.
pub proof fn lemma_find_first(hay: Seq<char>, pat: Seq<char>, i: int)
    requires
        first_occurrence(hay, pat, i),
    ensures
        find(hay, pat) == Some(i),
{
    let j = choose|j: int| first_occurrence(hay, pat, j);
    assert(first_occurrence(hay, pat, j));
    if j < i {
        assert(!occurs_at(hay, pat, j));
    }
    if i < j {
        assert(!occurs_at(hay, pat, i));
    }
}

/// Where `pat` stands nowhere, `find` gives nothing.
pub proof fn lemma_find_none(hay: Seq<char>, pat: Seq<char>)
    requires
        forall|i: int| !occurs_at(hay, pat, i),
    ensures
        find(hay, pat) is None,
{
}

/// Below any occurrence there is a first one.
proof fn lemma_some_first_occurrence(hay: Seq<char>, pat: Seq<char>, i: int)
    requires
        occurs_at(hay, pat, i),
    ensures
        exists|k: int| first_occurrence(hay, pat, k),
    decreases i,
{
    if exists|j: int| 0 <= j < i && occurs_at(hay, pat, j) {
        let j = choose|j: int| 0 <= j < i && occurs_at(hay, pat, j);
        lemma_some_first_occurrence(hay, pat, j);
    } else {
        assert(first_occurrence(hay, pat, i));
    }
}

/// What `find` gives is a first occurrence, and it gives nothing only where
/// `pat` stands nowhere.
pub proof fn lemma_find_sound(hay: Seq<char>, pat: Seq<char>)
    ensures
        match find(hay, pat) {
            Some(i) => first_occurrence(hay, pat, i),
            None => forall|i: int| !occurs_at(hay, pat, i),
        },
{
    if find(hay, pat) is None {
        assert forall|i: int| !occurs_at(hay, pat, i) by {
            if occurs_at(hay, pat, i) {
                lemma_some_first_occurrence(hay, pat, i);
            }
        }
    }
}

/// Where `pat` stands after `before` and at no index before that, the text
/// parts there.
pub proof fn lemma_split_once_at(before: Seq<char>, pat: Seq<char>, after: Seq<char>)
    requires
        forall|j: int| 0 <= j < before.len() ==> !occurs_at(before + pat + after, pat, j),
    ensures
        split_once(before + pat + after, pat) == Some((before, after)),
{
    let s = before + pat + after;
    let at = before.len() as int;
    assert(s.subrange(at, at + pat.len()) =~= pat);
    assert(first_occurrence(s, pat, at));
    lemma_find_first(s, pat, at);
    assert(s.subrange(0, at) =~= before);
    assert(s.subrange(at + pat.len(), s.len() as int) =~= after);
}

/// A text parts at the first `c` in it.
pub proof fn lemma_split_once_at_char(before: Seq<char>, c: char, after: Seq<char>)
    requires
        !before.contains(c),
    ensures
        split_once(before + seq![c] + after, seq![c]) == Some((before, after)),
{
    let s = before + seq![c] + after;
    assert forall|j: int| 0 <= j < before.len() implies !occurs_at(s, seq![c], j) by {
        if occurs_at(s, seq![c], j) {
            assert(s.subrange(j, j + 1)[0] == c);
            assert(before[j] == c);
        }
    }
    lemma_split_once_at(before, seq![c], after);
}

/// A last occurrence is the one that `rfind` gives.
pub proof fn lemma_rfind_last(s: Seq<char>, c: char, i: int)
    requires
        last_occurrence(s, c, i),
    ensures
        rfind(s, c) == Some(i),
{
    let j = choose|j: int| last_occurrence(s, c, j);
    assert(last_occurrence(s, c, j));
    if i < j {
        assert(s[j] != c);
    }
    if j < i {
        assert(s[i] != c);
    }
}

/// Where `c` stands nowhere, `rfind` gives nothing.
pub proof fn lemma_rfind_none(s: Seq<char>, c: char)
    requires
        !s.contains(c),
    ensures
        rfind(s, c) is None,
{
}

/// A part of a part is a part.
pub proof fn lemma_subrange_of_subrange(s: Seq<char>, a: int, b: int, c: int, d: int)
    requires
        0 <= a <= b <= s.len(),
        0 <= c <= d <= b - a,
    ensures
        s.subrange(a, b).subrange(c, d) == s.subrange(a + c, a + d),
{
    assert(s.subrange(a, b).subrange(c, d) =~= s.subrange(a + c, a + d));
}

/// Copies the characters of `s` into a vector.
pub fn to_chars(s: &str) -> (v: Vec<char>)
    ensures
        v@ == s@,
{
    broadcast use vstd::string::group_string_axioms;

    let mut v: Vec<char> = Vec::new();
    for c in it: s.chars()
        invariant
            it.seq() == s@,
            v@ == s@.take(it.index() as int),
    {
        v.push(c);
        assert(v@ =~= s@.take(it.index() + 1));
    }
    assert(s@.take(s@.len() as int) =~= s@);
    v
}

/// Whether `pat` stands in `hay` at index `i`.
pub fn occurs(hay: &[char], pat: &[char], i: usize) -> (r: bool)
    requires
        i + pat@.len() <= hay@.len(),
    ensures
        r == occurs_at(hay@, pat@, i as int),
{
    let n: usize = hay.len();
    let m: usize = pat.len();
    let mut k: usize = 0;
    while k < m
        invariant
            k <= m,
            n == hay@.len(),
            m == pat@.len(),
            i + m <= n,
            forall|t: int| 0 <= t < k ==> hay@[i + t] == pat@[t],
        decreases m - k,
    {
        if hay[i + k] != pat[k] {
            assert(hay@.subrange(i as int, i + m)[k as int] == hay@[i + k]);
            return false;
        }
        k = k + 1;
    }
    assert(hay@.subrange(i as int, i + m) =~= pat@);
    true
}

/// Whether two slices hold the same characters.
pub fn same(a: &[char], b: &[char]) -> (r: bool)
    ensures
        r == (a@ == b@),
{
    if a.len() != b.len() {
        return false;
    }
    assert(a@.subrange(0, a@.len() as int) =~= a@);
    occurs(a, b, 0)
}

/// Whether `s` holds the characters of `literal`.
pub fn is_literal(s: &[char], literal: &str) -> (r: bool)
    ensures
        r == (s@ == literal@),
{
    broadcast use vstd::string::group_string_axioms;

    let n: usize = s.len();
    let mut i: usize = 0;
    for c in it: literal.chars()
        invariant
            it.seq() == literal@,
            n == s@.len(),
            i == it.index(),
            i <= n,
            s@.take(i as int) == literal@.take(i as int),
    {
        if i == n || s[i] != c {
            return false;
        }
        assert(s@.take(i + 1) =~= s@.take(i as int).push(s@[i as int]));
        assert(literal@.take(i + 1) =~= literal@.take(i as int).push(literal@[i as int]));
        i = i + 1;
    }
    assert(literal@.take(i as int) =~= literal@);
    if i == n {
        assert(s@.take(i as int) =~= s@);
        true
    } else {
        false
    }
}

/// The index of the first occurrence of `pat` in `hay`.
pub fn find_first(hay: &[char], pat: &[char]) -> (r: Option<usize>)
    ensures
        match r {
            Some(i) => find(hay@, pat@) == Some(i as int) && i + pat@.len() <= hay@.len(),
            None => find(hay@, pat@) is None,
        },
{
    let n: usize = hay.len();
    let m: usize = pat.len();
    if m > n {
        proof {
            lemma_find_none(hay@, pat@);
        }
        return None;
    }
    let last: usize = n - m;
    let mut i: usize = 0;
    loop
        invariant
            n == hay@.len(),
            m == pat@.len(),
            last == n - m,
            i <= last,
            forall|j: int| 0 <= j < i ==> !occurs_at(hay@, pat@, j),
        ensures
            forall|j: int| 0 <= j <= last ==> !occurs_at(hay@, pat@, j),
        decreases last - i,
    {
        if occurs(hay, pat, i) {
            proof {
                lemma_find_first(hay@, pat@, i as int);
            }
            return Some(i);
        }
        if i == last {
            break;
        }
        i = i + 1;
    }
    proof {
        lemma_find_none(hay@, pat@);
    }
    None
}

/// The index in `text` of the first occurrence of `pat` between `start` and
/// `end`.
pub fn find_between(text: &[char], start: usize, end: usize, pat: &[char]) -> (r: Option<usize>)
    requires
        start <= end <= text@.len(),
    ensures
        match r {
            Some(i) => {
                &&& start <= i
                &&& i + pat@.len() <= end
                &&& find(text@.subrange(start as int, end as int), pat@) == Some(i - start)
            },
            None => find(text@.subrange(start as int, end as int), pat@) is None,
        },
{
    match find_first(slice_subrange(text, start, end), pat) {
        Some(k) => Some(start + k),
        None => None,
    }
}

/// The index of the last `c` in `s`.
pub fn find_last(s: &[char], c: char) -> (r: Option<usize>)
    ensures
        match r {
            Some(i) => rfind(s@, c) == Some(i as int) && i < s@.len(),
            None => rfind(s@, c) is None,
        },
{
    let mut i: usize = s.len();
    while i > 0
        invariant
            i <= s@.len(),
            forall|j: int| i <= j < s@.len() ==> s@[j] != c,
        decreases i,
    {
        i = i - 1;
        if s[i] == c {
            proof {
                lemma_rfind_last(s@, c, i as int);
            }
            return Some(i);
        }
    }
    proof {
        lemma_rfind_none(s@, c);
    }
    None
}

/// White space, by the Unicode property `White_Space`.
pub open spec fn is_blank(c: char) -> bool {
    let u = c as u32;
    ||| 0x09 <= u <= 0x0D
    ||| u == 0x20
    ||| u == 0x85
    ||| u == 0xA0
    ||| u == 0x1680
    ||| 0x2000 <= u <= 0x200A
    ||| u == 0x2028
    ||| u == 0x2029
    ||| u == 0x202F
    ||| u == 0x205F
    ||| u == 0x3000
}

/// ASCII white space: space, tab, line feed, form feed and carriage return.
pub open spec fn is_ascii_blank(c: char) -> bool {
    c == ' ' || c == '\t' || c == '\n' || c == '\x0C' || c == '\r'
}

/// `s` without the white space it starts with.
pub open spec fn trim_start(s: Seq<char>) -> Seq<char>
    decreases s.len(),
{
    if s.len() > 0 && is_blank(s[0]) {
        trim_start(s.drop_first())
    } else {
        s
    }
}

/// `s` without the white space it ends with.
pub open spec fn trim_end(s: Seq<char>) -> Seq<char>
    decreases s.len(),
{
    if s.len() > 0 && is_blank(s.last()) {
        trim_end(s.drop_last())
    } else {
        s
    }
}

/// `s` without the white space at either end.
pub open spec fn trim(s: Seq<char>) -> Seq<char> {
    trim_end(trim_start(s))
}

/// `trim_start` takes a run of white space from the start of `s`, and what
/// is left does not start with white space. Gives the length of the run.
pub proof fn lemma_trim_start(s: Seq<char>) -> (a: int)
    ensures
        0 <= a <= s.len(),
        trim_start(s) == s.subrange(a, s.len() as int),
        forall|k: int| 0 <= k < a ==> is_blank(s[k]),
        a < s.len() ==> !is_blank(s[a]),
    decreases s.len(),
{
    if s.len() > 0 && is_blank(s[0]) {
        let rest = s.drop_first();
        let a = lemma_trim_start(rest);
        assert(rest.subrange(a, rest.len() as int) =~= s.subrange(a + 1, s.len() as int));
        assert forall|k: int| 0 <= k < a + 1 implies is_blank(s[k]) by {
            if k > 0 {
                assert(s[k] == rest[k - 1]);
            }
        }
        a + 1
    } else {
        assert(s.subrange(0, s.len() as int) =~= s);
        0
    }
}

/// `trim_end` takes a run of white space from the end of `s`, and what is
/// left does not end with white space. Gives the index where the run starts.
pub proof fn lemma_trim_end(s: Seq<char>) -> (b: int)
    ensures
        0 <= b <= s.len(),
        trim_end(s) == s.subrange(0, b),
        forall|k: int| b <= k < s.len() ==> is_blank(s[k]),
        0 < b ==> !is_blank(s[b - 1]),
    decreases s.len(),
{
    if s.len() > 0 && is_blank(s.last()) {
        let rest = s.drop_last();
        let b = lemma_trim_end(rest);
        assert(rest.subrange(0, b) =~= s.subrange(0, b));
        assert forall|k: int| b <= k < s.len() implies is_blank(s[k]) by {
            if k < s.len() - 1 {
                assert(s[k] == rest[k]);
            }
        }
        b
    } else {
        assert(s.subrange(0, s.len() as int) =~= s);
        s.len() as int
    }
}

/// `trim` gives the part of `s` between the white space that it starts with
/// and the white space that it ends with: all that stands before and after
/// that part is white space, and the part neither starts nor ends with it.
/// Gives the bounds of the part.
pub proof fn lemma_trim(s: Seq<char>) -> (bounds: (int, int))
    ensures
        0 <= bounds.0 <= bounds.1 <= s.len(),
        trim(s) == s.subrange(bounds.0, bounds.1),
        forall|k: int| 0 <= k < bounds.0 ==> is_blank(s[k]),
        forall|k: int| bounds.1 <= k < s.len() ==> is_blank(s[k]),
        bounds.0 < bounds.1 ==> !is_blank(s[bounds.0]) && !is_blank(s[bounds.1 - 1]),
{
    let a = lemma_trim_start(s);
    let rest = s.subrange(a, s.len() as int);
    let b = lemma_trim_end(rest);
    assert(rest.subrange(0, b) =~= s.subrange(a, a + b));
    assert forall|k: int| a + b <= k < s.len() implies is_blank(s[k]) by {
        assert(s[k] == rest[k - a]);
    }
    if 0 < b {
        assert(rest[b - 1] == s[a + b - 1]);
    }
    (a, a + b)
}

/// Whether `c` is white space.
pub fn blank(c: char) -> (r: bool)
    ensures
        r == is_blank(c),
{
    let u: u32 = c as u32;
    (0x09 <= u && u <= 0x0D) || u == 0x20 || u == 0x85 || u == 0xA0 || u == 0x1680 || (0x2000 <= u
        && u <= 0x200A) || u == 0x2028 || u == 0x2029 || u == 0x202F || u == 0x205F || u == 0x3000
}

/// Whether `c` is ASCII white space.
pub fn ascii_blank(c: char) -> (r: bool)
    ensures
        r == is_ascii_blank(c),
{
    c == ' ' || c == '\t' || c == '\n' || c == '\x0C' || c == '\r'
}

/// The bounds, within `start..end`, of that part of `text` without the white
/// space at either end.
pub fn trim_between(text: &[char], start: usize, end: usize) -> (r: (usize, usize))
    requires
        start <= end <= text@.len(),
    ensures
        start <= r.0 <= r.1 <= end,
        text@.subrange(r.0 as int, r.1 as int) == trim(text@.subrange(start as int, end as int)),
{
    let mut a: usize = start;
    while a < end && blank(text[a])
        invariant
            start <= a <= end <= text@.len(),
            trim_start(text@.subrange(start as int, end as int)) == trim_start(
                text@.subrange(a as int, end as int),
            ),
        decreases end - a,
    {
        assert(text@.subrange(a as int, end as int).drop_first() =~= text@.subrange(
            a + 1,
            end as int,
        ));
        a = a + 1;
    }
    let mut b: usize = end;
    while a < b && blank(text[b - 1])
        invariant
            a <= b <= end <= text@.len(),
            trim_end(text@.subrange(a as int, end as int)) == trim_end(
                text@.subrange(a as int, b as int),
            ),
        decreases b - a,
    {
        assert(text@.subrange(a as int, b as int).drop_last() =~= text@.subrange(
            a as int,
            b - 1,
        ));
        b = b - 1;
    }
    (a, b)
}

/// `a..b` bounds a token of `line`: a run of characters without ASCII white
/// space that no longer run holds.
pub open spec fn is_token(line: Seq<char>, a: int, b: int) -> bool {
    &&& 0 <= a < b <= line.len()
    &&& forall|k: int| a <= k < b ==> !is_ascii_blank(#[trigger] line[k])
    &&& (a == 0 || is_ascii_blank(line[a - 1]))
    &&& (b == line.len() || is_ascii_blank(line[b]))
}

/// Two tokens of one line that start at the same index end at the same index.
pub proof fn lemma_token_end_unique(line: Seq<char>, a: int, b: int, d: int)
    requires
        is_token(line, a, b),
        is_token(line, a, d),
    ensures
        b == d,
{
    if b < d {
        assert(!is_ascii_blank(line[b]));
    }
    if d < b {
        assert(!is_ascii_blank(line[d]));
    }
}

/// No token starts inside another one.
pub proof fn lemma_token_start_outside(line: Seq<char>, a: int, b: int, c: int, d: int)
    requires
        is_token(line, a, b),
        is_token(line, c, d),
        a < c,
    ensures
        b < c,
{
    if c <= b {
        assert(!is_ascii_blank(line[c - 1]));
        assert(!is_ascii_blank(line[c]));
    }
}

/// The character that stands for a digit.
pub open spec fn digit(d: nat) -> char {
    if d == 0 {
        '0'
    } else if d == 1 {
        '1'
    } else if d == 2 {
        '2'
    } else if d == 3 {
        '3'
    } else if d == 4 {
        '4'
    } else if d == 5 {
        '5'
    } else if d == 6 {
        '6'
    } else if d == 7 {
        '7'
    } else if d == 8 {
        '8'
    } else {
        '9'
    }
}

/// A number in decimal digits, without leading zeros.
pub open spec fn decimal(n: nat) -> Seq<char>
    decreases n,
{
    if n < 10 {
        seq![digit(n)]
    } else {
        decimal(n / 10).push(digit(n % 10))
    }
}

/// The digit that a character stands for.
pub open spec fn digit_value(c: char) -> nat {
    if c == '1' {
        1
    } else if c == '2' {
        2
    } else if c == '3' {
        3
    } else if c == '4' {
        4
    } else if c == '5' {
        5
    } else if c == '6' {
        6
    } else if c == '7' {
        7
    } else if c == '8' {
        8
    } else if c == '9' {
        9
    } else {
        0
    }
}

/// The number that decimal digits stand for.
pub open spec fn number(digits: Seq<char>) -> nat
    decreases digits.len(),
{
    if digits.len() == 0 {
        0
    } else {
        number(digits.drop_last()) * 10 + digit_value(digits.last())
    }
}

/// A number in decimal is made of digits alone, starts with `0` only where
/// it is zero, and stands for the number.
pub proof fn lemma_decimal_reads_back(n: nat)
    ensures
        decimal(n).len() >= 1,
        forall|k: int| 0 <= k < decimal(n).len() ==> '0' <= #[trigger] decimal(n)[k] <= '9',
        n > 0 ==> decimal(n)[0] != '0',
        number(decimal(n)) == n,
    decreases n,
{
    if n < 10 {
        assert(decimal(n).drop_last() =~= Seq::<char>::empty());
        assert(number(decimal(n).drop_last()) == 0);
    } else {
        lemma_decimal_reads_back(n / 10);
        let front = decimal(n / 10);
        assert(decimal(n).drop_last() =~= front);
        assert(decimal(n).last() == digit(n % 10));
        assert(decimal(n)[0] == front[0]);
        assert forall|k: int| 0 <= k < decimal(n).len() implies '0' <= #[trigger] decimal(n)[k]
            <= '9' by {
            if k < front.len() {
                assert(decimal(n)[k] == front[k]);
            }
        }
    }
}

/// The text that stands for a digit.
fn digit_text(d: usize) -> (s: &'static str)
    requires
        d < 10,
    ensures
        s@ == seq![digit(d as nat)],
{
    proof {
        reveal_strlit("0");
        reveal_strlit("1");
        reveal_strlit("2");
        reveal_strlit("3");
        reveal_strlit("4");
        reveal_strlit("5");
        reveal_strlit("6");
        reveal_strlit("7");
        reveal_strlit("8");
        reveal_strlit("9");
    }
    let s = if d == 0 {
        "0"
    } else if d == 1 {
        "1"
    } else if d == 2 {
        "2"
    } else if d == 3 {
        "3"
    } else if d == 4 {
        "4"
    } else if d == 5 {
        "5"
    } else if d == 6 {
        "6"
    } else if d == 7 {
        "7"
    } else if d == 8 {
        "8"
    } else {
        "9"
    };
    assert(s@ =~= seq![digit(d as nat)]);
    s
}

/// A number in decimal digits.
pub fn to_decimal(n: usize) -> (s: String)
    ensures
        s@ == decimal(n as nat),
    decreases n,
{
    if n < 10 {
        String::from_str(digit_text(n))
    } else {
        let mut s = to_decimal(n / 10);
        let last = digit_text(n % 10);
        s.append(last);
        assert(s@ =~= decimal((n / 10) as nat).push(digit((n % 10) as nat)));
        s
    }
}

} // verus!
