//! Character-level helpers shared by the parsers: digits, white space,
//! line splitting and trimming.

use vstd::prelude::*;

verus! {

/// An ASCII decimal digit.
pub open spec fn is_digit(c: char) -> bool {
    '0' <= c && c <= '9'
}

/// The numeric value of an ASCII digit.
pub open spec fn digit_value(c: char) -> int {
    c as int - '0' as int
}

/// A character with the Unicode `White_Space` property.
pub open spec fn is_ws(c: char) -> bool {
    let u = c as u32;
    (9 <= u && u <= 13) || u == 32 || u == 0x85 || u == 0xA0 || u == 0x1680 || (0x2000 <= u
        && u <= 0x200A) || u == 0x2028 || u == 0x2029 || u == 0x202F || u == 0x205F || u == 0x3000
}

/// Length of the run of digits that starts at `i`.
pub open spec fn digit_run(s: Seq<char>, i: int) -> nat
    decreases s.len() - i,
{
    if 0 <= i < s.len() && is_digit(s[i]) {
        1 + digit_run(s, i + 1)
    } else {
        0
    }
}

/// Length of the run of white space that starts at `i`.
pub open spec fn ws_run(s: Seq<char>, i: int) -> nat
    decreases s.len() - i,
{
    if 0 <= i < s.len() && is_ws(s[i]) {
        1 + ws_run(s, i + 1)
    } else {
        0
    }
}

/// Length of the run of white space that ends just before `e`.
pub open spec fn ws_run_back(s: Seq<char>, e: int) -> nat
    decreases e,
{
    if 0 < e <= s.len() && is_ws(s[e - 1]) {
        1 + ws_run_back(s, e - 1)
    } else {
        0
    }
}

/// Decimal value of the `n` characters of `s` that start at `i`.
pub open spec fn digits_value(s: Seq<char>, i: int, n: nat) -> nat
    decreases n,
{
    if n == 0 {
        0
    } else {
        (digits_value(s, i, (n - 1) as nat) * 10 + digit_value(s[i + n - 1])) as nat
    }
}

/// A token that ends at `k` is complete: the text ends there or white space follows.
pub open spec fn ends_token(s: Seq<char>, k: int) -> bool {
    k == s.len() || (0 <= k < s.len() && is_ws(s[k]))
}

/// `s` without leading and trailing white space.
pub open spec fn trim(s: Seq<char>) -> Seq<char> {
    let a = ws_run(s, 0) as int;
    if a == s.len() {
        Seq::empty()
    } else {
        s.subrange(a, s.len() - ws_run_back(s, s.len() as int))
    }
}

/// State of line splitting after reading some characters: the finished
/// lines and the line being read.
pub open spec fn split_state(t: Seq<char>) -> (Seq<Seq<char>>, Seq<char>)
    decreases t.len(),
{
    if t.len() == 0 {
        (Seq::empty(), Seq::empty())
    } else {
        let (done, cur) = split_state(t.drop_last());
        if t.last() == '\n' {
            (done.push(cur), Seq::empty())
        } else {
            (done, cur.push(t.last()))
        }
    }
}

/// The lines of `t`, separated by `'\n'`; a text without a newline is one line.
pub open spec fn split_lines(t: Seq<char>) -> Seq<Seq<char>> {
    split_state(t).0.push(split_state(t).1)
}

/// The lines of `t`, each trimmed.
pub open spec fn trimmed_lines_of(t: Seq<char>) -> Seq<Seq<char>> {
    split_lines(t).map_values(|l: Seq<char>| trim(l))
}

/// Appends `t` to `acc` on a line of its own, unless `acc` is empty.
pub open spec fn join_line(acc: Seq<char>, t: Seq<char>) -> Seq<char> {
    if acc.len() == 0 {
        t
    } else {
        acc + seq!['\n'] + t
    }
}

pub proof fn lemma_digit_run_bounds(s: Seq<char>, i: int)
    requires
        0 <= i <= s.len(),
    ensures
        i + digit_run(s, i) <= s.len(),
        forall|k: int| i <= k < i + digit_run(s, i) ==> is_digit(#[trigger] s[k]),
        i + digit_run(s, i) < s.len() ==> !is_digit(s[i + digit_run(s, i)]),
    decreases s.len() - i,
{
    if i < s.len() && is_digit(s[i]) {
        lemma_digit_run_bounds(s, i + 1);
    }
}

pub proof fn lemma_ws_run_bounds(s: Seq<char>, i: int)
    requires
        0 <= i <= s.len(),
    ensures
        i + ws_run(s, i) <= s.len(),
        forall|k: int| i <= k < i + ws_run(s, i) ==> is_ws(#[trigger] s[k]),
        i + ws_run(s, i) < s.len() ==> !is_ws(s[i + ws_run(s, i)]),
    decreases s.len() - i,
{
    if i < s.len() && is_ws(s[i]) {
        lemma_ws_run_bounds(s, i + 1);
    }
}

pub(crate) proof fn lemma_digits_value_monotone(s: Seq<char>, i: int, n: nat, m: nat)
    requires
        n <= m,
        forall|k: int| i <= k < i + m ==> is_digit(#[trigger] s[k]),
    ensures
        digits_value(s, i, n) <= digits_value(s, i, m),
    decreases m,
{
    if n < m {
        lemma_digits_value_monotone(s, i, n, (m - 1) as nat);
    }
}

/// Whether `c` is white space.
pub fn is_space(c: char) -> (r: bool)
    ensures
        r == is_ws(c),
{
    let u = c as u32;
    (9 <= u && u <= 13) || u == 32 || u == 0x85 || u == 0xA0 || u == 0x1680 || (0x2000 <= u
        && u <= 0x200A) || u == 0x2028 || u == 0x2029 || u == 0x202F || u == 0x205F || u == 0x3000
}

/// Whether `c` is an ASCII digit.
pub fn is_ascii_digit(c: char) -> (r: bool)
    ensures
        r == is_digit(c),
{
    '0' <= c && c <= '9'
}

/// Length of the digit run of `s` that starts at `i`.
pub fn count_digits(s: &Vec<char>, i: usize) -> (r: usize)
    requires
        i <= s@.len(),
    ensures
        r == digit_run(s@, i as int),
{
    proof {
        lemma_digit_run_bounds(s@, i as int);
    }
    let mut k = i;
    while k < s.len() && is_ascii_digit(s[k])
        invariant
            i <= k <= i + digit_run(s@, i as int),
            k <= s@.len(),
            i + digit_run(s@, i as int) <= s@.len(),
            forall|j: int| i <= j < i + digit_run(s@, i as int) ==> is_digit(#[trigger] s@[j]),
            i + digit_run(s@, i as int) < s@.len() ==> !is_digit(s@[i + digit_run(s@, i as int)]),
            digit_run(s@, k as int) == digit_run(s@, i as int) - (k - i),
        decreases s@.len() - k,
    {
        k = k + 1;
    }
    k - i
}

/// Length of the white-space run of `s` that starts at `i`.
pub fn count_spaces(s: &Vec<char>, i: usize) -> (r: usize)
    requires
        i <= s@.len(),
    ensures
        r == ws_run(s@, i as int),
{
    proof {
        lemma_ws_run_bounds(s@, i as int);
    }
    let mut k = i;
    while k < s.len() && is_space(s[k])
        invariant
            i <= k <= i + ws_run(s@, i as int),
            k <= s@.len(),
            i + ws_run(s@, i as int) <= s@.len(),
            ws_run(s@, k as int) == ws_run(s@, i as int) - (k - i),
        decreases s@.len() - k,
    {
        k = k + 1;
    }
    k - i
}

/// The value of the `n` digits of `s` at `i`, or `None` where it exceeds `u64::MAX`.
pub fn parse_digits(s: &Vec<char>, i: usize, n: usize) -> (r: Option<u64>)
    requires
        i + n <= s@.len(),
        forall|k: int| i <= k < i + n ==> is_digit(#[trigger] s@[k]),
    ensures
        digits_value(s@, i as int, n as nat) <= u64::MAX ==> r == Some(
            digits_value(s@, i as int, n as nat) as u64,
        ),
        digits_value(s@, i as int, n as nat) > u64::MAX ==> r is None,
{
    let len = s.len();
    let mut v: u64 = 0;
    let mut k: usize = 0;
    while k < n
        invariant
            len == s@.len(),
            k <= n,
            i + n <= s@.len(),
            forall|j: int| i <= j < i + n ==> is_digit(#[trigger] s@[j]),
            v == digits_value(s@, i as int, k as nat),
        decreases n - k,
    {
        assert(is_digit(s@[i + k]));
        let d = (s[i + k] as u32 - '0' as u32) as u64;
        let next = v.checked_mul(10);
        match next {
            None => {
                proof {
                    lemma_digits_value_monotone(s@, i as int, (k + 1) as nat, n as nat);
                }
                return None;
            },
            Some(w) => match w.checked_add(d) {
                None => {
                    proof {
                        lemma_digits_value_monotone(s@, i as int, (k + 1) as nat, n as nat);
                    }
                    return None;
                },
                Some(x) => {
                    v = x;
                },
            },
        }
        k = k + 1;
    }
    Some(v)
}

/// Relies on `str::chars`, collected into a `Vec`: the characters of `s` in order.
#[verifier::external_body]
pub(crate) fn chars_of(s: &str) -> (r: Vec<char>)
    ensures
        r@ == s@,
{
    s.chars().collect()
}

/// Relies on `String`'s `FromIterator<&char>`: the string of the characters of `v` in order.
#[verifier::external_body]
pub(crate) fn string_of(v: &Vec<char>) -> (r: String)
    ensures
        r@ == v@,
{
    v.iter().collect()
}

/// The characters of `v` from `a` up to `b`.
pub fn copy_range(v: &Vec<char>, a: usize, b: usize) -> (r: Vec<char>)
    requires
        a <= b <= v@.len(),
    ensures
        r@ == v@.subrange(a as int, b as int),
{
    let mut r: Vec<char> = Vec::new();
    let mut k = a;
    while k < b
        invariant
            a <= k <= b <= v@.len(),
            r@ == v@.subrange(a as int, k as int),
        decreases b - k,
    {
        r.push(v[k]);
        assert(r@ =~= v@.subrange(a as int, k + 1));
        k = k + 1;
    }
    r
}

/// Length of the white-space run of `s` that ends just before `e`.
pub fn count_spaces_back(s: &Vec<char>, e: usize) -> (r: usize)
    requires
        e <= s@.len(),
    ensures
        r == ws_run_back(s@, e as int),
        r <= e,
{
    let mut k = e;
    proof {
        lemma_ws_run_back_bound(s@, e as int);
    }
    while k > 0 && is_space(s[k - 1])
        invariant
            k <= e <= s@.len(),
            ws_run_back(s@, k as int) + (e - k) == ws_run_back(s@, e as int),
        decreases k,
    {
        k = k - 1;
    }
    e - k
}

proof fn lemma_ws_run_back_bound(s: Seq<char>, e: int)
    requires
        0 <= e <= s.len(),
    ensures
        ws_run_back(s, e) <= e,
    decreases e,
{
    if 0 < e && is_ws(s[e - 1]) {
        lemma_ws_run_back_bound(s, e - 1);
    }
}

/// `v` without leading and trailing white space.
pub fn trim_chars(v: &Vec<char>) -> (r: Vec<char>)
    ensures
        r@ == trim(v@),
{
    let a = count_spaces(v, 0);
    if a == v.len() {
        return Vec::new();
    }
    proof {
        lemma_ws_run_bounds(v@, 0);
        lemma_trim_back(v@, a as int);
    }
    let b = count_spaces_back(v, v.len());
    copy_range(v, a, v.len() - b)
}

/// Where not all of `s` is white space, the trailing run stops short of the leading one.
proof fn lemma_trim_back(s: Seq<char>, a: int)
    requires
        a == ws_run(s, 0),
        a < s.len(),
        !is_ws(s[a]),
    ensures
        a + ws_run_back(s, s.len() as int) < s.len(),
{
    lemma_ws_run_back_stops(s, s.len() as int, a);
}

proof fn lemma_ws_run_back_stops(s: Seq<char>, e: int, a: int)
    requires
        0 <= a < e <= s.len(),
        !is_ws(s[a]),
    ensures
        ws_run_back(s, e) < e - a,
    decreases e,
{
    if is_ws(s[e - 1]) {
        lemma_ws_run_back_stops(s, e - 1, a);
    }
}

/// The lines of `t`, each trimmed of surrounding white space.
pub fn trimmed_lines(t: &Vec<char>) -> (r: Vec<Vec<char>>)
    ensures
        r@.map_values(|l: Vec<char>| l@) == trimmed_lines_of(t@),
{
    let mut done: Vec<Vec<char>> = Vec::new();
    let mut cur: Vec<char> = Vec::new();
    let mut k: usize = 0;
    while k < t.len()
        invariant
            k <= t@.len(),
            done@.map_values(|l: Vec<char>| l@) == split_state(t@.subrange(0, k as int)).0.map_values(
                |l: Seq<char>| trim(l),
            ),
            cur@ == split_state(t@.subrange(0, k as int)).1,
        decreases t@.len() - k,
    {
        let ghost prev = t@.subrange(0, k as int);
        assert(t@.subrange(0, k + 1).drop_last() =~= prev);
        if t[k] == '\n' {
            let line = trim_chars(&cur);
            let ghost old_dv = done@.map_values(|l: Vec<char>| l@);
            done.push(line);
            assert(done@.map_values(|l: Vec<char>| l@) =~= old_dv.push(trim(cur@)));
            cur = Vec::new();
            assert(done@.map_values(|l: Vec<char>| l@) =~= split_state(t@.subrange(0, k + 1)).0.map_values(
                |l: Seq<char>| trim(l),
            ));
        } else {
            cur.push(t[k]);
        }
        k = k + 1;
    }
    assert(t@.subrange(0, k as int) =~= t@);
    let line = trim_chars(&cur);
    let ghost old_dv = done@.map_values(|l: Vec<char>| l@);
    done.push(line);
    assert(done@.map_values(|l: Vec<char>| l@) =~= old_dv.push(trim(cur@)));
    assert(done@.map_values(|l: Vec<char>| l@) =~= trimmed_lines_of(t@));
    done
}

/// The character of a decimal digit.
pub open spec fn digit_char(n: nat) -> char {
    ((n % 10) + 48) as u8 as char
}

/// Decimal digits of `n`, without leading zeros.
pub open spec fn dec_digits(n: nat) -> Seq<char>
    decreases n,
{
    if n < 10 {
        seq![digit_char(n)]
    } else {
        dec_digits(n / 10).push(digit_char(n % 10))
    }
}

/// Decimal text of `i`, with a leading `-` where it is negative.
pub open spec fn int_dec(i: int) -> Seq<char> {
    if i < 0 {
        seq!['-'] + dec_digits((-i) as nat)
    } else {
        dec_digits(i as nat)
    }
}

/// `s` preceded by as many `'0'` as bring it to `w` characters.
pub open spec fn zero_pad(s: Seq<char>, w: nat) -> Seq<char> {
    if s.len() < w {
        Seq::new((w - s.len()) as nat, |_i: int| '0') + s
    } else {
        s
    }
}

/// Relies on std's `Display` for `i64`: decimal digits, `-` before a negative value.
#[verifier::external_body]
pub(crate) fn int_text(n: i64) -> (r: String)
    ensures
        r@ == int_dec(n as int),
{
    n.to_string()
}

/// Appends `text` to `acc` on a line of its own, unless `acc` is empty.
pub fn push_line(acc: &mut String, text: &str)
    ensures
        final(acc)@ == join_line(old(acc)@, text@),
{
    proof {
        reveal_strlit("\n");
    }
    if acc.as_str().unicode_len() > 0 {
        acc.append("\n");
    }
    acc.append(text);
    assert(acc@ =~= join_line(old(acc)@, text@));
}

} // verus!
