//! Character-level helpers: whitespace, trimming, searching.

use vstd::prelude::*;
use vstd::std_specs::iter::IteratorSpec;
use vstd::string::{StrSliceExecFns, StringExecFns};

verus! {

broadcast use vstd::string::group_string_axioms;

/// The characters Unicode gives the White_Space property, which is what
/// `char::is_whitespace` and `str::trim` go by.
pub open spec fn is_ws(c: char) -> bool {
    let u = c as u32;
    (0x09 <= u && u <= 0x0D) || u == 0x20 || u == 0x85 || u == 0xA0 || u == 0x1680 || (0x2000 <= u
        && u <= 0x200A) || u == 0x2028 || u == 0x2029 || u == 0x202F || u == 0x205F || u == 0x3000
}

pub fn is_ws_exec(c: char) -> (r: bool)
    ensures
        r == is_ws(c),
{
    let u = c as u32;
    (0x09 <= u && u <= 0x0D) || u == 0x20 || u == 0x85 || u == 0xA0 || u == 0x1680 || (0x2000 <= u
        && u <= 0x200A) || u == 0x2028 || u == 0x2029 || u == 0x202F || u == 0x205F || u == 0x3000
}

/// `s` without leading and trailing whitespace.
pub open spec fn trim(s: Seq<char>) -> Seq<char>
    decreases s.len(),
{
    if s.len() > 0 && is_ws(s[0]) {
        trim(s.drop_first())
    } else if s.len() > 0 && is_ws(s.last()) {
        trim(s.drop_last())
    } else {
        s
    }
}

/// The first index at or after `from` where `c` stands, or -1.
pub open spec fn index_of(s: Seq<char>, c: char, from: int) -> int
    decreases s.len() - from,
{
    if from < 0 || from >= s.len() {
        -1
    } else if s[from] == c {
        from
    } else {
        index_of(s, c, from + 1)
    }
}

/// The first index at or after `from` where "\r\n" starts, or -1.
pub open spec fn index_of_crlf(s: Seq<char>, from: int) -> int
    decreases s.len() - from,
{
    if from < 0 || from + 1 >= s.len() {
        -1
    } else if s[from] == '\r' && s[from + 1] == '\n' {
        from
    } else {
        index_of_crlf(s, from + 1)
    }
}

pub proof fn lemma_index_of_bounds(s: Seq<char>, c: char, from: int)
    requires
        0 <= from,
    ensures
        index_of(s, c, from) == -1 || (from <= index_of(s, c, from) < s.len() && s[index_of(s, c, from)] == c),
        forall|i: int| from <= i < s.len() && (index_of(s, c, from) == -1 || i < index_of(s, c, from)) ==> s[i] != c,
    decreases s.len() - from,
{
    if from < 0 || from >= s.len() {
    } else if s[from] == c {
    } else {
        lemma_index_of_bounds(s, c, from + 1);
    }
}

pub proof fn lemma_index_of_crlf_bounds(s: Seq<char>, from: int)
    ensures
        index_of_crlf(s, from) == -1 || (0 <= from <= index_of_crlf(s, from) && index_of_crlf(s, from) + 1 < s.len()),
    decreases s.len() - from,
{
    if from < 0 || from + 1 >= s.len() {
    } else if s[from] == '\r' && s[from + 1] == '\n' {
    } else {
        lemma_index_of_crlf_bounds(s, from + 1);
    }
}

/// The characters of `s`, in order.
pub fn chars_of(s: &str) -> (r: Vec<char>)
    ensures
        r@ == s@,
{
    let mut r: Vec<char> = Vec::new();
    let mut it = s.chars();
    loop
        invariant
            r@ + it.remaining() == s@,
            it.decrease() is Some,
        ensures
            r@ == s@,
        decreases it.decrease()->0,
    {
        match it.next() {
            Some(c) => {
                r.push(c);
            },
            None => {
                assert(r@ + it.remaining() =~= r@);
                break;
            },
        }
    }
    r
}

pub fn find_char(s: &Vec<char>, c: char, from: usize) -> (r: Option<usize>)
    requires
        from <= s@.len(),
    ensures
        match r {
            Some(i) => index_of(s@, c, from as int) == i,
            None => index_of(s@, c, from as int) == -1,
        },
{
    let mut i = from;
    while i < s.len()
        invariant
            from <= i <= s@.len(),
            index_of(s@, c, from as int) == index_of(s@, c, i as int),
        decreases s@.len() - i,
    {
        if s[i] == c {
            return Some(i);
        }
        i = i + 1;
    }
    None
}

pub fn find_crlf(s: &Vec<char>, from: usize) -> (r: Option<usize>)
    requires
        from <= s@.len(),
    ensures
        match r {
            Some(i) => index_of_crlf(s@, from as int) == i,
            None => index_of_crlf(s@, from as int) == -1,
        },
{
    let mut i = from;
    while s.len() > 1 && i < s.len() - 1
        invariant
            from <= i <= s@.len(),
            index_of_crlf(s@, from as int) == index_of_crlf(s@, i as int),
        decreases s@.len() - i,
    {
        if s[i] == '\r' && s[i + 1] == '\n' {
            return Some(i);
        }
        i = i + 1;
    }
    None
}

/// `s` without leading and trailing whitespace.
pub fn trim_str(s: &str) -> (r: &str)
    ensures
        r@ == trim(s@),
{
    let cs = chars_of(s);
    let mut a: usize = 0;
    let mut b: usize = cs.len();
    assert(cs@.subrange(0, b as int) =~= cs@);
    while a < b && is_ws_exec(cs[a])
        invariant
            a <= b <= cs@.len(),
            cs@ == s@,
            trim(cs@.subrange(a as int, b as int)) == trim(s@),
        decreases b - a,
    {
        assert(cs@.subrange(a as int, b as int).drop_first() =~= cs@.subrange(a + 1, b as int));
        a = a + 1;
    }
    while a < b && is_ws_exec(cs[b - 1])
        invariant
            a <= b <= cs@.len(),
            cs@ == s@,
            a < b ==> !is_ws(cs@[a as int]),
            trim(cs@.subrange(a as int, b as int)) == trim(s@),
        decreases b - a,
    {
        let ghost t = cs@.subrange(a as int, b as int);
        assert(t[0] == cs@[a as int]);
        assert(t.drop_last() =~= cs@.subrange(a as int, b - 1));
        b = b - 1;
    }
    let r = s.substring_char(a, b);
    let ghost t = cs@.subrange(a as int, b as int);
    if a < b {
        assert(t[0] == cs@[a as int]);
        assert(t.last() == cs@[b - 1]);
    }
    assert(trim(t) == t);
    r
}

pub open spec fn digit_chars() -> Seq<char> {
    seq!['0', '1', '2', '3', '4', '5', '6', '7', '8', '9']
}

/// The decimal writing of `n`, without leading zeros.
pub open spec fn decimal(n: nat) -> Seq<char>
    decreases n,
{
    if n < 10 {
        seq![digit_chars()[n as int]]
    } else {
        decimal(n / 10).push(digit_chars()[(n % 10) as int])
    }
}

/// `n` (below 100) right-aligned in two columns.
pub open spec fn pad2(n: nat) -> Seq<char> {
    if n < 10 {
        seq![' ', digit_chars()[n as int]]
    } else {
        decimal(n)
    }
}

/// The one-character string of digit `d`.
pub fn digit_str(d: u64) -> (r: &'static str)
    requires
        d < 10,
    ensures
        r@ == seq![digit_chars()[d as int]],
{
    let table = "0123456789";
    proof {
        reveal_strlit("0123456789");
    }
    assert(table@ =~= digit_chars());
    let r = table.substring_char(d as usize, d as usize + 1);
    assert(r@ =~= seq![digit_chars()[d as int]]);
    r
}

/// `n` written in decimal.
pub fn decimal_string(n: u64) -> (r: String)
    ensures
        r@ == decimal(n as nat),
    decreases n,
{
    if n < 10 {
        String::from_str(digit_str(n))
    } else {
        let mut r = decimal_string(n / 10);
        r.append(digit_str(n % 10));
        r
    }
}

pub fn pad2_string(n: u64) -> (r: String)
    requires
        n < 100,
    ensures
        r@ == pad2(n as nat),
{
    if n < 10 {
        let space = " ";
        proof {
            reveal_strlit(" ");
        }
        let mut r = String::from_str(space);
        r.append(digit_str(n));
        assert(r@ =~= pad2(n as nat));
        r
    } else {
        decimal_string(n)
    }
}

} // verus!
