use vstd::prelude::*;
use vstd::string::*;

verus! {

/// Splitting text on '|', scanned from the left: the fields already closed,
/// and the field still open.
pub open spec fn split_acc(s: Seq<char>) -> (Seq<Seq<char>>, Seq<char>)
    decreases s.len(),
{
    if s.len() == 0 {
        (Seq::empty(), Seq::empty())
    } else {
        let (done, cur) = split_acc(s.drop_last());
        if s.last() == '|' {
            (done.push(cur), Seq::empty())
        } else {
            (done, cur.push(s.last()))
        }
    }
}

/// The fields of a line: the text between consecutive '|' characters.
pub open spec fn split_fields(s: Seq<char>) -> Seq<Seq<char>> {
    split_acc(s).0.push(split_acc(s).1)
}

pub open spec fn is_space(c: char) -> bool {
    c == ' ' || c == '\t' || c == '\r' || c == '\n'
}

/// `t` is `s` without its leading and trailing whitespace.
pub open spec fn is_trim_of(s: Seq<char>, t: Seq<char>) -> bool {
    exists|lo: int, hi: int|
        0 <= lo <= hi <= s.len() && t == s.subrange(lo, hi) && (forall|k: int| 0 <= k < lo ==> is_space(#[trigger] s[k]))
            && (forall|k: int| hi <= k < s.len() ==> is_space(#[trigger] s[k])) && (lo < hi ==> !is_space(s[lo])
            && !is_space(s[hi - 1]))
}

/// `s` without its leading and trailing whitespace.
pub open spec fn trimmed(s: Seq<char>) -> Seq<char> {
    choose|t: Seq<char>| is_trim_of(s, t)
}

pub proof fn lemma_trimmed(s: Seq<char>, t: Seq<char>)
    requires
        is_trim_of(s, t),
    ensures
        trimmed(s) == t,
{
    let u = trimmed(s);
    assert(is_trim_of(s, u));
    let (lo1, hi1) = choose|lo: int, hi: int|
        0 <= lo <= hi <= s.len() && t == s.subrange(lo, hi) && (forall|k: int| 0 <= k < lo ==> is_space(#[trigger] s[k]))
            && (forall|k: int| hi <= k < s.len() ==> is_space(#[trigger] s[k])) && (lo < hi ==> !is_space(s[lo])
            && !is_space(s[hi - 1]));
    let (lo2, hi2) = choose|lo: int, hi: int|
        0 <= lo <= hi <= s.len() && u == s.subrange(lo, hi) && (forall|k: int| 0 <= k < lo ==> is_space(#[trigger] s[k]))
            && (forall|k: int| hi <= k < s.len() ==> is_space(#[trigger] s[k])) && (lo < hi ==> !is_space(s[lo])
            && !is_space(s[hi - 1]));
    if lo1 < hi1 && lo2 < hi2 {
        assert(lo1 >= lo2 && lo2 >= lo1) by {
            if lo1 < lo2 { assert(is_space(s[lo1])); }
            if lo2 < lo1 { assert(is_space(s[lo2])); }
        }
        assert(hi1 <= hi2 && hi2 <= hi1) by {
            if hi1 > hi2 { assert(is_space(s[hi1 - 1])); }
            if hi2 > hi1 { assert(is_space(s[hi2 - 1])); }
        }
        assert(t =~= u);
    } else if lo1 < hi1 {
        if lo1 < lo2 { assert(is_space(s[lo1])); } else { assert(is_space(s[lo1])); }
    } else if lo2 < hi2 {
        if lo2 < lo1 { assert(is_space(s[lo2])); } else { assert(is_space(s[lo2])); }
    } else {
        assert(t =~= u);
    }
}

pub open spec fn is_digit(c: char) -> bool {
    '0' <= c && c <= '9'
}

/// The number written by a string of decimal digits.
pub open spec fn digits_value(s: Seq<char>) -> int
    decreases s.len(),
{
    if s.len() == 0 {
        0
    } else {
        10 * digits_value(s.drop_last()) + (s.last() as int - '0' as int)
    }
}

/// The `u32` that `s` writes in decimal, if it is one: at least one digit,
/// nothing but digits, and no more than `u32::MAX`.
pub open spec fn decimal_u32(s: Seq<char>) -> Option<u32> {
    if s.len() > 0 && (forall|k: int| 0 <= k < s.len() ==> is_digit(#[trigger] s[k])) && digits_value(s)
        <= u32::MAX as int {
        Some(digits_value(s) as u32)
    } else {
        None
    }
}

proof fn lemma_digits_value_grows(s: Seq<char>, i: int)
    requires
        0 <= i <= s.len(),
        forall|k: int| 0 <= k < s.len() ==> is_digit(#[trigger] s[k]),
    ensures
        digits_value(s) >= digits_value(s.take(i)) >= 0,
    decreases s.len(),
{
    if s.len() > 0 {
        if i == s.len() {
            assert(s.take(i) =~= s);
            lemma_digits_value_grows(s.drop_last(), 0);
        } else {
            lemma_digits_value_grows(s.drop_last(), i);
            assert(s.drop_last().take(i) =~= s.take(i));
        }
    } else {
        assert(s.take(i) =~= s);
    }
}

/// The characters of `s`, in one pass.
pub fn chars_of(s: &str) -> (r: Vec<char>)
    ensures
        r@ == s@,
{
    let mut v: Vec<char> = Vec::new();
    for c in iter: s.chars()
        invariant
            v@.len() == iter.index(),
            iter.seq() == s@,
            forall|i: int| 0 <= i < v@.len() ==> v@[i] == iter.seq()[i],
    {
        v.push(c);
    }
    assert(v@ =~= s@);
    v
}

/// Splits a line into its '|'-separated fields.
pub fn split_line(line: &str) -> (r: Vec<String>)
    ensures
        r@.len() == split_fields(line@).len(),
        forall|k: int| 0 <= k < r@.len() ==> (#[trigger] r@[k])@ == split_fields(line@)[k],
{
    let chars = chars_of(line);
    let n = chars.len();
    let mut fields: Vec<String> = Vec::new();
    let mut start: usize = 0;
    let mut i: usize = 0;
    while i < n
        invariant
            n == line@.len(),
            chars@ == line@,
            start <= i <= n,
            fields@.len() == split_acc(line@.take(i as int)).0.len(),
            forall|k: int| 0 <= k < fields@.len() ==> (#[trigger] fields@[k])@ == split_acc(line@.take(i as int)).0[k],
            split_acc(line@.take(i as int)).1 == line@.subrange(start as int, i as int),
        decreases n - i,
    {
        let c = chars[i];
        proof {
            assert(line@.take(i + 1).drop_last() =~= line@.take(i as int));
            assert(line@.take(i + 1).last() == c);
        }
        if c == '|' {
            let f = line.substring_char(start, i);
            fields.push(f.to_owned());
            start = i + 1;
            proof {
                assert(line@.subrange(start as int, i + 1) =~= Seq::<char>::empty());
            }
        } else {
            proof {
                assert(line@.subrange(start as int, i + 1) =~= line@.subrange(start as int, i as int).push(c));
            }
        }
        i = i + 1;
    }
    let last = line.substring_char(start, n);
    fields.push(last.to_owned());
    proof {
        assert(line@.take(n as int) =~= line@);
    }
    fields
}

/// The text without leading and trailing whitespace.
pub fn trim_text(s: &str) -> (r: String)
    ensures
        is_trim_of(s@, r@),
        r@ == trimmed(s@),
{
    let chars = chars_of(s);
    let n = chars.len();
    let mut lo: usize = 0;
    while lo < n && is_space_char(chars[lo])
        invariant
            n == s@.len(),
            chars@ == s@,
            lo <= n,
            forall|k: int| 0 <= k < lo ==> is_space(#[trigger] s@[k]),
        decreases n - lo,
    {
        lo = lo + 1;
    }
    let mut hi: usize = n;
    while hi > lo && is_space_char(chars[hi - 1])
        invariant
            n == s@.len(),
            chars@ == s@,
            lo <= hi <= n,
            forall|k: int| hi <= k < n ==> is_space(#[trigger] s@[k]),
            lo < n ==> !is_space(s@[lo as int]),
        decreases hi,
    {
        hi = hi - 1;
    }
    let r = s.substring_char(lo, hi).to_owned();
    proof {
        assert(0 <= lo <= hi <= s@.len() && r@ == s@.subrange(lo as int, hi as int));
        lemma_trimmed(s@, r@);
    }
    r
}

fn is_space_char(c: char) -> (r: bool)
    ensures
        r == is_space(c),
{
    c == ' ' || c == '\t' || c == '\r' || c == '\n'
}

/// Reads a decimal `u32`: digits only, at least one, at most `u32::MAX`.
pub fn parse_u32(s: &str) -> (r: Option<u32>)
    ensures
        r == decimal_u32(s@),
{
    let chars = chars_of(s);
    let n = chars.len();
    if n == 0 {
        return None;
    }
    let mut acc: u64 = 0;
    let mut i: usize = 0;
    while i < n
        invariant
            n == s@.len(),
            chars@ == s@,
            n > 0,
            i <= n,
            forall|k: int| 0 <= k < i ==> is_digit(#[trigger] s@[k]),
            acc as int == digits_value(s@.take(i as int)),
            acc <= u32::MAX,
        decreases n - i,
    {
        let c = chars[i];
        if !('0' <= c && c <= '9') {
            return None;
        }
        let d = (c as u32 - '0' as u32) as u64;
        proof {
            assert(s@.take(i + 1).drop_last() =~= s@.take(i as int));
        }
        acc = acc * 10 + d;
        if acc > 4294967295u64 {
            proof {
                assert forall|k: int| 0 <= k < i + 1 implies is_digit(#[trigger] s@.take(i + 1)[k]) by {}
                if forall|k: int| 0 <= k < s@.len() ==> is_digit(#[trigger] s@[k]) {
                    lemma_digits_value_grows(s@, i + 1);
                }
            }
            return None;
        }
        i = i + 1;
    }
    proof {
        assert(s@.take(n as int) =~= s@);
    }
    Some(acc as u32)
}

} // verus!
