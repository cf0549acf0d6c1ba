//! Text: slash trimming, path joining and decimal numbers.

use vstd::prelude::*;

verus! {

/// `s` without the slashes at its front.
pub open spec fn trim_start(s: Seq<char>) -> Seq<char>
    decreases s.len(),
{
    if s.len() > 0 && s[0] == '/' {
        trim_start(s.drop_first())
    } else {
        s
    }
}

/// `s` without the slashes at its end.
pub open spec fn trim_end(s: Seq<char>) -> Seq<char>
    decreases s.len(),
{
    if s.len() > 0 && s.last() == '/' {
        trim_end(s.drop_last())
    } else {
        s
    }
}

/// `relative` under the directory `base`: with a slash between them, unless
/// the directory is empty or ends in one.
pub open spec fn joined(base: Seq<char>, relative: Seq<char>) -> Seq<char> {
    if base.len() == 0 || base.last() == '/' {
        base + relative
    } else {
        base.push('/') + relative
    }
}

/// The digit `d`.
pub open spec fn digit(d: nat) -> char {
    (48 + d) as char
}

/// `v` in decimal.
pub open spec fn decimal(v: nat) -> Seq<char>
    decreases v,
{
    if v < 10 {
        seq![digit(v)]
    } else {
        decimal(v / 10).push(digit(v % 10))
    }
}

/// Whether `s` ends in `end`.
pub open spec fn ends_in(s: Seq<char>, end: Seq<char>) -> bool {
    s.len() >= end.len() && s.skip(s.len() - end.len()) == end
}

/// Text without the slashes at its front does not begin with one, and ends as
/// the text does, unless the end begins with a slash itself.
pub proof fn trimmed_text_keeps_its_end(s: Seq<char>, end: Seq<char>)
    ensures
        trim_start(s).len() > 0 ==> trim_start(s)[0] != '/',
        ends_in(s, end) && end.len() > 0 && end[0] != '/' ==> ends_in(trim_start(s), end),
    decreases s.len(),
{
    if s.len() > 0 && s[0] == '/' {
        let rest = s.drop_first();
        trimmed_text_keeps_its_end(rest, end);
        if ends_in(s, end) && end.len() > 0 && end[0] != '/' {
            assert(s.skip(s.len() - end.len())[0] == s[s.len() - end.len()]);
            assert(s.len() > end.len());
            assert(rest.skip(rest.len() - end.len()) =~= s.skip(s.len() - end.len()));
        }
    }
}

proof fn lemma_trim_start(s: Seq<char>, n: int)
    requires
        0 <= n <= s.len(),
        forall|i: int| 0 <= i < n ==> s[i] == '/',
        n < s.len() ==> s[n] != '/',
    ensures
        trim_start(s) == s.skip(n),
    decreases n,
{
    if n == 0 {
        assert(s.skip(0) =~= s);
    } else {
        let rest = s.drop_first();
        assert forall|i: int| 0 <= i < n - 1 implies rest[i] == '/' by {
            assert(rest[i] == s[i + 1]);
        }
        lemma_trim_start(rest, n - 1);
        assert(s.skip(n) =~= rest.skip(n - 1));
    }
}

proof fn lemma_trim_end(s: Seq<char>, n: int)
    requires
        0 <= n <= s.len(),
        forall|i: int| n <= i < s.len() ==> s[i] == '/',
        n > 0 ==> s[n - 1] != '/',
    ensures
        trim_end(s) == s.take(n),
    decreases s.len() - n,
{
    if n == s.len() {
        assert(s.take(n) =~= s);
    } else {
        let rest = s.drop_last();
        lemma_trim_end(rest, n);
        assert(s.take(n) =~= rest.take(n));
    }
}

/// The part of `s` behind the slashes at its front.
pub fn trim_start_slashes(s: &str) -> (res: &str)
    ensures
        res@ == trim_start(s@),
{
    let len: usize = s.unicode_len();
    let mut n: usize = 0;
    while n < len && s.get_char(n) == '/'
        invariant
            n <= len,
            len == s@.len(),
            forall|i: int| 0 <= i < n ==> s@[i] == '/',
        decreases len - n,
    {
        n = n + 1;
    }
    proof {
        lemma_trim_start(s@, n as int);
        assert(s@.subrange(n as int, len as int) =~= s@.skip(n as int));
    }
    s.substring_char(n, len)
}

/// The part of `s` before the slashes at its end.
pub fn trim_end_slashes(s: &str) -> (res: &str)
    ensures
        res@ == trim_end(s@),
{
    let len: usize = s.unicode_len();
    let mut n: usize = len;
    while n > 0 && s.get_char(n - 1) == '/'
        invariant
            n <= len,
            len == s@.len(),
            forall|i: int| n <= i < len ==> s@[i] == '/',
        decreases n,
    {
        n = n - 1;
    }
    proof {
        lemma_trim_end(s@, n as int);
        assert(s@.subrange(0, n as int) =~= s@.take(n as int));
    }
    s.substring_char(0, n)
}

/// `relative` under the directory `base`.
pub fn join(base: &str, relative: &str) -> (res: String)
    ensures
        res@ == joined(base@, relative@),
{
    let len: usize = base.unicode_len();
    let mut out = String::from_str(base);
    if len > 0 && base.get_char(len - 1) != '/' {
        proof {
            reveal_strlit("/");
        }
        out.append("/");
        assert(out@ =~= base@.push('/'));
    }
    out.append(relative);
    out
}

fn digit_text(d: u64) -> (res: &'static str)
    requires
        d < 10,
    ensures
        res@ == seq![digit(d as nat)],
{
    proof {
        reveal_strlit("0");
        reveal_strlit("1");
        reveal_strlit("2");
        reveal_strlit("3");
        reveal_strlit("4");
        reveal_strlit("5");
        reveal_strlit("6");
        reveal_strlit("7");
        reveal_strlit("8");
        reveal_strlit("9");
    }
    let res: &'static str = match d {
        0 => "0",
        1 => "1",
        2 => "2",
        3 => "3",
        4 => "4",
        5 => "5",
        6 => "6",
        7 => "7",
        8 => "8",
        _ => "9",
    };
    assert(res@ =~= seq![digit(d as nat)]);
    res
}

/// `v` in decimal.
pub fn decimal_text(v: u64) -> (res: String)
    ensures
        res@ == decimal(v as nat),
    decreases v,
{
    if v < 10 {
        String::from_str(digit_text(v))
    } else {
        let mut out = decimal_text(v / 10);
        out.append(digit_text(v % 10));
        assert(out@ =~= decimal(v as nat));
        out
    }
}

/// A text with a number behind it.
pub fn with_number(before: &str, v: u64) -> (res: String)
    ensures
        res@ == before@ + decimal(v as nat),
{
    let mut res = String::from_str(before);
    res.append(decimal_text(v).as_str());
    res
}

} // verus!
