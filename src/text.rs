//! Text helpers for the exported document: decimal numbers and sample names.
use vstd::prelude::*;

verus! {

pub open spec fn digit_char(d: nat) -> char {
    if d == 0 { '0' }
    else if d == 1 { '1' }
    else if d == 2 { '2' }
    else if d == 3 { '3' }
    else if d == 4 { '4' }
    else if d == 5 { '5' }
    else if d == 6 { '6' }
    else if d == 7 { '7' }
    else if d == 8 { '8' }
    else { '9' }
}

/// The decimal digits of `n`, most significant first, with no leading zero.
pub open spec fn decimal(n: nat) -> Seq<char>
    decreases n,
{
    if n < 10 {
        seq![digit_char(n)]
    } else {
        decimal(n / 10).push(digit_char(n % 10))
    }
}

fn digit_str(d: usize) -> (r: &'static str)
    requires
        d < 10,
    ensures
        r@ == seq![digit_char(d as nat)],
{
    proof {
        reveal_strlit("0");
        reveal_strlit("1");
        reveal_strlit("2");
        reveal_strlit("3");
        reveal_strlit("4");
        reveal_strlit("5");
        reveal_strlit("6");
        reveal_strlit("7");
        reveal_strlit("8");
        reveal_strlit("9");
    }
    if d == 0 { "0" }
    else if d == 1 { "1" }
    else if d == 2 { "2" }
    else if d == 3 { "3" }
    else if d == 4 { "4" }
    else if d == 5 { "5" }
    else if d == 6 { "6" }
    else if d == 7 { "7" }
    else if d == 8 { "8" }
    else {
        assert(d == 9);
        "9"
    }
}

/// `n` written in decimal.
pub fn to_decimal(n: usize) -> (r: String)
    ensures
        r@ == decimal(n as nat),
    decreases n,
{
    if n < 10 {
        let r = String::from_str(digit_str(n));
        assert(r@ =~= decimal(n as nat));
        r
    } else {
        let mut r = to_decimal(n / 10);
        r.append(digit_str(n % 10));
        assert(r@ =~= decimal(n as nat));
        r
    }
}

/// Index just after the last `'/'` of `s`, or `0` when there is none.
pub open spec fn base_start(s: Seq<char>, k: int) -> int
    decreases k,
{
    if k <= 0 {
        0
    } else if s[k - 1] == '/' {
        k
    } else {
        base_start(s, k - 1)
    }
}

/// Index of the last `'.'` in `s` after position `from`, or `s.len()`.
pub open spec fn stem_end(s: Seq<char>, from: int, k: int) -> int
    decreases k - from,
{
    if k <= from + 1 {
        s.len() as int
    } else if s[k - 1] == '.' {
        k - 1
    } else {
        stem_end(s, from, k - 1)
    }
}

/// The name part of a file: what follows its last `'/'`.
pub open spec fn base_name(s: Seq<char>) -> Seq<char> {
    s.subrange(base_start(s, s.len() as int), s.len() as int)
}

/// The sample name of a file: its name part up to the last `'.'` (a `'.'`
/// that starts the name does not count). A name part that is empty, `.` or
/// `..` names no file, and gives none.
pub open spec fn file_stem(s: Seq<char>) -> Option<Seq<char>> {
    let from = base_start(s, s.len() as int);
    let base = base_name(s);
    if base.len() == 0 || base == seq!['.'] || base == seq!['.', '.'] {
        None
    } else {
        Some(s.subrange(from, stem_end(s, from, s.len() as int)))
    }
}

proof fn lemma_base_start(s: Seq<char>, k: int)
    requires
        0 <= k <= s.len(),
    ensures
        0 <= base_start(s, k) <= k,
    decreases k,
{
    if k > 0 {
        lemma_base_start(s, k - 1);
    }
}

proof fn lemma_stem_end(s: Seq<char>, from: int, k: int)
    requires
        0 <= from <= k <= s.len(),
    ensures
        from <= stem_end(s, from, k) <= s.len(),
    decreases k - from,
{
    if k > from + 1 {
        lemma_stem_end(s, from, k - 1);
    }
}

/// The sample name of a file, as `file_stem` states it.
pub fn sample_name(file: &str) -> (r: Option<String>)
    ensures
        r matches Some(name) ==> file_stem(file@) == Some(name@),
        r is None ==> file_stem(file@) is None,
{
    let n = file.unicode_len();
    let mut from: usize = n;
    while from > 0 && file.get_char(from - 1) != '/'
        invariant
            n == file@.len(),
            from <= n,
            base_start(file@, n as int) == base_start(file@, from as int),
        decreases from,
    {
        from = from - 1;
    }
    proof {
        lemma_base_start(file@, n as int);
    }
    let base_len = n - from;
    if base_len == 0 || (base_len == 1 && file.get_char(from) == '.') || (base_len == 2
        && file.get_char(from) == '.' && file.get_char(from + 1) == '.') {
        proof {
            let base = base_name(file@);
            if base_len == 1 {
                assert(base =~= seq!['.']);
            }
            if base_len == 2 {
                assert(base =~= seq!['.', '.']);
            }
        }
        return None;
    }
    proof {
        let base = base_name(file@);
        assert(base.len() == base_len);
        if base_len == 1 {
            assert(base[0] == file@[from as int]);
        }
        if base_len == 2 {
            assert(base[0] == file@[from as int]);
            assert(base[1] == file@[from + 1]);
        }
    }
    let mut end: usize = n;
    let mut k: usize = n;
    while k > from && k - 1 > from && file.get_char(k - 1) != '.'
        invariant
            n == file@.len(),
            from <= k <= n,
            from == base_start(file@, n as int),
            stem_end(file@, from as int, n as int) == stem_end(file@, from as int, k as int),
        decreases k,
    {
        k = k - 1;
    }
    if k > from && k - 1 > from {
        end = k - 1;
    }
    proof {
        lemma_stem_end(file@, from as int, n as int);
    }
    let stem = file.substring_char(from, end);
    Some(String::from_str(stem))
}

} // verus!
