//! Character-level helpers on strings, each proved against a spec over `Seq<char>`.
use vstd::prelude::*;
use vstd::string::*;

verus! {

/// `p` is a prefix of `s`.
pub open spec fn has_prefix(s: Seq<char>, p: Seq<char>) -> bool {
    p.len() <= s.len() && s.subrange(0, p.len() as int) == p
}

/// `s` with every backslash turned into a forward slash.
pub open spec fn normalized(s: Seq<char>) -> Seq<char> {
    s.map_values(|c: char| if c == '\\' { '/' } else { c })
}

/// The segments joined with `/` between consecutive ones.
pub open spec fn join_slash(parts: Seq<Seq<char>>) -> Seq<char>
    decreases parts.len(),
{
    if parts.len() == 0 {
        Seq::empty()
    } else if parts.len() == 1 {
        parts[0]
    } else {
        join_slash(parts.drop_last()) + seq!['/'] + parts.last()
    }
}

/// The character of a decimal digit.
pub open spec fn digit_char(d: nat) -> char {
    if d == 0 { '0' }
    else if d == 1 { '1' }
    else if d == 2 { '2' }
    else if d == 3 { '3' }
    else if d == 4 { '4' }
    else if d == 5 { '5' }
    else if d == 6 { '6' }
    else if d == 7 { '7' }
    else if d == 8 { '8' }
    else { '9' }
}

/// The decimal representation of `n`, without leading zeros.
pub open spec fn decimal(n: nat) -> Seq<char>
    decreases n,
{
    if n < 10 {
        seq![digit_char(n)]
    } else {
        decimal(n / 10) + seq![digit_char(n % 10)]
    }
}

/// Copies the characters of `s` into a vector.
pub fn chars_of(s: &str) -> (r: Vec<char>)
    ensures
        r@ == s@,
{
    let n = s.unicode_len();
    let mut v: Vec<char> = Vec::new();
    let mut i: usize = 0;
    while i < n
        invariant
            n == s@.len(),
            i <= n,
            v@ == s@.subrange(0, i as int),
        decreases n - i,
    {
        v.push(s.get_char(i));
        i += 1;
        assert(v@ =~= s@.subrange(0, i as int));
    }
    assert(v@ =~= s@);
    v
}

/// Equality of two string slices.
pub fn str_eq(a: &str, b: &str) -> (r: bool)
    ensures
        r == (a@ == b@),
{
    let n = a.unicode_len();
    if n != b.unicode_len() {
        return false;
    }
    let mut i: usize = 0;
    while i < n
        invariant
            n == a@.len(),
            n == b@.len(),
            i <= n,
            forall|j: int| 0 <= j < i ==> a@[j] == b@[j],
        decreases n - i,
    {
        if a.get_char(i) != b.get_char(i) {
            return false;
        }
        i += 1;
    }
    assert(a@ =~= b@);
    true
}

/// Whether `s` begins with `p`.
pub fn starts_with(s: &str, p: &str) -> (r: bool)
    ensures
        r == has_prefix(s@, p@),
{
    let n = s.unicode_len();
    let m = p.unicode_len();
    if m > n {
        return false;
    }
    let mut i: usize = 0;
    while i < m
        invariant
            n == s@.len(),
            m == p@.len(),
            m <= n,
            i <= m,
            forall|j: int| 0 <= j < i ==> s@[j] == p@[j],
        decreases m - i,
    {
        if s.get_char(i) != p.get_char(i) {
            assert(s@.subrange(0, m as int)[i as int] != p@[i as int]);
            return false;
        }
        i += 1;
    }
    assert(s@.subrange(0, m as int) =~= p@);
    true
}

/// A copy of `s` in which every `\` became `/`.
pub fn normalize_separators(s: &str) -> (r: String)
    ensures
        r@ == normalized(s@),
{
    let n = s.unicode_len();
    let mut out = String::new();
    let mut start: usize = 0;
    let mut i: usize = 0;
    while i < n
        invariant
            n == s@.len(),
            start <= i <= n,
            out@ == normalized(s@.subrange(0, start as int)),
            forall|j: int| start <= j < i ==> s@[j] != '\\',
        decreases n - i,
    {
        if s.get_char(i) == '\\' {
            let piece = s.substring_char(start, i);
            proof {
                reveal_strlit("/");
            }
            out.append(piece);
            out.append("/");
            assert(normalized(s@.subrange(0, i as int + 1)) =~= normalized(
                s@.subrange(0, start as int),
            ) + piece@ + seq!['/']);
            start = i + 1;
        }
        i += 1;
    }
    let rest = s.substring_char(start, n);
    out.append(rest);
    assert(normalized(s@) =~= normalized(s@.subrange(0, start as int)) + rest@);
    out
}

/// Joins the segments with `/`.
pub fn join_with_slash(parts: &Vec<String>) -> (r: String)
    ensures
        r@ == join_slash(parts@.map_values(|p: String| p@)),
{
    let ghost views = parts@.map_values(|p: String| p@);
    let mut out = String::new();
    let mut i: usize = 0;
    while i < parts.len()
        invariant
            views == parts@.map_values(|p: String| p@),
            i <= parts.len(),
            out@ == join_slash(views.subrange(0, i as int)),
        decreases parts.len() - i,
    {
        let ghost before = views.subrange(0, i as int);
        let ghost after = views.subrange(0, i as int + 1);
        assert(after.drop_last() =~= before);
        proof {
            reveal_strlit("/");
        }
        if i > 0 {
            out.append("/");
        }
        out.append(parts[i].as_str());
        proof {
            if i == 0 {
                assert(out@ =~= after[0]);
            }
        }
        i += 1;
    }
    assert(views.subrange(0, parts.len() as int) =~= views);
    out
}

/// The one-character string of a decimal digit.
fn digit_str(d: u128) -> (r: &'static str)
    requires
        d < 10,
    ensures
        r@ == seq![digit_char(d as nat)],
{
    proof {
        reveal_strlit("0");
        reveal_strlit("1");
        reveal_strlit("2");
        reveal_strlit("3");
        reveal_strlit("4");
        reveal_strlit("5");
        reveal_strlit("6");
        reveal_strlit("7");
        reveal_strlit("8");
        reveal_strlit("9");
    }
    let r = if d == 0 { "0" }
    else if d == 1 { "1" }
    else if d == 2 { "2" }
    else if d == 3 { "3" }
    else if d == 4 { "4" }
    else if d == 5 { "5" }
    else if d == 6 { "6" }
    else if d == 7 { "7" }
    else if d == 8 { "8" }
    else { "9" };
    assert(r@ =~= seq![digit_char(d as nat)]);
    r
}

/// The decimal representation of `n`.
pub fn decimal_string(n: u128) -> (r: String)
    ensures
        r@ == decimal(n as nat),
    decreases n,
{
    if n < 10 {
        String::from_str(digit_str(n))
    } else {
        let mut s = decimal_string(n / 10);
        s.append(digit_str(n % 10));
        s
    }
}

} // verus!
