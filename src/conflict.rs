//! Choosing a destination name that does not collide with existing ones.
use vstd::prelude::*;
use vstd::relations::injective_on;
use vstd::set_lib::*;
use vstd::string::*;
use crate::classify::{extension_of, split_name, stem_of};
use crate::text::{decimal, decimal_string, digit_char};

verus! {

/// What follows the number in a candidate: `)` and, when the name has a
/// non-empty extension, `.` and the extension.
pub open spec fn candidate_tail(name: Seq<char>) -> Seq<char> {
    match extension_of(name) {
        Some(e) => if e.len() > 0 {
            ")."@ + e
        } else {
            ")"@
        },
        None => ")"@,
    }
}

/// The `n`-th alternative to `name`: `stem (n).ext`, or `stem (n)` without an extension.
pub open spec fn candidate(name: Seq<char>, n: nat) -> Seq<char> {
    stem_of(name) + " ("@ + decimal(n) + candidate_tail(name)
}

/// Some existing name equals `p`.
pub open spec fn taken(existing: Seq<String>, p: Seq<char>) -> bool {
    exists|i: int| 0 <= i < existing.len() && existing[i]@ == p
}

/// The name `resolve_destination` settles on: `desired` when it is free, else
/// the first free candidate.
pub open spec fn is_resolution(existing: Seq<String>, desired: Seq<char>, r: Seq<char>) -> bool {
    if !taken(existing, desired) {
        r == desired
    } else {
        exists|n: nat|
            1 <= n && r == candidate(desired, n) && !taken(existing, r) && forall|m: nat|
                1 <= m < n ==> taken(existing, #[trigger] candidate(desired, m))
    }
}

proof fn lemma_decimal_len(n: nat)
    ensures
        decimal(n).len() >= 1,
        n >= 10 ==> decimal(n).len() >= 2,
    decreases n,
{
    if n >= 10 {
        lemma_decimal_len(n / 10);
    }
}

proof fn lemma_digit_injective(x: nat, y: nat)
    requires
        x < 10,
        y < 10,
        digit_char(x) == digit_char(y),
    ensures
        x == y,
{
    assert(x == 0 || x == 1 || x == 2 || x == 3 || x == 4 || x == 5 || x == 6 || x == 7 || x == 8
        || x == 9);
    assert(y == 0 || y == 1 || y == 2 || y == 3 || y == 4 || y == 5 || y == 6 || y == 7 || y == 8
        || y == 9);
}

proof fn lemma_decimal_injective(a: nat, b: nat)
    requires
        decimal(a) == decimal(b),
    ensures
        a == b,
    decreases a,
{
    lemma_decimal_len(a);
    lemma_decimal_len(b);
    if a >= 10 && b >= 10 {
        let da = decimal(a);
        let db = decimal(b);
        assert(da.last() == db.last());
        assert(da.drop_last() =~= decimal(a / 10));
        assert(db.drop_last() =~= decimal(b / 10));
        lemma_decimal_injective(a / 10, b / 10);
        lemma_digit_injective(a % 10, b % 10);
        assert(a == 10 * (a / 10) + a % 10) by (nonlinear_arith);
        assert(b == 10 * (b / 10) + b % 10) by (nonlinear_arith);
    } else if a < 10 && b < 10 {
        assert(decimal(a) =~= seq![digit_char(a)]);
        assert(decimal(b) =~= seq![digit_char(b)]);
        assert(decimal(a)[0] == decimal(b)[0]);
        assert(decimal(a)[0] == digit_char(a));
        assert(decimal(b)[0] == digit_char(b));
        lemma_digit_injective(a, b);
    }
}

proof fn lemma_candidate_injective(name: Seq<char>, a: nat, b: nat)
    requires
        candidate(name, a) == candidate(name, b),
    ensures
        a == b,
{
    let head = stem_of(name) + " ("@;
    let tail = candidate_tail(name);
    let ca = head + decimal(a) + tail;
    let cb = head + decimal(b) + tail;
    assert(candidate(name, a) == ca);
    assert(candidate(name, b) == cb);
    let lo = head.len() as int;
    assert(decimal(a).len() == decimal(b).len());
    assert(ca.subrange(lo, lo + decimal(a).len()) =~= decimal(a));
    assert(cb.subrange(lo, lo + decimal(b).len()) =~= decimal(b));
    lemma_decimal_injective(a, b);
}

/// Among the first `existing.len() + 1` candidates one is free.
proof fn lemma_some_candidate_free(name: Seq<char>, existing: Seq<String>)
    ensures
        exists|n: nat| 1 <= n <= existing.len() + 1 && !taken(existing, candidate(name, n)),
{
    let l = existing.len() as int;
    if forall|n: nat| 1 <= n <= l + 1 ==> taken(existing, #[trigger] candidate(name, n)) {
        let f = |m: int|
            choose|i: int| 0 <= i < l && existing[i]@ == candidate(name, m as nat);
        let dom = set_int_range(1, l + 2);
        lemma_int_range(1, l + 2);
        lemma_int_range(0, l);
        assert forall|m: int| dom.contains(m) implies 0 <= #[trigger] f(m) < l && existing[f(
            m,
        )]@ == candidate(name, m as nat) by {
            assert(taken(existing, candidate(name, m as nat)));
        }
        assert(injective_on(f, dom)) by {
            assert forall|x: int, y: int|
                dom.contains(x) && dom.contains(y) && #[trigger] f(x) == #[trigger] f(y) implies x
                == y by {
                lemma_candidate_injective(name, x as nat, y as nat);
            }
        }
        lemma_map_size(dom, dom.map(f), f);
        assert(dom.map(f).subset_of(set_int_range(0, l)));
        lemma_len_subset(dom.map(f), set_int_range(0, l));
    }
}

/// Whether some existing name equals `p`.
pub fn is_taken(existing: &Vec<String>, p: &String) -> (r: bool)
    ensures
        r == taken(existing@, p@),
{
    let mut i: usize = 0;
    while i < existing.len()
        invariant
            i <= existing@.len(),
            forall|j: int| 0 <= j < i ==> existing@[j]@ != p@,
        decreases existing.len() - i,
    {
        if existing[i] == *p {
            assert(existing@[i as int]@ == p@);
            return true;
        }
        i += 1;
    }
    false
}

/// The `n`-th alternative to the name whose stem and extension are given.
fn candidate_name(stem: &str, ext: Option<&str>, n: u128, Ghost(name): Ghost<Seq<char>>) -> (r:
    String)
    requires
        stem@ == stem_of(name),
        match ext {
            Some(e) => extension_of(name) == Some(e@),
            None => extension_of(name) is None,
        },
    ensures
        r@ == candidate(name, n as nat),
{
    let mut out = String::from_str(stem);
    out.append(" (");
    let digits = decimal_string(n);
    out.append(digits.as_str());
    match ext {
        Some(e) => {
            if e.unicode_len() > 0 {
                out.append(").");
                out.append(e);
                assert(out@ =~= stem_of(name) + " ("@ + decimal(n as nat) + (")."@ + e@));
            } else {
                out.append(")");
            }
        },
        None => {
            out.append(")");
        },
    }
    out
}

/// The name under which an import lands: `desired` when no existing name
/// equals it, else `stem (n).ext` (or `stem (n)` without an extension) for the
/// least `n >= 1` that no existing name equals.
pub fn resolve_destination(desired: &str, existing: &Vec<String>) -> (r: String)
    ensures
        is_resolution(existing@, desired@, r@),
        !taken(existing@, r@),
{
    let want = String::from_str(desired);
    if !is_taken(existing, &want) {
        return want;
    }
    let (stem, ext) = split_name(desired);
    let ghost name = desired@;
    proof {
        lemma_some_candidate_free(name, existing@);
    }
    let limit: u128 = existing.len() as u128 + 1;
    let mut n: u128 = 1;
    loop
        invariant
            1 <= n <= limit,
            limit == existing@.len() + 1,
            stem@ == stem_of(name),
            name == desired@,
            taken(existing@, desired@),
            match ext {
                Some(e) => extension_of(name) == Some(e@),
                None => extension_of(name) is None,
            },
            forall|m: nat| 1 <= m < n ==> taken(existing@, #[trigger] candidate(name, m)),
            exists|k: nat| n <= k <= limit && !taken(existing@, candidate(name, k)),
        decreases limit - n,
    {
        let c = candidate_name(stem, ext, n, Ghost(name));
        if !is_taken(existing, &c) {
            return c;
        }
        proof {
            let k = choose|k: nat| n <= k <= limit && !taken(existing@, candidate(name, k));
            assert(k != n);
            assert forall|m: nat| 1 <= m < n + 1 implies taken(
                existing@,
                #[trigger] candidate(name, m),
            ) by {}
        }
        n += 1;
    }
}

/// Conflict resolution is deterministic: for given existing names and a
/// desired name there is exactly one resolution.
pub proof fn resolution_is_unique(
    existing: Seq<String>,
    desired: Seq<char>,
    r1: Seq<char>,
    r2: Seq<char>,
)
    requires
        is_resolution(existing, desired, r1),
        is_resolution(existing, desired, r2),
    ensures
        r1 == r2,
{
    if taken(existing, desired) {
        let n1 = choose|n: nat|
            1 <= n && r1 == candidate(desired, n) && !taken(existing, r1) && forall|m: nat|
                1 <= m < n ==> taken(existing, #[trigger] candidate(desired, m));
        let n2 = choose|n: nat|
            1 <= n && r2 == candidate(desired, n) && !taken(existing, r2) && forall|m: nat|
                1 <= m < n ==> taken(existing, #[trigger] candidate(desired, m));
        if n1 < n2 {
            assert(taken(existing, candidate(desired, n1)));
        } else if n2 < n1 {
            assert(taken(existing, candidate(desired, n2)));
        }
    }
}

} // verus!
