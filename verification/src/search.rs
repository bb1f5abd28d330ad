//! Where a text occurs in another one. Places are counted in characters.
use vstd::prelude::*;
use vstd::string::*;

use crate::text;

verus! {

/// Whether `sub` stands at the place `i` of `s`.
pub open spec fn occurs_at(s: Seq<char>, sub: Seq<char>, i: int) -> bool {
    0 <= i && i + sub.len() <= s.len() && s.subrange(i, i + sub.len()) == sub
}

/// Whether `sub` stands anywhere in `s`.
pub open spec fn occurs(s: Seq<char>, sub: Seq<char>) -> bool {
    exists|i: int| occurs_at(s, sub, i)
}

/// Whether `i` is the first place at which `sub` stands in `s`.
pub open spec fn occurs_first_at(s: Seq<char>, sub: Seq<char>, i: int) -> bool {
    occurs_at(s, sub, i) && forall|j: int| j < i ==> !occurs_at(s, sub, j)
}

/// Whether `i` is the last place at which `sub` stands in `s`.
pub open spec fn occurs_last_at(s: Seq<char>, sub: Seq<char>, i: int) -> bool {
    occurs_at(s, sub, i) && forall|j: int| j > i ==> !occurs_at(s, sub, j)
}

/// Whether `sub` stands at the place `i`.
pub fn chars_match(s: &Vec<char>, sub: &Vec<char>, i: usize) -> (r: bool)
    ensures
        r == occurs_at(s@, sub@, i as int),
{
    let n = s.len();
    let m = sub.len();
    if m > n || i > n - m {
        return false;
    }
    let mut k: usize = 0;
    while k < m
        invariant
            n == s@.len(),
            m == sub@.len(),
            i + m <= n,
            k <= m,
            forall|j: int| 0 <= j < k ==> s@[i + j] == sub@[j],
        decreases m - k,
    {
        if s[i + k] != sub[k] {
            assert(s@.subrange(i as int, i + m)[k as int] != sub@[k as int]);
            return false;
        }
        k += 1;
    }
    assert(s@.subrange(i as int, i + m) =~= sub@);
    true
}

/// The first place at which `sub` stands in `s`.
pub fn find_text(s: &str, sub: &str) -> (r: Option<usize>)
    ensures
        match r {
            Some(i) => occurs_first_at(s@, sub@, i as int),
            None => !occurs(s@, sub@),
        },
{
    let a = text::chars_of(s);
    let b = text::chars_of(sub);
    let n = a.len();
    let m = b.len();
    if m > n {
        return None;
    }
    let mut i: usize = 0;
    while i <= n - m
        invariant
            a@ == s@,
            b@ == sub@,
            n == a@.len(),
            m == b@.len(),
            m <= n,
            i <= n - m + 1,
            forall|j: int| j < i ==> !occurs_at(s@, sub@, j),
        decreases n - m + 1 - i,
    {
        if chars_match(&a, &b, i) {
            return Some(i);
        }
        if i == n - m {
            return None;
        }
        i += 1;
    }
    None
}

/// The last place at which `sub` stands in `s`.
pub fn rfind_text(s: &str, sub: &str) -> (r: Option<usize>)
    ensures
        match r {
            Some(i) => occurs_last_at(s@, sub@, i as int),
            None => !occurs(s@, sub@),
        },
{
    let a = text::chars_of(s);
    let b = text::chars_of(sub);
    let n = a.len();
    let m = b.len();
    if m > n {
        return None;
    }
    let mut i: usize = n - m;
    loop
        invariant
            a@ == s@,
            b@ == sub@,
            n == a@.len(),
            m == b@.len(),
            i <= n - m,
            forall|j: int| j > i ==> !occurs_at(s@, sub@, j),
        decreases i,
    {
        if chars_match(&a, &b, i) {
            return Some(i);
        }
        if i == 0 {
            return None;
        }
        i -= 1;
    }
}

/// Whether `sub` stands anywhere in `s`.
pub fn contains_text(s: &str, sub: &str) -> (r: bool)
    ensures
        r == occurs(s@, sub@),
{
    find_text(s, sub).is_some()
}

/// Whether `s` begins with `prefix`.
pub fn starts_with(s: &str, prefix: &str) -> (r: bool)
    ensures
        r == prefix@.is_prefix_of(s@),
{
    let a = text::chars_of(s);
    let b = text::chars_of(prefix);
    let r = chars_match(&a, &b, 0);
    assert(r == prefix@.is_prefix_of(s@)) by {
        if prefix@.len() <= s@.len() {
            assert(s@.subrange(0, prefix@.len() as int) =~= s@.take(prefix@.len() as int));
        }
    }
    r
}

/// What occurs has a first and a last place.
pub proof fn lemma_first_and_last(s: Seq<char>, sub: Seq<char>)
    requires
        occurs(s, sub),
    ensures
        exists|i: int| occurs_first_at(s, sub, i),
        exists|i: int| occurs_last_at(s, sub, i),
{
    let k = choose|k: int| occurs_at(s, sub, k);
    lemma_first_from(s, sub, k);
    lemma_last_from(s, sub, k);
}

/// What occurs at `k` has a first place.
proof fn lemma_first_from(s: Seq<char>, sub: Seq<char>, k: int)
    requires
        occurs_at(s, sub, k),
    ensures
        exists|i: int| occurs_first_at(s, sub, i),
    decreases k,
{
    if exists|j: int| j < k && occurs_at(s, sub, j) {
        lemma_first_from(s, sub, choose|j: int| j < k && occurs_at(s, sub, j));
    } else {
        assert(occurs_first_at(s, sub, k));
    }
}

/// What occurs at `k` has a last place.
proof fn lemma_last_from(s: Seq<char>, sub: Seq<char>, k: int)
    requires
        occurs_at(s, sub, k),
    ensures
        exists|i: int| occurs_last_at(s, sub, i),
    decreases s.len() - k,
{
    if exists|j: int| j > k && occurs_at(s, sub, j) {
        lemma_last_from(s, sub, choose|j: int| j > k && occurs_at(s, sub, j));
    } else {
        assert(occurs_last_at(s, sub, k));
    }
}

/// A text stands at a place of another exactly if the other is what is before it, the text, and what is
/// behind it.
pub proof fn law_occurrence_is_a_part(s: Seq<char>, sub: Seq<char>, i: int)
    ensures
        occurs_at(s, sub, i) <==> exists|before: Seq<char>, behind: Seq<char>|
            before.len() == i && s == #[trigger] (before + sub + behind),
{
    if occurs_at(s, sub, i) {
        let before = s.take(i);
        let behind = s.skip(i + sub.len());
        assert(s =~= before + s.subrange(i, i + sub.len()) + behind);
        assert(s == before + sub + behind);
    }
    if exists|before: Seq<char>, behind: Seq<char>|
        before.len() == i && s == #[trigger] (before + sub + behind) {
        let (before, behind) = choose|before: Seq<char>, behind: Seq<char>|
            before.len() == i && s == #[trigger] (before + sub + behind);
        assert(s.subrange(i, i + sub.len()) =~= sub);
    }
}

/// A text occurs in what it is put into.
pub proof fn law_part_occurs(before: Seq<char>, sub: Seq<char>, behind: Seq<char>)
    ensures
        occurs(before + sub + behind, sub),
{
    let i = before.len() as int;
    assert((before + sub + behind).subrange(i, i + sub.len()) =~= sub);
    assert(occurs_at(before + sub + behind, sub, i));
}

/// Whatever occurs has a first place and a last, and every place lies between them.
pub proof fn law_occurrences_lie_between_first_and_last(s: Seq<char>, sub: Seq<char>)
    requires
        occurs(s, sub),
    ensures
        exists|i: int, k: int| #[trigger]
            occurs_first_at(s, sub, i) && #[trigger] occurs_last_at(s, sub, k) && forall|j: int|
                #[trigger] occurs_at(s, sub, j) ==> i <= j <= k,
{
    let some = choose|i: int| occurs_at(s, sub, i);
    let i = lemma_first_place(s, sub, some);
    let k = lemma_last_place(s, sub, some);
    assert(occurs_first_at(s, sub, i) && occurs_last_at(s, sub, k));
}

/// The first place is at any other or before it.
proof fn lemma_first_place(s: Seq<char>, sub: Seq<char>, j: int) -> (i: int)
    requires
        occurs_at(s, sub, j),
    ensures
        i <= j,
        occurs_first_at(s, sub, i),
    decreases j,
{
    if forall|k: int| k < j ==> !occurs_at(s, sub, k) {
        j
    } else {
        let k = choose|k: int| k < j && occurs_at(s, sub, k);
        lemma_first_place(s, sub, k)
    }
}

/// The last place is at any other or behind it.
proof fn lemma_last_place(s: Seq<char>, sub: Seq<char>, j: int) -> (i: int)
    requires
        occurs_at(s, sub, j),
    ensures
        i >= j,
        occurs_last_at(s, sub, i),
    decreases s.len() - j,
{
    if forall|k: int| k > j ==> !occurs_at(s, sub, k) {
        j
    } else {
        let k = choose|k: int| k > j && occurs_at(s, sub, k);
        lemma_last_place(s, sub, k)
    }
}

} // verus!
