//! The order in which locations are listed: by URI, then by line, then by column.
use vstd::prelude::*;
use vstd::string::*;
use vstd::utf8::*;

use crate::location;
use crate::location::{Location, Place};
use crate::text;

verus! {

/// How two byte strings compare: negative if `a` comes first, zero if they are equal.
pub open spec fn byte_rank(a: Seq<u8>, b: Seq<u8>) -> int
    decreases a.len(),
{
    if a.len() == 0 {
        if b.len() == 0 {
            0
        } else {
            -1
        }
    } else if b.len() == 0 {
        1
    } else if a[0] < b[0] {
        -1
    } else if a[0] > b[0] {
        1
    } else {
        byte_rank(a.drop_first(), b.drop_first())
    }
}

/// How two locations compare: by the bytes of their URIs, then by the line and the column where they
/// start.
pub open spec fn rank(a: Place, b: Place) -> int {
    let by_uri = byte_rank(encode_utf8(a.uri), encode_utf8(b.uri));
    if by_uri != 0 {
        by_uri
    } else if a.range.start.line != b.range.start.line {
        a.range.start.line - b.range.start.line
    } else {
        a.range.start.character - b.range.start.character
    }
}

/// No location comes before an earlier one.
pub open spec fn is_sorted(s: Seq<Place>) -> bool {
    forall|i: int, j: int| 0 <= i < j < s.len() ==> rank(#[trigger] s[i], #[trigger] s[j]) <= 0
}

/// The locations of `s` that compare equal to `p`, in their order in `s`.
pub open spec fn ties(s: Seq<Place>, p: Place) -> Seq<Place> {
    s.filter(|x: Place| rank(x, p) == 0)
}

/// Whether `t` is `s` sorted stably: sorted, with the same locations, and those that compare equal
/// in the same order.
pub open spec fn is_stable_sort_of(t: Seq<Place>, s: Seq<Place>) -> bool {
    &&& is_sorted(t)
    &&& t.len() == s.len()
    &&& forall|p: Place| #[trigger] ties(t, p) == ties(s, p)
}

/// Of two byte strings one comes first, unless they are the same.
proof fn lemma_byte_rank_total(a: Seq<u8>, b: Seq<u8>)
    ensures
        byte_rank(a, b) == -byte_rank(b, a),
        byte_rank(a, b) == 0 <==> a == b,
    decreases a.len(),
{
    if a.len() > 0 && b.len() > 0 && a[0] == b[0] {
        lemma_byte_rank_total(a.drop_first(), b.drop_first());
        if a.drop_first() == b.drop_first() {
            assert(a =~= seq![a[0]] + a.drop_first());
            assert(b =~= seq![b[0]] + b.drop_first());
        }
    } else if a.len() == 0 && b.len() == 0 {
        assert(a =~= b);
    }
}

/// What comes before a byte string comes before all that come after it.
proof fn lemma_byte_rank_transitive(a: Seq<u8>, b: Seq<u8>, c: Seq<u8>)
    requires
        byte_rank(a, b) <= 0,
        byte_rank(b, c) <= 0,
    ensures
        byte_rank(a, c) <= 0,
        byte_rank(a, c) == 0 ==> byte_rank(a, b) == 0 && byte_rank(b, c) == 0,
    decreases a.len(),
{
    if a.len() > 0 && b.len() > 0 && c.len() > 0 && a[0] == b[0] && b[0] == c[0] {
        lemma_byte_rank_transitive(a.drop_first(), b.drop_first(), c.drop_first());
    }
}

/// Comparing is antisymmetric, reflexive and transitive.
pub proof fn lemma_rank(a: Place, b: Place, c: Place)
    ensures
        rank(a, a) == 0,
        rank(a, b) <= 0 <==> rank(b, a) >= 0,
        rank(a, b) <= 0 && rank(b, c) <= 0 ==> rank(a, c) <= 0,
        rank(a, b) <= 0 && rank(b, c) < 0 ==> rank(a, c) < 0,
        rank(a, b) < 0 && rank(b, c) <= 0 ==> rank(a, c) < 0,
{
    let (x, y, z) = (encode_utf8(a.uri), encode_utf8(b.uri), encode_utf8(c.uri));
    lemma_byte_rank_total(x, x);
    lemma_byte_rank_total(x, y);
    lemma_byte_rank_total(y, z);
    lemma_byte_rank_total(x, z);
    if byte_rank(x, y) <= 0 && byte_rank(y, z) <= 0 {
        lemma_byte_rank_transitive(x, y, z);
    }
}

/// A place put behind all that do not come after it keeps the order and ends its ties.
proof fn lemma_insert(s: Seq<Place>, i: int, x: Place)
    requires
        0 <= i <= s.len(),
        is_sorted(s),
        forall|j: int| 0 <= j < i ==> rank(s[j], x) <= 0,
        forall|j: int| i <= j < s.len() ==> rank(s[j], x) > 0,
    ensures
        is_sorted(s.insert(i, x)),
        forall|p: Place| #[trigger] ties(s.insert(i, x), p) == ties(s.push(x), p),
{
    let t = s.insert(i, x);
    assert forall|a: int, b: int| 0 <= a < b < t.len() implies rank(#[trigger] t[a], #[trigger] t[b])
        <= 0 by {
        let u = if a < i {
            s[a]
        } else if a == i {
            x
        } else {
            s[a - 1]
        };
        let v = if b < i {
            s[b]
        } else if b == i {
            x
        } else {
            s[b - 1]
        };
        assert(t[a] == u && t[b] == v);
        lemma_rank(u, v, x);
        lemma_rank(x, v, u);
        lemma_rank(v, x, u);
    }
    assert forall|p: Place| #[trigger] ties(t, p) == ties(s.push(x), p) by {
        let same = |y: Place| rank(y, p) == 0;
        let (head, tail) = (s.take(i), s.skip(i));
        assert(t =~= head + (seq![x] + tail));
        assert(s.push(x) =~= (head + tail) + seq![x]);
        Seq::filter_distributes_over_add(head, seq![x] + tail, same);
        Seq::filter_distributes_over_add(seq![x], tail, same);
        Seq::filter_distributes_over_add(head + tail, seq![x], same);
        Seq::filter_distributes_over_add(head, tail, same);
        if rank(x, p) == 0 {
            assert forall|k: int| 0 <= k < tail.len() implies !same(#[trigger] tail[k]) by {
                lemma_rank(tail[k], x, p);
                lemma_rank(x, tail[k], p);
                lemma_rank(p, x, tail[k]);
                assert(rank(s[i + k], x) > 0);
            }
            tail.lemma_all_neg_filter_empty(same);
            assert(tail.filter(same) =~= Seq::empty());
            assert(ties(t, p) =~= ties(s.push(x), p));
        } else {
            assert(!same(seq![x][0]));
            seq![x].lemma_all_neg_filter_empty(same);
            assert(seq![x].filter(same) =~= Seq::empty());
            assert(ties(t, p) =~= ties(s.push(x), p));
        }
    }
}

/// Whether `a` comes after `b`.
fn comes_after(a: &Location, b: &Location) -> (r: bool)
    ensures
        r == (rank(a@, b@) > 0),
{
    let x = a.uri.as_str().as_bytes();
    let y = b.uri.as_str().as_bytes();
    let mut k: usize = 0;
    assert(x@.skip(0) =~= x@);
    assert(y@.skip(0) =~= y@);
    while k < x.len() && k < y.len()
        invariant
            k <= x@.len(),
            k <= y@.len(),
            x@ == encode_utf8(a.uri@),
            y@ == encode_utf8(b.uri@),
            byte_rank(x@, y@) == byte_rank(x@.skip(k as int), y@.skip(k as int)),
        decreases x@.len() - k,
    {
        assert(x@.skip(k as int)[0] == x@[k as int]);
        assert(y@.skip(k as int)[0] == y@[k as int]);
        if x[k] != y[k] {
            return x[k] > y[k];
        }
        assert(x@.skip(k as int).drop_first() =~= x@.skip(k + 1));
        assert(y@.skip(k as int).drop_first() =~= y@.skip(k + 1));
        k += 1;
    }
    if x.len() != y.len() {
        return x.len() > y.len();
    }
    let (p, q) = (a.range.start, b.range.start);
    if p.line != q.line {
        return p.line > q.line;
    }
    p.character > q.character
}

/// The locations by URI, line and column; those that start at the same place keep their order.
pub fn sort_locations(locations: &Vec<Location>) -> (r: Vec<Location>)
    ensures
        is_stable_sort_of(location::places(r@), location::places(locations@)),
{
    let ghost all = location::places(locations@);
    let mut out: Vec<Location> = Vec::new();
    let mut k: usize = 0;
    assert(all.take(0) =~= location::places(out@));
    while k < locations.len()
        invariant
            k <= locations@.len(),
            all == location::places(locations@),
            is_stable_sort_of(location::places(out@), all.take(k as int)),
        decreases locations@.len() - k,
    {
        let ghost before = location::places(out@);
        let ghost x = locations@[k as int]@;
        let mut i: usize = out.len();
        while i > 0 && comes_after(&out[i - 1], &locations[k])
            invariant
                k < locations@.len(),
                x == locations@[k as int]@,
                before == location::places(out@),
                i <= out@.len(),
                forall|j: int| i <= j < before.len() ==> rank(before[j], x) > 0,
            decreases i,
        {
            i -= 1;
        }
        proof {
            assert forall|j: int| 0 <= j < i implies rank(before[j], x) <= 0 by {
                if j < i - 1 {
                    lemma_rank(before[j], before[i - 1], x);
                }
            }
            lemma_insert(before, i as int, x);
        }
        out.insert(
            i,
            Location { uri: locations[k].uri.clone(), range: locations[k].range },
        );
        proof {
            assert(location::places(out@) =~= before.insert(i as int, x));
            assert(all.take(k + 1) =~= all.take(k as int).push(x));
            assert forall|p: Place| #[trigger] ties(location::places(out@), p) == ties(
                all.take(k + 1),
                p,
            ) by {
                reveal(Seq::filter);
                assert(ties(before, p) == ties(all.take(k as int), p));
                assert(before.push(x).drop_last() =~= before);
                assert(all.take(k as int).push(x).drop_last() =~= all.take(k as int));
                assert(ties(before.insert(i as int, x), p) == ties(before.push(x), p));
            }
        }
        k += 1;
    }
    assert(all.take(k as int) =~= all);
    out
}

/// Two sorted lists with the same ties begin with the same place.
proof fn lemma_same_first(t: Seq<Place>, u: Seq<Place>)
    requires
        is_sorted(t),
        is_sorted(u),
        t.len() > 0,
        u.len() > 0,
        forall|p: Place| #[trigger] ties(t, p) == ties(u, p),
    ensures
        t[0] == u[0],
{
    let (a, b) = (t[0], u[0]);
    lemma_rank(a, b, a);
    lemma_rank(b, a, b);
    lemma_not_after(t, u);
    lemma_not_after(u, t);
    let same = |x: Place| rank(x, a) == 0;
    assert(t =~= seq![a] + t.drop_first());
    assert(u =~= seq![b] + u.drop_first());
    text::lemma_filter_first(a, t.drop_first(), same);
    text::lemma_filter_first(b, u.drop_first(), same);
    assert(ties(t, a)[0] == a);
    assert(ties(u, a)[0] == b);
}

/// The first place of a sorted list does not come after one that has a tie in it.
proof fn lemma_not_after(t: Seq<Place>, u: Seq<Place>)
    requires
        is_sorted(t),
        t.len() > 0,
        u.len() > 0,
        forall|p: Place| #[trigger] ties(t, p) == ties(u, p),
    ensures
        rank(t[0], u[0]) <= 0,
{
    let b = u[0];
    let same = |x: Place| rank(x, b) == 0;
    lemma_rank(b, b, b);
    assert(u =~= seq![b] + u.drop_first());
    text::lemma_filter_first(b, u.drop_first(), same);
    assert(ties(u, b).len() > 0);
    assert(ties(t, b).len() > 0);
    t.lemma_filter_pred(same, 0);
    text::lemma_filtered_from(t, same, 0);
    let j = choose|j: int| 0 <= j < t.len() && t[j] == t.filter(same)[0];
    lemma_rank(t[0], t[j], b);
}

/// There is only one way to sort a list stably.
pub proof fn law_stable_sort_is_unique(t: Seq<Place>, u: Seq<Place>, s: Seq<Place>)
    requires
        is_stable_sort_of(t, s),
        is_stable_sort_of(u, s),
    ensures
        t == u,
{
    assert forall|p: Place| #[trigger] ties(t, p) == ties(u, p) by {
        assert(ties(t, p) == ties(s, p));
        assert(ties(u, p) == ties(s, p));
    }
    lemma_sorted_alike(t, u);
}

/// Sorted lists of the same length with the same ties are the same.
proof fn lemma_sorted_alike(t: Seq<Place>, u: Seq<Place>)
    requires
        is_sorted(t),
        is_sorted(u),
        t.len() == u.len(),
        forall|p: Place| #[trigger] ties(t, p) == ties(u, p),
    ensures
        t == u,
    decreases t.len(),
{
    if t.len() == 0 {
        assert(t =~= u);
    } else {
        lemma_same_first(t, u);
        let a = t[0];
        let (x, y) = (t.drop_first(), u.drop_first());
        assert(t =~= seq![a] + x);
        assert(u =~= seq![a] + y);
        assert forall|p: Place| #[trigger] ties(x, p) == ties(y, p) by {
            let same = |z: Place| rank(z, p) == 0;
            text::lemma_filter_first(a, x, same);
            text::lemma_filter_first(a, y, same);
            assert(ties(t, p) == ties(u, p));
            let skipped: int = if rank(a, p) == 0 {
                1
            } else {
                0
            };
            assert(ties(x, p) =~= ties(t, p).skip(skipped));
            assert(ties(y, p) =~= ties(u, p).skip(skipped));
        }
        assert forall|i: int, j: int| 0 <= i < j < x.len() implies rank(
            #[trigger] x[i],
            #[trigger] x[j],
        ) <= 0 by {
            assert(x[i] == t[i + 1] && x[j] == t[j + 1]);
        }
        assert forall|i: int, j: int| 0 <= i < j < y.len() implies rank(
            #[trigger] y[i],
            #[trigger] y[j],
        ) <= 0 by {
            assert(y[i] == u[i + 1] && y[j] == u[j + 1]);
        }
        lemma_sorted_alike(x, y);
    }
}

/// Sorting neither loses a place nor adds one.
pub proof fn law_sort_keeps_places(t: Seq<Place>, s: Seq<Place>)
    requires
        is_stable_sort_of(t, s),
    ensures
        t.to_multiset() == s.to_multiset(),
{
    assert forall|p: Place| t.to_multiset().count(p) == s.to_multiset().count(p) by {
        let same = |z: Place| rank(z, p) == 0;
        lemma_rank(p, p, p);
        lemma_filter_count(t, same, p);
        lemma_filter_count(s, same, p);
        assert(ties(t, p) == ties(s, p));
    }
    assert(t.to_multiset() =~= s.to_multiset());
}

/// A filter keeps every occurrence of what it lets through.
proof fn lemma_filter_count(s: Seq<Place>, p: spec_fn(Place) -> bool, x: Place)
    requires
        p(x),
    ensures
        s.filter(p).to_multiset().count(x) == s.to_multiset().count(x),
    decreases s.len(),
{
    broadcast use vstd::seq_lib::group_to_multiset_ensures;

    reveal(Seq::filter);
    if s.len() == 0 {
        assert(s.filter(p) =~= s);
    } else {
        lemma_filter_count(s.drop_last(), p, x);
        assert(s =~= s.drop_last().push(s.last()));
    }
}

/// Sorting leaves the places that start alike in their order.
pub proof fn law_places_that_start_alike_keep_order(
    t: Seq<Place>,
    s: Seq<Place>,
    uri: Seq<char>,
    start: location::Position,
)
    requires
        is_stable_sort_of(t, s),
    ensures
        t.filter(|p: Place| p.uri == uri && p.range.start == start) == s.filter(
            |p: Place| p.uri == uri && p.range.start == start,
        ),
{
    let q = Place { uri, range: location::Range { start, end: start } };
    let alike = |p: Place| p.uri == uri && p.range.start == start;
    assert forall|p: Place| #[trigger] alike(p) == (rank(p, q) == 0) by {
        lemma_byte_rank_total(encode_utf8(p.uri), encode_utf8(uri));
        encode_utf8_decode_utf8(p.uri);
        encode_utf8_decode_utf8(uri);
    }
    assert(alike =~= (|x: Place| rank(x, q) == 0));
    assert(ties(t, q) == ties(s, q));
}

} // verus!
