//! The secondary ordering: points descending, then start height ascending,
//! then address ascending — a genuine multi-field comparator giving a
//! deterministic, collision-free traversal for cursor pagination.

use vstd::prelude::*;
use vstd::relations::{sorted_by, total_ordering};
use vstd::multiset::Multiset;
use vstd::seq_lib::{lemma_multiset_commutative, lemma_sorted_unique};
use crate::addr::{
    lex_lt, lemma_lex_asymmetric, lemma_lex_connected, lemma_lex_irreflexive, lemma_lex_transitive,
    Cmp, str_compare,
};
use crate::msg::{Member, MemberData, members_view};

verus! {

/// The strict ordering key: higher points first, then earlier start height,
/// then lower address.
pub open spec fn key_lt(a: MemberData, b: MemberData) -> bool {
    a.points > b.points || (a.points == b.points && (a.start_height < b.start_height || (
    a.start_height == b.start_height && lex_lt(a.addr, b.addr))))
}

/// The reflexive closure of [`key_lt`].
pub open spec fn key_le(a: MemberData, b: MemberData) -> bool {
    !key_lt(b, a)
}

/// The traversal order as a relation value.
pub open spec fn points_order() -> spec_fn(MemberData, MemberData) -> bool {
    |a: MemberData, b: MemberData| key_le(a, b)
}

/// Two records unordered either way are one record.
pub proof fn lemma_key_connects(a: MemberData, b: MemberData)
    requires
        !key_lt(a, b),
        !key_lt(b, a),
    ensures
        a == b,
{
    if a.addr != b.addr {
        lemma_lex_connected(a.addr, b.addr);
    }
}

/// The strict key order excludes its converse.
pub proof fn lemma_key_asymmetric(a: MemberData, b: MemberData)
    requires
        key_lt(a, b),
    ensures
        !key_lt(b, a),
{
    if a.points == b.points && a.start_height == b.start_height {
        lemma_lex_asymmetric(a.addr, b.addr);
        lemma_lex_irreflexive(a.addr);
    }
}

/// No record precedes itself.
pub proof fn lemma_key_irreflexive(a: MemberData)
    ensures
        !key_lt(a, a),
{
    lemma_lex_irreflexive(a.addr);
}

/// The strict key order is transitive.
pub proof fn lemma_key_transitive(a: MemberData, b: MemberData, c: MemberData)
    requires
        key_lt(a, b),
        key_lt(b, c),
    ensures
        key_lt(a, c),
{
    if a.points == b.points && b.points == c.points && a.start_height == b.start_height
        && b.start_height == c.start_height {
        lemma_lex_transitive(a.addr, b.addr, c.addr);
    }
}

/// The traversal order is a total ordering.
pub proof fn lemma_points_order_total()
    ensures
        total_ordering(points_order()),
{
    let leq = points_order();
    assert forall|x: MemberData| #[trigger] leq(x, x) by {
        lemma_key_irreflexive(x);
    }
    assert forall|x: MemberData, y: MemberData| #[trigger] leq(x, y) && #[trigger] leq(y, x)
        implies x == y by {
        lemma_key_connects(x, y);
    }
    assert forall|x: MemberData, y: MemberData, z: MemberData|
        #[trigger] leq(x, y) && #[trigger] leq(y, z) implies leq(x, z) by {
        if key_lt(z, x) {
            if key_lt(y, z) {
                lemma_key_transitive(y, z, x);
            } else {
                lemma_key_connects(z, y);
            }
        }
    }
    assert forall|x: MemberData, y: MemberData| #[trigger] leq(x, y) || #[trigger] leq(y, x) by {
        if key_lt(y, x) {
            lemma_key_asymmetric(y, x);
        }
    }
}

/// The canonical traversal: the records sorted by the points order.
pub open spec fn by_points(s: Seq<MemberData>) -> Seq<MemberData> {
    s.sort_by(points_order())
}

/// What the canonical traversal guarantees.
pub proof fn lemma_by_points_ensures(s: Seq<MemberData>)
    ensures
        sorted_by(by_points(s), points_order()),
        by_points(s).to_multiset() == s.to_multiset(),
        by_points(s).len() == s.len(),
{
    lemma_points_order_total();
    s.lemma_sort_by_ensures(points_order());
    broadcast use vstd::seq_lib::group_to_multiset_ensures;

    assert(by_points(s).len() == by_points(s).to_multiset().len());
    assert(s.len() == s.to_multiset().len());
}

/// No two records share an address.
pub open spec fn distinct_addrs(s: Seq<MemberData>) -> bool {
    forall|i: int, j: int|
        0 <= i < j < s.len() ==> (#[trigger] s[i].addr) != (#[trigger] s[j].addr)
}

/// Reordering records preserves address distinctness.
pub proof fn lemma_by_points_distinct(s: Seq<MemberData>)
    requires
        distinct_addrs(s),
    ensures
        distinct_addrs(by_points(s)),
{
    broadcast use vstd::seq_lib::group_to_multiset_ensures;
    broadcast use vstd::multiset::group_multiset_axioms;

    lemma_by_points_ensures(s);
    let t = by_points(s);
    assert forall|i: int, j: int|
        0 <= i < j < t.len() implies (#[trigger] t[i].addr) != (#[trigger] t[j].addr) by {
        if t[i].addr == t[j].addr {
            if t[i] == t[j] {
                let u = t.subrange(0, j);
                let w = t.subrange(j, t.len() as int);
                assert(t =~= u + w);
                lemma_multiset_commutative(u, w);
                assert(u[i] == t[i]);
                assert(u.contains(t[i]));
                assert(w[0] == t[j]);
                assert(w.contains(t[j]));
                assert(s.to_multiset().count(t[i]) >= 2);
                lemma_distinct_addrs_no_duplicates(s);
                assert(false);
            } else {
                assert(t.to_multiset().contains(t[i]));
                assert(t.to_multiset().contains(t[j]));
                assert(s.contains(t[i]));
                assert(s.contains(t[j]));
                let a = choose|a: int| 0 <= a < s.len() && s[a] == t[i];
                let b = choose|b: int| 0 <= b < s.len() && s[b] == t[j];
                assert(s[a].addr == s[b].addr && a != b);
                assert(false);
            }
        }
    }
}

/// A sequence with pairwise-distinct addresses has pairwise-distinct records,
/// so each of its elements occurs exactly once.
proof fn lemma_distinct_addrs_no_duplicates(s: Seq<MemberData>)
    requires
        distinct_addrs(s),
    ensures
        forall|x: MemberData| s.to_multiset().contains(x) ==> s.to_multiset().count(x) == 1,
{
    assert forall|i: int, j: int|
        0 <= i < s.len() && 0 <= j < s.len() && i != j implies s[i] != s[j] by {
        if i < j {
            assert(s[i].addr != s[j].addr);
        } else {
            assert(s[j].addr != s[i].addr);
        }
    }
    assert(s.no_duplicates());
    s.lemma_multiset_has_no_duplicates();
}

/// Inserting an element anywhere adds exactly it to the multiset.
proof fn lemma_insert_multiset(s: Seq<MemberData>, j: int, m: MemberData)
    requires
        0 <= j <= s.len(),
    ensures
        s.insert(j, m).to_multiset() == s.to_multiset().insert(m),
{
    broadcast use vstd::seq_lib::group_to_multiset_ensures;
    broadcast use vstd::multiset::group_multiset_axioms;

    let u = s.subrange(0, j);
    let w = s.subrange(j, s.len() as int);
    assert(s =~= u + w);
    assert(s.insert(j, m) =~= u + (seq![m] + w));
    lemma_multiset_commutative(u, w);
    lemma_multiset_commutative(u, seq![m] + w);
    lemma_multiset_commutative(seq![m], w);
    assert(seq![m] =~= Seq::<MemberData>::empty().push(m));
    assert(seq![m].to_multiset() =~= Multiset::<MemberData>::empty().insert(m));
    assert(s.insert(j, m).to_multiset() =~= s.to_multiset().insert(m));
}

/// Whether `a` comes no later than `b` in the traversal.
pub fn key_le_exec(a: &Member, b: &Member) -> (r: bool)
    ensures
        r == key_le(a@, b@),
{
    if a.points != b.points {
        a.points > b.points
    } else if a.start_height != b.start_height {
        a.start_height < b.start_height
    } else {
        proof {
            if a@.addr == b@.addr {
                lemma_lex_irreflexive(a@.addr);
            }
        }
        !matches!(str_compare(b.addr.as_str(), a.addr.as_str()), Cmp::Less)
    }
}

/// Produces the records in traversal order.
pub fn sorted_by_points(v: &Vec<Member>) -> (r: Vec<Member>)
    ensures
        members_view(r@) == by_points(members_view(v@)),
{
    proof {
        lemma_points_order_total();
    }
    let mut r: Vec<Member> = Vec::new();
    proof {
        assert(members_view(r@) =~= Seq::<MemberData>::empty());
        assert(members_view(v@.subrange(0, 0)) =~= Seq::<MemberData>::empty());
        broadcast use vstd::seq_lib::group_to_multiset_ensures;

        assert(members_view(r@).to_multiset() =~= members_view(
            v@.subrange(0, 0),
        ).to_multiset());
    }
    let mut i: usize = 0;
    while i < v.len()
        invariant
            0 <= i <= v.len(),
            sorted_by(members_view(r@), points_order()),
            members_view(r@).to_multiset() == members_view(v@.subrange(0, i as int)).to_multiset(),
            total_ordering(points_order()),
        decreases v.len() - i,
    {
        let ghost rs = members_view(r@);
        let m = v[i].duplicate();
        let mut j: usize = 0;
        while j < r.len() && key_le_exec(&r[j], &m)
            invariant
                0 <= j <= r.len(),
                (i as int) < v@.len(),
                rs == members_view(r@),
                rs.len() == r@.len(),
                m@ == v@[i as int]@,
                forall|k: int| 0 <= k < j ==> key_le(#[trigger] rs[k], m@),
            decreases r.len() - j,
        {
            j = j + 1;
        }
        r.insert(j, m);
        proof {
            assert(members_view(r@) =~= rs.insert(j as int, v@[i as int]@));
            lemma_insert_multiset(rs, j as int, v@[i as int]@);
            let ts = members_view(r@);
            assert forall|x: int, y: int|
                0 <= x < y < ts.len() implies (points_order())(ts[x], ts[y]) by {
                let leq = points_order();
                if y < j as int {
                    assert(ts[x] == rs[x] && ts[y] == rs[y]);
                } else if y == j as int {
                    assert(ts[x] == rs[x] && ts[y] == v@[i as int]@);
                } else if x < j as int {
                    assert(ts[x] == rs[x] && ts[y] == rs[y - 1]);
                    if x < j as int && j as int <= y - 1 {
                        if (j as int) < rs.len() {
                            assert(leq(rs[x], rs[y - 1]));
                        }
                    }
                } else if x == j as int {
                    assert(ts[x] == v@[i as int]@ && ts[y] == rs[y - 1]);
                    assert(!key_le(rs[j as int], m@));
                    assert(key_lt(m@, rs[j as int]));
                    if y - 1 == j as int {
                        lemma_key_asymmetric(m@, rs[j as int]);
                    } else {
                        assert(leq(rs[j as int], rs[y - 1]));
                        if key_lt(rs[y - 1], m@) {
                            lemma_key_transitive(rs[y - 1], m@, rs[j as int]);
                        }
                    }
                } else {
                    assert(ts[x] == rs[x - 1] && ts[y] == rs[y - 1]);
                }
            }
            assert(sorted_by(members_view(r@), points_order()));
            assert(v@.subrange(0, i + 1 as int) =~= v@.subrange(0, i as int).push(v@[i as int]));
            assert(members_view(v@.subrange(0, i + 1 as int)) =~= members_view(
                v@.subrange(0, i as int),
            ).push(v@[i as int]@));
            broadcast use vstd::seq_lib::group_to_multiset_ensures;
        }
        i = i + 1;
    }
    proof {
        assert(v@.subrange(0, v@.len() as int) =~= v@);
        lemma_by_points_ensures(members_view(v@));
        lemma_sorted_unique(members_view(r@), by_points(members_view(v@)), points_order());
    }
    r
}

/// The first traversal position strictly after the cursor.
pub open spec fn first_after_idx(s: Seq<MemberData>, c: MemberData) -> int
    decreases s.len(),
{
    if s.len() == 0 {
        0
    } else if key_le(s[0], c) {
        1 + first_after_idx(s.drop_first(), c)
    } else {
        0
    }
}

/// `first_after_idx` splits a sorted traversal at the cursor.
pub proof fn lemma_first_after(s: Seq<MemberData>, c: MemberData)
    requires
        sorted_by(s, points_order()),
    ensures
        0 <= first_after_idx(s, c) <= s.len(),
        forall|i: int| 0 <= i < first_after_idx(s, c) ==> key_le(#[trigger] s[i], c),
        forall|i: int| first_after_idx(s, c) <= i < s.len() ==> !key_le(#[trigger] s[i], c),
    decreases s.len(),
{
    if s.len() > 0 {
        assert(s.drop_first() =~= s.subrange(1, s.len() as int));
        assert forall|x: int, y: int|
            0 <= x < y < s.drop_first().len() implies (points_order())(
            s.drop_first()[x],
            s.drop_first()[y],
        ) by {
            assert(s.drop_first()[x] == s[x + 1] && s.drop_first()[y] == s[y + 1]);
            assert((points_order())(s[x + 1], s[y + 1]));
        }
        lemma_first_after(s.drop_first(), c);
        let idx = first_after_idx(s, c);
        if key_le(s[0], c) {
            assert forall|i: int| 0 <= i < idx implies key_le(#[trigger] s[i], c) by {
                if i > 0 {
                    assert(s.drop_first()[i - 1] == s[i]);
                }
            }
            assert forall|i: int| idx <= i < s.len() implies !key_le(#[trigger] s[i], c) by {
                assert(s.drop_first()[i - 1] == s[i]);
            }
        } else {
            assert forall|i: int| 0 <= i < s.len() implies !key_le(#[trigger] s[i], c) by {
                if i > 0 {
                    assert((points_order())(s[0], s[i]));
                    assert(key_lt(c, s[0]));
                    if s[0] == s[i] {
                    } else if key_lt(s[0], s[i]) {
                        lemma_key_transitive(c, s[0], s[i]);
                    } else {
                        lemma_key_connects(s[0], s[i]);
                    }
                }
            }
        }
    }
}

/// Only one position can satisfy the cursor-split characterization.
pub proof fn lemma_first_after_unique(s: Seq<MemberData>, c: MemberData, j: int)
    requires
        sorted_by(s, points_order()),
        0 <= j <= s.len(),
        forall|i: int| 0 <= i < j ==> key_le(#[trigger] s[i], c),
        j < s.len() ==> !key_le(s[j], c),
    ensures
        j == first_after_idx(s, c),
{
    lemma_first_after(s, c);
    let idx = first_after_idx(s, c);
    if j < idx {
        assert(key_le(s[j], c));
    }
    if idx < j {
        assert(key_le(s[idx], c));
    }
}

/// Finds the first traversal position strictly after the cursor.
pub fn find_first_after(v: &Vec<Member>, cursor: &Member) -> (r: usize)
    requires
        sorted_by(members_view(v@), points_order()),
    ensures
        r as int == first_after_idx(members_view(v@), cursor@),
        r <= v.len(),
{
    let ghost s = members_view(v@);
    let mut j: usize = 0;
    while j < v.len() && key_le_exec(&v[j], cursor)
        invariant
            0 <= j <= v.len(),
            s == members_view(v@),
            s.len() == v@.len(),
            forall|k: int| 0 <= k < j ==> key_le(#[trigger] s[k], cursor@),
        decreases v.len() - j,
    {
        j = j + 1;
    }
    proof {
        lemma_first_after_unique(s, cursor@, j as int);
    }
    j
}

} // verus!
