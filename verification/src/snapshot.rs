//! The snapshot store's current state: member records kept strictly sorted by
//! address.  The functional model (`lookup`, `store`, `erase`, `sum_points`)
//! is what every engine contract speaks of; the executable operations are
//! proved equal to it.

use vstd::prelude::*;
use crate::addr::{
    lex_lt, lemma_lex_irreflexive, lemma_lex_connected, lemma_lex_asymmetric, lemma_lex_transitive,
    Cmp, str_compare,
};
use crate::msg::{Member, MemberData, members_view};

verus! {

/// Records are strictly ordered by address: sorted and duplicate-free.
pub open spec fn addrs_sorted(s: Seq<MemberData>) -> bool {
    forall|i: int, j: int|
        0 <= i < j < s.len() ==> lex_lt(#[trigger] s[i].addr, #[trigger] s[j].addr)
}

/// The record stored under an address: the first match.
pub open spec fn lookup(s: Seq<MemberData>, a: Seq<char>) -> Option<MemberData>
    decreases s.len(),
{
    if s.len() == 0 {
        None
    } else if s[0].addr == a {
        Some(s[0])
    } else {
        lookup(s.drop_first(), a)
    }
}

/// The points stored under an address, zero when absent.
pub open spec fn points_of(s: Seq<MemberData>, a: Seq<char>) -> int {
    match lookup(s, a) {
        Some(x) => x.points as int,
        None => 0,
    }
}

/// Writes a record, keeping the address order: replaces the record of the
/// same address or inserts at the ordered position.
pub open spec fn store(s: Seq<MemberData>, m: MemberData) -> Seq<MemberData>
    decreases s.len(),
{
    if s.len() == 0 {
        seq![m]
    } else if lex_lt(m.addr, s[0].addr) {
        seq![m] + s
    } else if m.addr == s[0].addr {
        seq![m] + s.drop_first()
    } else {
        seq![s[0]] + store(s.drop_first(), m)
    }
}

/// Removes the record of an address, if any.
pub open spec fn erase(s: Seq<MemberData>, a: Seq<char>) -> Seq<MemberData>
    decreases s.len(),
{
    if s.len() == 0 {
        s
    } else if s[0].addr == a {
        s.drop_first()
    } else {
        seq![s[0]] + erase(s.drop_first(), a)
    }
}

/// The sum of all stored points.
pub open spec fn sum_points(s: Seq<MemberData>) -> int
    decreases s.len(),
{
    if s.len() == 0 {
        0
    } else {
        s[0].points + sum_points(s.drop_first())
    }
}

/// The count of records whose address precedes `a`.
pub open spec fn lower_bound_idx(s: Seq<MemberData>, a: Seq<char>) -> int
    decreases s.len(),
{
    if s.len() == 0 {
        0
    } else if lex_lt(s[0].addr, a) {
        1 + lower_bound_idx(s.drop_first(), a)
    } else {
        0
    }
}

/// Prepending one record: the shape every recursive definition steps through.
proof fn lemma_cons(x: MemberData, s: Seq<MemberData>)
    ensures
        (seq![x] + s).len() == s.len() + 1,
        (seq![x] + s)[0] == x,
        (seq![x] + s).drop_first() == s,
        forall|k: int| 0 <= k < s.len() ==> (seq![x] + s)[k + 1] == s[k],
{
    assert((seq![x] + s).drop_first() =~= s);
}

/// A strictly sorted sequence stays sorted when its head is dropped.
proof fn lemma_sorted_drop(s: Seq<MemberData>)
    requires
        addrs_sorted(s),
        s.len() > 0,
    ensures
        addrs_sorted(s.drop_first()),
{
    assert forall|i: int, j: int|
        0 <= i < j < s.drop_first().len() implies lex_lt(
        #[trigger] s.drop_first()[i].addr,
        #[trigger] s.drop_first()[j].addr,
    ) by {
        assert(s.drop_first()[i] == s[i + 1]);
        assert(s.drop_first()[j] == s[j + 1]);
    }
}

/// If no record carries the address, `lookup` is empty.
pub proof fn lemma_lookup_none(s: Seq<MemberData>, a: Seq<char>)
    requires
        forall|k: int| 0 <= k < s.len() ==> (#[trigger] s[k].addr) != a,
    ensures
        lookup(s, a) is None,
    decreases s.len(),
{
    if s.len() > 0 {
        assert forall|k: int| 0 <= k < s.drop_first().len() implies (
        #[trigger] s.drop_first()[k].addr) != a by {
            assert(s.drop_first()[k] == s[k + 1]);
        }
        lemma_lookup_none(s.drop_first(), a);
    }
}

/// The first record carrying the address is the `lookup` result.
pub proof fn lemma_lookup_at(s: Seq<MemberData>, a: Seq<char>, i: int)
    requires
        0 <= i < s.len(),
        s[i].addr == a,
        forall|k: int| 0 <= k < i ==> (#[trigger] s[k].addr) != a,
    ensures
        lookup(s, a) == Some(s[i]),
    decreases i,
{
    if i > 0 {
        assert(s.drop_first()[i - 1] == s[i]);
        assert forall|k: int| 0 <= k < i - 1 implies (#[trigger] s.drop_first()[k].addr) != a by {
            assert(s.drop_first()[k] == s[k + 1]);
        }
        lemma_lookup_at(s.drop_first(), a, i - 1);
    }
}

/// `lower_bound_idx` splits a sorted sequence at the given address.
pub proof fn lemma_lower_bound(s: Seq<MemberData>, a: Seq<char>)
    requires
        addrs_sorted(s),
    ensures
        0 <= lower_bound_idx(s, a) <= s.len(),
        forall|i: int| 0 <= i < lower_bound_idx(s, a) ==> lex_lt(#[trigger] s[i].addr, a),
        forall|i: int| lower_bound_idx(s, a) <= i < s.len() ==> !lex_lt(#[trigger] s[i].addr, a),
    decreases s.len(),
{
    if s.len() > 0 {
        lemma_sorted_drop(s);
        lemma_lower_bound(s.drop_first(), a);
        let lb = lower_bound_idx(s, a);
        if lex_lt(s[0].addr, a) {
            assert forall|i: int| 0 <= i < lb implies lex_lt(#[trigger] s[i].addr, a) by {
                if i > 0 {
                    assert(s.drop_first()[i - 1] == s[i]);
                }
            }
            assert forall|i: int| lb <= i < s.len() implies !lex_lt(#[trigger] s[i].addr, a) by {
                assert(s.drop_first()[i - 1] == s[i]);
            }
        } else {
            assert forall|i: int| 0 <= i < s.len() implies !lex_lt(#[trigger] s[i].addr, a) by {
                if i > 0 {
                    if lex_lt(s[i].addr, a) {
                        if s[0].addr == a {
                            lemma_lex_asymmetric(s[0].addr, s[i].addr);
                        } else {
                            lemma_lex_connected(s[0].addr, a);
                            lemma_lex_transitive(s[i].addr, a, s[0].addr);
                            lemma_lex_asymmetric(s[0].addr, s[i].addr);
                        }
                    }
                }
            }
        }
    }
}

/// Only one position can satisfy the lower-bound characterization.
pub proof fn lemma_lower_bound_unique(s: Seq<MemberData>, a: Seq<char>, j: int)
    requires
        addrs_sorted(s),
        0 <= j <= s.len(),
        forall|i: int| 0 <= i < j ==> lex_lt(#[trigger] s[i].addr, a),
        j < s.len() ==> !lex_lt(s[j].addr, a),
    ensures
        j == lower_bound_idx(s, a),
{
    lemma_lower_bound(s, a);
    let lb = lower_bound_idx(s, a);
    if j < lb {
        assert(lex_lt(s[j].addr, a));
    }
    if lb < j {
        assert(lex_lt(s[lb].addr, a));
    }
}

/// `store` is the ordered insert-or-replace at the lower-bound position.
pub proof fn lemma_store_at(s: Seq<MemberData>, m: MemberData)
    requires
        addrs_sorted(s),
    ensures
        ({
            let j = lower_bound_idx(s, m.addr);
            if j < s.len() && s[j].addr == m.addr {
                store(s, m) == s.update(j, m)
            } else {
                store(s, m) == s.insert(j, m)
            }
        }),
    decreases s.len(),
{
    let j = lower_bound_idx(s, m.addr);
    if s.len() == 0 {
        assert(store(s, m) =~= s.insert(0, m));
    } else if lex_lt(m.addr, s[0].addr) {
        lemma_lex_asymmetric(m.addr, s[0].addr);
        lemma_lex_irreflexive(m.addr);
        assert(s[0].addr != m.addr);
        assert(j == 0);
        assert(store(s, m) =~= s.insert(0, m));
    } else if m.addr == s[0].addr {
        lemma_lex_irreflexive(m.addr);
        assert(j == 0);
        assert(store(s, m) =~= s.update(0, m));
    } else {
        lemma_lex_connected(m.addr, s[0].addr);
        assert(lex_lt(s[0].addr, m.addr));
        lemma_sorted_drop(s);
        lemma_store_at(s.drop_first(), m);
        lemma_lower_bound(s.drop_first(), m.addr);
        let j1 = lower_bound_idx(s.drop_first(), m.addr);
        assert(j == 1 + j1);
        lemma_cons(s[0], store(s.drop_first(), m));
        assert forall|k: int| 0 <= k < s.drop_first().len() implies s.drop_first()[k] == s[k
            + 1] by {}
        if j1 < s.drop_first().len() && s.drop_first()[j1].addr == m.addr {
            assert(store(s, m) =~= s.update(j, m));
        } else {
            assert(store(s, m) =~= s.insert(j, m));
        }
    }
}

/// Storing keeps the strict address order.
pub proof fn lemma_store_sorted(s: Seq<MemberData>, m: MemberData)
    requires
        addrs_sorted(s),
    ensures
        addrs_sorted(store(s, m)),
{
    lemma_lower_bound(s, m.addr);
    lemma_store_at(s, m);
    let j = lower_bound_idx(s, m.addr);
    if j < s.len() && s[j].addr == m.addr {
        let t = s.update(j, m);
        assert forall|x: int, y: int|
            0 <= x < y < t.len() implies lex_lt(#[trigger] t[x].addr, #[trigger] t[y].addr) by {
            assert(lex_lt(s[x].addr, s[y].addr));
        }
    } else {
        let t = s.insert(j, m);
        assert forall|i: int| j <= i < s.len() implies lex_lt(m.addr, #[trigger] s[i].addr) by {
            assert(!lex_lt(s[i].addr, m.addr));
            if s[i].addr != m.addr {
                lemma_lex_connected(m.addr, s[i].addr);
            } else {
                assert(i != j);
                assert(lex_lt(s[j].addr, s[i].addr) || s[j].addr == m.addr);
                if j < s.len() {
                    lemma_lex_asymmetric(s[j].addr, s[i].addr);
                    assert(false);
                } else {
                    assert(false);
                }
            }
        }
        assert forall|x: int, y: int|
            0 <= x < y < t.len() implies lex_lt(#[trigger] t[x].addr, #[trigger] t[y].addr) by {
            if x < j && y < j {
            } else if x < j && y == j {
                assert(t[x] == s[x] && t[y] == m);
            } else if x < j && y > j {
                assert(t[x] == s[x] && t[y] == s[y - 1]);
            } else if x == j {
                assert(t[x] == m && t[y] == s[y - 1]);
            } else {
                assert(t[x] == s[x - 1] && t[y] == s[y - 1]);
            }
        }
    }
}

/// What `store` leaves under each address.
#[verifier::rlimit(60)]
#[verifier::spinoff_prover]
pub proof fn lemma_store_lookup(s: Seq<MemberData>, m: MemberData, a: Seq<char>)
    ensures
        lookup(store(s, m), a) == if a == m.addr {
            Some(m)
        } else {
            lookup(s, a)
        },
    decreases s.len(),
{
    if s.len() == 0 {
        lemma_cons(m, Seq::empty());
        assert(seq![m] =~= seq![m] + Seq::<MemberData>::empty());
        assert(seq![m].drop_first() =~= Seq::<MemberData>::empty());
        assert(lookup(Seq::<MemberData>::empty(), a) is None);
        if a == m.addr {
            assert(lookup(store(s, m), a) == Some(m));
        } else {
            assert(lookup(store(s, m), a) == lookup(s, a));
        }
    } else if lex_lt(m.addr, s[0].addr) {
        lemma_cons(m, s);
        assert(store(s, m) == seq![m] + s);
        if a == m.addr {
            assert(lookup(store(s, m), a) == Some(m));
        } else {
            assert(lookup(store(s, m), a) == lookup(s, a));
        }
    } else if m.addr == s[0].addr {
        lemma_cons(m, s.drop_first());
        if a == m.addr {
            assert(lookup(store(s, m), a) == Some(m));
        } else {
            assert(lookup(store(s, m), a) == lookup(s.drop_first(), a));
            assert(lookup(s, a) == lookup(s.drop_first(), a));
        }
    } else {
        lemma_cons(s[0], store(s.drop_first(), m));
        lemma_store_lookup(s.drop_first(), m, a);
        if a == s[0].addr {
            assert(lookup(store(s, m), a) == Some(s[0]));
            assert(lookup(s, a) == Some(s[0]));
        } else {
            assert(lookup(store(s, m), a) == lookup(store(s.drop_first(), m), a));
        }
    }
}

/// How `store` moves the sum: the old points leave, the new points enter.
pub proof fn lemma_store_sum(s: Seq<MemberData>, m: MemberData)
    requires
        addrs_sorted(s),
    ensures
        sum_points(store(s, m)) == sum_points(s) - points_of(s, m.addr) + m.points,
    decreases s.len(),
{
    if s.len() == 0 {
        assert(seq![m].drop_first() =~= Seq::<MemberData>::empty());
        assert(sum_points(Seq::<MemberData>::empty()) == 0);
        assert(sum_points(seq![m]) == m.points + sum_points(seq![m].drop_first()));
        assert(sum_points(store(s, m)) == sum_points(s) - points_of(s, m.addr) + m.points);
    } else if lex_lt(m.addr, s[0].addr) {
        lemma_cons(m, s);
        assert forall|k: int| 0 <= k < s.len() implies (#[trigger] s[k].addr) != m.addr by {
            if k == 0 {
                lemma_lex_irreflexive(m.addr);
            } else {
                if s[k].addr == m.addr {
                    lemma_lex_asymmetric(m.addr, s[0].addr);
                }
            }
        }
        lemma_lookup_none(s, m.addr);
        assert(sum_points(seq![m] + s) == m.points + sum_points(s));
        assert(sum_points(store(s, m)) == sum_points(s) - points_of(s, m.addr) + m.points);
    } else if m.addr == s[0].addr {
        lemma_cons(m, s.drop_first());
        assert(sum_points(store(s, m)) == sum_points(s) - points_of(s, m.addr) + m.points);
    } else {
        lemma_cons(s[0], store(s.drop_first(), m));
        lemma_sorted_drop(s);
        lemma_store_sum(s.drop_first(), m);
        assert(sum_points(store(s, m)) == sum_points(s) - points_of(s, m.addr) + m.points);
    }
}

/// What `erase` leaves under each address, on a sorted sequence.
pub proof fn lemma_erase_lookup(s: Seq<MemberData>, a: Seq<char>, b: Seq<char>)
    requires
        addrs_sorted(s),
    ensures
        lookup(erase(s, a), b) == if b == a {
            None::<MemberData>
        } else {
            lookup(s, b)
        },
    decreases s.len(),
{
    if s.len() == 0 {
    } else if s[0].addr == a {
        if b == a {
            assert forall|k: int| 0 <= k < s.drop_first().len() implies (
            #[trigger] s.drop_first()[k].addr) != a by {
                assert(s.drop_first()[k] == s[k + 1]);
                lemma_lex_irreflexive(a);
            }
            lemma_lookup_none(s.drop_first(), a);
        }
    } else {
        lemma_cons(s[0], erase(s.drop_first(), a));
        lemma_sorted_drop(s);
        lemma_erase_lookup(s.drop_first(), a, b);
    }
}

/// Erasing keeps the strict address order.
pub proof fn lemma_erase_sorted(s: Seq<MemberData>, a: Seq<char>)
    requires
        addrs_sorted(s),
    ensures
        addrs_sorted(erase(s, a)),
    decreases s.len(),
{
    if s.len() == 0 {
    } else if s[0].addr == a {
        lemma_sorted_drop(s);
    } else {
        lemma_sorted_drop(s);
        lemma_erase_sorted(s.drop_first(), a);
        let t = seq![s[0]] + erase(s.drop_first(), a);
        lemma_cons(s[0], erase(s.drop_first(), a));
        lemma_erase_members(s.drop_first(), a);
        assert forall|x: int, y: int|
            0 <= x < y < t.len() implies lex_lt(#[trigger] t[x].addr, #[trigger] t[y].addr) by {
            if x == 0 {
                let e = erase(s.drop_first(), a);
                assert(t[y] == e[y - 1]);
                let i = choose|i: int|
                    0 <= i < s.drop_first().len() && s.drop_first()[i] == e[y - 1];
                assert(s.drop_first()[i] == s[i + 1]);
            } else {
                let e = erase(s.drop_first(), a);
                assert(t[x] == e[x - 1] && t[y] == e[y - 1]);
            }
        }
    }
}

/// Every record after `store` is the stored one or one already present.
pub proof fn lemma_store_elems(s: Seq<MemberData>, m: MemberData)
    requires
        addrs_sorted(s),
    ensures
        forall|k: int|
            0 <= k < store(s, m).len() ==> store(s, m)[k] == m || exists|i: int|
                0 <= i < s.len() && s[i] == #[trigger] store(s, m)[k],
{
    lemma_lower_bound(s, m.addr);
    lemma_store_at(s, m);
    let j = lower_bound_idx(s, m.addr);
    let t = store(s, m);
    assert forall|k: int| 0 <= k < t.len() implies t[k] == m || exists|i: int|
        0 <= i < s.len() && s[i] == #[trigger] t[k] by {
        if j < s.len() && s[j].addr == m.addr {
            if k != j {
                assert(t[k] == s[k]);
            }
        } else {
            if k < j {
                assert(t[k] == s[k]);
            } else if k > j {
                assert(t[k] == s[k - 1]);
            }
        }
    }
}

/// Every record surviving `erase` was already present before it.
pub proof fn lemma_erase_members(s: Seq<MemberData>, a: Seq<char>)
    ensures
        erase(s, a).len() <= s.len(),
        forall|k: int|
            0 <= k < erase(s, a).len() ==> exists|i: int|
                0 <= i < s.len() && s[i] == #[trigger] erase(s, a)[k],
    decreases s.len(),
{
    if s.len() == 0 {
    } else if s[0].addr == a {
        assert forall|k: int| 0 <= k < erase(s, a).len() implies exists|i: int|
            0 <= i < s.len() && s[i] == #[trigger] erase(s, a)[k] by {
            assert(erase(s, a)[k] == s[k + 1]);
        }
    } else {
        lemma_erase_members(s.drop_first(), a);
        lemma_cons(s[0], erase(s.drop_first(), a));
        assert forall|k: int| 0 <= k < erase(s, a).len() implies exists|i: int|
            0 <= i < s.len() && s[i] == #[trigger] erase(s, a)[k] by {
            if k == 0 {
                assert(erase(s, a)[0] == s[0]);
            } else {
                let e1 = erase(s.drop_first(), a);
                assert(erase(s, a)[k] == e1[k - 1]);
                let i = choose|i: int|
                    0 <= i < s.drop_first().len() && s.drop_first()[i] == e1[k - 1];
                assert(s.drop_first()[i] == s[i + 1]);
            }
        }
    }
}

/// How `erase` moves the sum: the erased points leave.
pub proof fn lemma_erase_sum(s: Seq<MemberData>, a: Seq<char>)
    ensures
        sum_points(erase(s, a)) == sum_points(s) - points_of(s, a),
    decreases s.len(),
{
    if s.len() == 0 {
    } else if s[0].addr == a {
    } else {
        lemma_cons(s[0], erase(s.drop_first(), a));
        lemma_erase_sum(s.drop_first(), a);
    }
}

/// Erasing an absent address changes nothing.
pub proof fn lemma_erase_absent(s: Seq<MemberData>, a: Seq<char>)
    requires
        lookup(s, a) is None,
    ensures
        erase(s, a) == s,
    decreases s.len(),
{
    if s.len() > 0 {
        lemma_erase_absent(s.drop_first(), a);
        lemma_cons(s[0], erase(s.drop_first(), a));
        assert(erase(s, a) =~= s);
    }
}

/// The sum of points is never negative.
pub proof fn lemma_sum_nonneg(s: Seq<MemberData>)
    ensures
        sum_points(s) >= 0,
    decreases s.len(),
{
    if s.len() > 0 {
        lemma_sum_nonneg(s.drop_first());
    }
}

/// No single record holds more points than the whole sum.
pub proof fn lemma_points_le_sum(s: Seq<MemberData>, a: Seq<char>)
    ensures
        points_of(s, a) <= sum_points(s),
        points_of(s, a) >= 0,
    decreases s.len(),
{
    lemma_sum_nonneg(s);
    if s.len() > 0 {
        lemma_points_le_sum(s.drop_first(), a);
        if s[0].addr == a {
            lemma_sum_nonneg(s.drop_first());
        }
    }
}

/// Looks a member up by address.
pub fn get_member(v: &Vec<Member>, addr: &str) -> (r: Option<(u64, u64)>)
    ensures
        r == match lookup(members_view(v@), addr@) {
            Some(x) => Some((x.points, x.start_height)),
            None => None::<(u64, u64)>,
        },
{
    let ghost s = members_view(v@);
    let mut i: usize = 0;
    while i < v.len()
        invariant
            0 <= i <= v.len(),
            s == members_view(v@),
            s.len() == v@.len(),
            forall|k: int| 0 <= k < i ==> (#[trigger] s[k].addr) != addr@,
        decreases v.len() - i,
    {
        if crate::addr::str_eq(v[i].addr.as_str(), addr) {
            proof {
                lemma_lookup_at(s, addr@, i as int);
            }
            return Some((v[i].points, v[i].start_height));
        }
        i = i + 1;
    }
    proof {
        lemma_lookup_none(s, addr@);
    }
    None
}

/// Finds the lower-bound position for an address.
fn find_lower_bound(v: &Vec<Member>, addr: &str) -> (r: usize)
    requires
        addrs_sorted(members_view(v@)),
    ensures
        r as int == lower_bound_idx(members_view(v@), addr@),
        r <= v.len(),
{
    let ghost s = members_view(v@);
    let mut j: usize = 0;
    while j < v.len() && matches!(str_compare(v[j].addr.as_str(), addr), Cmp::Less)
        invariant
            0 <= j <= v.len(),
            s == members_view(v@),
            s.len() == v@.len(),
            forall|k: int| 0 <= k < j ==> lex_lt(#[trigger] s[k].addr, addr@),
        decreases v.len() - j,
    {
        j = j + 1;
    }
    proof {
        lemma_lower_bound_unique(s, addr@, j as int);
    }
    j
}

/// Writes a record into the sorted store.
pub fn store_member(v: &mut Vec<Member>, m: Member) -> (r: ())
    requires
        addrs_sorted(members_view(old(v)@)),
    ensures
        members_view(final(v)@) == store(members_view(old(v)@), m@),
        addrs_sorted(members_view(final(v)@)),
{
    let ghost s = members_view(v@);
    proof {
        lemma_store_at(s, m@);
        lemma_store_sorted(s, m@);
    }
    let j = find_lower_bound(v, m.addr.as_str());
    if j < v.len() && matches!(str_compare(v[j].addr.as_str(), m.addr.as_str()), Cmp::Equal) {
        v.remove(j);
        v.insert(j, m);
        proof {
            assert(members_view(v@) =~= s.update(j as int, m@));
        }
    } else {
        proof {
            if (j as int) < s.len() {
                assert(s[j as int].addr == v@[j as int]@.addr);
            }
        }
        v.insert(j, m);
        proof {
            assert(members_view(v@) =~= s.insert(j as int, m@));
        }
    }
}

/// Removes the record of an address from the sorted store.
pub fn erase_member(v: &mut Vec<Member>, addr: &str) -> (r: ())
    requires
        addrs_sorted(members_view(old(v)@)),
    ensures
        members_view(final(v)@) == erase(members_view(old(v)@), addr@),
        addrs_sorted(members_view(final(v)@)),
{
    let ghost s = members_view(v@);
    proof {
        lemma_erase_at(s, addr@);
        lemma_erase_sorted(s, addr@);
    }
    let j = find_lower_bound(v, addr);
    if j < v.len() && matches!(str_compare(v[j].addr.as_str(), addr), Cmp::Equal) {
        v.remove(j);
        proof {
            assert(members_view(v@) =~= s.remove(j as int));
        }
    } else {
        proof {
            lemma_lower_bound(s, addr@);
            assert forall|k: int| 0 <= k < s.len() implies (#[trigger] s[k].addr) != addr@ by {
                if k < j as int {
                    lemma_lex_irreflexive(addr@);
                } else {
                    if s[k].addr == addr@ {
                        assert(!lex_lt(s[k].addr, addr@));
                        if k == j as int {
                            assert(s[j as int].addr == v@[j as int]@.addr);
                            assert(false);
                        } else {
                            assert(lex_lt(s[j as int].addr, s[k].addr));
                            assert(s[j as int].addr == v@[j as int]@.addr);
                            lemma_lex_connected(s[j as int].addr, addr@);
                            lemma_lex_asymmetric(s[j as int].addr, s[k].addr);
                            assert(false);
                        }
                    }
                }
            }
            lemma_lookup_none(s, addr@);
            lemma_erase_absent(s, addr@);
        }
    }
}

/// `erase` is the ordered removal at the lower-bound position.
pub proof fn lemma_erase_at(s: Seq<MemberData>, a: Seq<char>)
    requires
        addrs_sorted(s),
    ensures
        ({
            let j = lower_bound_idx(s, a);
            if j < s.len() && s[j].addr == a {
                erase(s, a) == s.remove(j)
            } else {
                erase(s, a) == s
            }
        }),
    decreases s.len(),
{
    let j = lower_bound_idx(s, a);
    if s.len() == 0 {
    } else if s[0].addr == a {
        lemma_lex_irreflexive(a);
        assert(j == 0);
        assert(erase(s, a) =~= s.remove(0));
    } else if lex_lt(s[0].addr, a) {
        lemma_sorted_drop(s);
        lemma_erase_at(s.drop_first(), a);
        lemma_lower_bound(s.drop_first(), a);
        let j1 = lower_bound_idx(s.drop_first(), a);
        assert(j == 1 + j1);
        lemma_cons(s[0], erase(s.drop_first(), a));
        if j1 < s.drop_first().len() && s.drop_first()[j1].addr == a {
            assert(s.drop_first()[j1] == s[j]);
            assert(erase(s, a) =~= s.remove(j));
        } else {
            assert(erase(s, a) =~= s);
        }
    } else {
        assert(j == 0);
        lemma_lex_connected(s[0].addr, a);
        assert(lex_lt(a, s[0].addr));
        assert forall|k: int| 0 <= k < s.drop_first().len() implies (
        #[trigger] s.drop_first()[k].addr) != a by {
            assert(s.drop_first()[k] == s[k + 1]);
            if s[k + 1].addr == a {
                lemma_lex_asymmetric(a, s[0].addr);
            }
        }
        lemma_lookup_none(s.drop_first(), a);
        lemma_erase_absent(s.drop_first(), a);
        lemma_cons(s[0], erase(s.drop_first(), a));
        assert(erase(s, a) =~= s);
    }
}

/// A field-for-field copy of the whole store.
pub fn clone_members(v: &Vec<Member>) -> (r: Vec<Member>)
    ensures
        members_view(r@) == members_view(v@),
{
    let mut r: Vec<Member> = Vec::new();
    let mut i: usize = 0;
    while i < v.len()
        invariant
            0 <= i <= v.len(),
            r@.len() == i,
            forall|k: int| 0 <= k < i ==> (#[trigger] r@[k])@ == v@[k]@,
        decreases v.len() - i,
    {
        r.push(v[i].duplicate());
        i = i + 1;
    }
    proof {
        assert(members_view(r@) =~= members_view(v@));
    }
    r
}

} // verus!
