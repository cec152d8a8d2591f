//! Engine-wide laws, each proved from the contracts the modules state.

use vstd::prelude::*;
use crate::addr::lemma_lex_irreflexive;
use crate::contract::{derived_points, sync_run, sync_step, SyncOutcome, MixerView};
use crate::index::{
    by_points, first_after_idx, key_le, key_lt, lemma_by_points_distinct, lemma_by_points_ensures,
    lemma_first_after_unique, lemma_key_asymmetric, lemma_key_connects, lemma_key_irreflexive,
    points_order,
};
use crate::msg::{DiffData, MemberData};
use crate::poe::PoEFunctionType;
use crate::snapshot::{
    addrs_sorted, lemma_erase_absent, lemma_erase_lookup, lemma_erase_sorted, lemma_lookup_none,
    lemma_store_lookup, lemma_store_sorted, lookup, store, sum_points,
};

verus! {

/// For every well-formed state — and every engine transition both requires
/// and ensures well-formedness — the aggregate total equals the sum of
/// points over all stored records.
pub proof fn lemma_total_is_aggregate(v: MixerView)
    requires
        v.wf(),
    ensures
        v.total as int == sum_points(v.members),
{
}

/// A batch run keeps the store strictly sorted.
pub proof fn lemma_run_sorted(
    ms: Seq<MemberData>,
    total: int,
    ft: PoEFunctionType,
    cs: Seq<DiffData>,
    os: Seq<Option<u64>>,
    h: u64,
)
    requires
        addrs_sorted(ms),
        cs.len() == os.len(),
    ensures
        sync_run(ms, total, ft, cs, os, h) matches SyncOutcome::Applied { members, .. }
            ==> addrs_sorted(members),
    decreases cs.len(),
{
    if cs.len() > 0 && crate::addr::valid_addr(cs[0].key) {
        let step = sync_step(ms, total, ft, cs[0].key, cs[0].new, os[0], h);
        if step.1 <= u64::MAX {
            match derived_points(ft, cs[0].new, os[0]) {
                Some(v) => {
                    let start = match lookup(ms, cs[0].key) {
                        Some(x) => x.start_height,
                        None => h,
                    };
                    lemma_store_sorted(
                        ms,
                        MemberData { addr: cs[0].key, points: v, start_height: start },
                    );
                },
                None => {
                    lemma_erase_sorted(ms, cs[0].key);
                },
            }
            lemma_run_sorted(step.0, step.1, ft, cs.drop_first(), os.drop_first(), h);
        }
    }
}

/// A batch run leaves every address it never touches exactly as it was.
pub proof fn lemma_run_untouched(
    ms: Seq<MemberData>,
    total: int,
    ft: PoEFunctionType,
    cs: Seq<DiffData>,
    os: Seq<Option<u64>>,
    h: u64,
    a: Seq<char>,
)
    requires
        addrs_sorted(ms),
        cs.len() == os.len(),
        forall|i: int| 0 <= i < cs.len() ==> (#[trigger] cs[i].key) != a,
    ensures
        sync_run(ms, total, ft, cs, os, h) matches SyncOutcome::Applied { members, .. } ==> lookup(
            members,
            a,
        ) == lookup(ms, a),
    decreases cs.len(),
{
    if cs.len() > 0 && crate::addr::valid_addr(cs[0].key) {
        let step = sync_step(ms, total, ft, cs[0].key, cs[0].new, os[0], h);
        if step.1 <= u64::MAX {
            match derived_points(ft, cs[0].new, os[0]) {
                Some(v) => {
                    let start = match lookup(ms, cs[0].key) {
                        Some(x) => x.start_height,
                        None => h,
                    };
                    let m = MemberData { addr: cs[0].key, points: v, start_height: start };
                    lemma_store_sorted(ms, m);
                    lemma_store_lookup(ms, m, a);
                },
                None => {
                    lemma_erase_sorted(ms, cs[0].key);
                    lemma_erase_lookup(ms, cs[0].key, a);
                },
            }
            assert forall|i: int| 0 <= i < cs.drop_first().len() implies (
            #[trigger] cs.drop_first()[i].key) != a by {
                assert(cs.drop_first()[i] == cs[i + 1]);
            }
            lemma_run_untouched(step.0, step.1, ft, cs.drop_first(), os.drop_first(), h, a);
        }
    }
}

/// An applied run's total stays where it started or within the unsigned
/// 64-bit range it was checked against.
proof fn lemma_run_total_bound(
    ms: Seq<MemberData>,
    total: int,
    ft: PoEFunctionType,
    cs: Seq<DiffData>,
    os: Seq<Option<u64>>,
    h: u64,
)
    requires
        cs.len() == os.len(),
    ensures
        sync_run(ms, total, ft, cs, os, h) matches SyncOutcome::Applied { total: t, .. } ==> (t
            <= u64::MAX || t == total),
    decreases cs.len(),
{
    if cs.len() > 0 && crate::addr::valid_addr(cs[0].key) {
        let step = sync_step(ms, total, ft, cs[0].key, cs[0].new, os[0], h);
        if step.1 <= u64::MAX {
            lemma_run_total_bound(step.0, step.1, ft, cs.drop_first(), os.drop_first(), h);
        }
    }
}

/// Writing back the record an address already holds changes nothing.
proof fn lemma_store_noop(s: Seq<MemberData>, m: MemberData)
    requires
        addrs_sorted(s),
        lookup(s, m.addr) == Some(m),
    ensures
        store(s, m) == s,
    decreases s.len(),
{
    if s.len() == 0 {
    } else if crate::addr::lex_lt(m.addr, s[0].addr) {
        assert forall|k: int| 0 <= k < s.len() implies (#[trigger] s[k].addr) != m.addr by {
            if k == 0 {
                lemma_lex_irreflexive(m.addr);
            } else {
                if s[k].addr == m.addr {
                    crate::addr::lemma_lex_asymmetric(m.addr, s[0].addr);
                }
            }
        }
        lemma_lookup_none(s, m.addr);
    } else if m.addr == s[0].addr {
        assert(lookup(s, m.addr) == Some(s[0]));
        assert(store(s, m) =~= s);
    } else {
        assert(s.drop_first() =~= s.subrange(1, s.len() as int));
        assert forall|x: int, y: int|
            0 <= x < y < s.drop_first().len() implies crate::addr::lex_lt(
            #[trigger] s.drop_first()[x].addr,
            #[trigger] s.drop_first()[y].addr,
        ) by {
            assert(s.drop_first()[x] == s[x + 1] && s.drop_first()[y] == s[y + 1]);
        }
        lemma_store_noop(s.drop_first(), m);
        assert(store(s, m) =~= s);
    }
}

/// Idempotence: re-applying an already-applied batch of changes for pairwise
/// distinct addresses — with no intervening change — leaves the store and
/// the aggregate total exactly as they were, at whatever later height the
/// repeat arrives.
pub proof fn lemma_sync_idempotent(
    ms: Seq<MemberData>,
    total: int,
    ft: PoEFunctionType,
    cs: Seq<DiffData>,
    os: Seq<Option<u64>>,
    h1: u64,
    h2: u64,
)
    requires
        addrs_sorted(ms),
        cs.len() == os.len(),
        forall|i: int, j: int|
            0 <= i < j < cs.len() ==> (#[trigger] cs[i].key) != (#[trigger] cs[j].key),
        sync_run(ms, total, ft, cs, os, h1) matches SyncOutcome::Applied { .. },
    ensures
        ({
            match sync_run(ms, total, ft, cs, os, h1) {
                SyncOutcome::Applied { members: m2, total: t2, .. } => match sync_run(
                    m2,
                    t2,
                    ft,
                    cs,
                    os,
                    h2,
                ) {
                    SyncOutcome::Applied { members: m3, total: t3, .. } => m3 == m2 && t3 == t2,
                    SyncOutcome::Rejected { .. } => false,
                },
                SyncOutcome::Rejected { .. } => true,
            }
        }),
    decreases cs.len(),
{
    if cs.len() == 0 {
    } else {
        let k0 = cs[0].key;
        let step = sync_step(ms, total, ft, k0, cs[0].new, os[0], h1);
        let ms1 = step.0;
        let t1 = step.1;
        let rest_c = cs.drop_first();
        let rest_o = os.drop_first();
        assert forall|i: int, j: int|
            0 <= i < j < rest_c.len() implies (#[trigger] rest_c[i].key) != (
        #[trigger] rest_c[j].key) by {
            assert(rest_c[i] == cs[i + 1] && rest_c[j] == cs[j + 1]);
        }
        assert forall|i: int| 0 <= i < rest_c.len() implies (#[trigger] rest_c[i].key) != k0 by {
            assert(rest_c[i] == cs[i + 1]);
        }
        let der = derived_points(ft, cs[0].new, os[0]);
        let start = match lookup(ms, k0) {
            Some(x) => x.start_height,
            None => h1,
        };
        match der {
            Some(v) => {
                lemma_store_sorted(ms, MemberData { addr: k0, points: v, start_height: start });
            },
            None => {
                lemma_erase_sorted(ms, k0);
            },
        }
        let r_rest = sync_run(ms1, t1, ft, rest_c, rest_o, h1);
        match r_rest {
            SyncOutcome::Applied { members: m2, total: t2, .. } => {
                lemma_run_untouched(ms1, t1, ft, rest_c, rest_o, h1, k0);
                lemma_run_sorted(ms1, t1, ft, rest_c, rest_o, h1);
                lemma_run_total_bound(ms1, t1, ft, rest_c, rest_o, h1);
                assert(t2 <= u64::MAX);
                // the repeated first step finds exactly what the first run wrote
                match der {
                    Some(v) => {
                        let m = MemberData { addr: k0, points: v, start_height: start };
                        lemma_store_lookup(ms, m, k0);
                        assert(lookup(m2, k0) == Some(m));
                        lemma_store_noop(m2, m);
                    },
                    None => {
                        lemma_erase_lookup(ms, k0, k0);
                        assert(lookup(m2, k0) is None);
                        lemma_erase_absent(m2, k0);
                    },
                }
                let step2 = sync_step(m2, t2, ft, k0, cs[0].new, os[0], h2);
                assert(step2.0 == m2);
                assert(step2.1 == t2);
                lemma_sync_idempotent(ms1, t1, ft, rest_c, rest_o, h1, h2);
            },
            SyncOutcome::Rejected { .. } => {},
        }
    }
}

/// Pagination completeness: over a fixed, well-formed store, the page that
/// starts strictly after the `i`-th entry of the traversal begins exactly at
/// position `i + 1` — so pages of one entry each, cursored by the last entry
/// seen, concatenate to one full traversal with no entry skipped or
/// repeated.
pub proof fn lemma_pagination_step(s: Seq<MemberData>, i: int)
    requires
        addrs_sorted(s),
        0 <= i < by_points(s).len(),
    ensures
        first_after_idx(by_points(s), by_points(s)[i]) == i + 1,
{
    let t = by_points(s);
    lemma_by_points_ensures(s);
    assert forall|a: int, b: int|
        0 <= a < b < s.len() implies (#[trigger] s[a].addr) != (#[trigger] s[b].addr) by {
        if s[a].addr == s[b].addr {
            lemma_lex_irreflexive(s[a].addr);
        }
    }
    lemma_by_points_distinct(s);
    assert forall|k: int| 0 <= k < i + 1 implies key_le(#[trigger] t[k], t[i]) by {
        if k < i {
            assert((points_order())(t[k], t[i]));
        } else {
            lemma_key_irreflexive(t[i]);
        }
    }
    if i + 1 < t.len() {
        assert((points_order())(t[i], t[i + 1]));
        assert(t[i].addr != t[i + 1].addr);
        if !key_lt(t[i], t[i + 1]) {
            lemma_key_connects(t[i], t[i + 1]);
        }
        lemma_key_asymmetric(t[i], t[i + 1]);
        assert(!key_le(t[i + 1], t[i]));
    }
    lemma_first_after_unique(t, t[i], i + 1);
}

} // verus!
