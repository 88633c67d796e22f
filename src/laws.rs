//! Properties that relate several operations of the store and of the query
//! path, proved over the models that their contracts use.

use vstd::prelude::*;
use crate::route::{
    after_unregister, BrokerGroup, BrokerLiveInfo, addrs_unique, consistent, filter_brokers, group_pos, has_addr,
    has_member, hosts, is_stale, keep_fresh, keep_live, queue_of, route_groups, set_group,
    stale_addrs,
};
use crate::processor::warm_up_over;

verus! {

/// How many times `x` occurs in `s`.
pub open spec fn count_of(s: Seq<Seq<char>>, x: Seq<char>) -> nat
    decreases s.len(),
{
    if s.len() == 0 {
        0
    } else {
        count_of(s.drop_last(), x) + if s.last() == x {
            1nat
        } else {
            0nat
        }
    }
}

proof fn lemma_route_groups_from(gs: Seq<BrokerGroup>, t: Seq<char>, bs: Seq<BrokerLiveInfo>)
    requires
        forall|i: int| 0 <= i < gs.len() ==> has_member(bs, (#[trigger] gs[i]).broker_name@),
    ensures
        forall|k: int| 0 <= k < route_groups(gs, t).len() ==> has_member(bs, (#[trigger] route_groups(gs, t)[k]).broker_name@),
    decreases gs.len(),
{
    if gs.len() > 0 {
        let d = gs.drop_last();
        assert forall|i: int| 0 <= i < d.len() implies has_member(bs, (#[trigger] d[i]).broker_name@) by {
            assert(d[i] == gs[i]);
        }
        lemma_route_groups_from(d, t, bs);
        assert(has_member(bs, gs[gs.len() - 1].broker_name@));
        let rg = route_groups(gs, t);
        let rest = route_groups(d, t);
        assert forall|k: int| 0 <= k < rg.len() implies has_member(bs, (#[trigger] rg[k]).broker_name@) by {
            if k < rest.len() {
                assert(rg[k] == rest[k]);
            } else {
                assert(rg[k] == gs[gs.len() - 1]);
            }
        }
    }
}

proof fn lemma_route_groups_keeps(gs: Seq<BrokerGroup>, t: Seq<char>, j: int)
    requires
        0 <= j < gs.len(),
        hosts(gs[j], t),
    ensures
        exists|k: int| 0 <= k < route_groups(gs, t).len() && route_groups(gs, t)[k] == gs[j],
    decreases gs.len(),
{
    let rg = route_groups(gs, t);
    if j == gs.len() - 1 {
        assert(rg[rg.len() - 1] == gs[j]);
    } else {
        let d = gs.drop_last();
        assert(d[j] == gs[j]);
        lemma_route_groups_keeps(d, t, j);
        let k = choose|k: int| 0 <= k < route_groups(d, t).len() && route_groups(d, t)[k] == d[j];
        assert(rg[k] == gs[j]);
    }
}

proof fn lemma_keep_live_keeps(gs: Seq<BrokerGroup>, bs: Seq<BrokerLiveInfo>, j: int)
    requires
        0 <= j < gs.len(),
        has_member(bs, gs[j].broker_name@),
    ensures
        exists|k: int| 0 <= k < keep_live(gs, bs).len() && keep_live(gs, bs)[k] == gs[j],
    decreases gs.len(),
{
    let kl = keep_live(gs, bs);
    if j == gs.len() - 1 {
        assert(kl[kl.len() - 1] == gs[j]);
    } else {
        let d = gs.drop_last();
        assert(d[j] == gs[j]);
        lemma_keep_live_keeps(d, bs, j);
        let k = choose|k: int| 0 <= k < keep_live(d, bs).len() && keep_live(d, bs)[k] == d[j];
        assert(kl[k] == gs[j]);
    }
}

proof fn lemma_group_pos_range(gs: Seq<BrokerGroup>, n: Seq<char>)
    ensures
        group_pos(gs, n) matches Some(j) ==> 0 <= j < gs.len(),
    decreases gs.len(),
{
    if gs.len() > 0 && gs[0].broker_name@ != n {
        lemma_group_pos_range(gs.skip(1), n);
    }
}

/// In a consistent store every topic that some group reports has at least one
/// queue data entry in its route, and each entry belongs to a group with a
/// live member: no topic is ever present and empty.
pub proof fn lemma_no_empty_topic(gs: Seq<BrokerGroup>, bs: Seq<BrokerLiveInfo>, t: Seq<char>, i: int)
    requires
        consistent(gs, bs),
        0 <= i < gs.len(),
        hosts(gs[i], t),
    ensures
        route_groups(gs, t).len() > 0,
        forall|k: int| 0 <= k < route_groups(gs, t).len() ==> has_member(bs, (#[trigger] route_groups(gs, t)[k]).broker_name@),
{
    lemma_route_groups_keeps(gs, t, i);
    lemma_route_groups_from(gs, t, bs);
}

/// After a registration of group `g`, which reports topic `t` and has a live
/// member in the new broker list `bs2`, the route of `t` holds `g` and its
/// queue data as reported.
pub proof fn lemma_registered_topic_found(
    gs: Seq<BrokerGroup>,
    g: BrokerGroup,
    bs2: Seq<BrokerLiveInfo>,
    t: Seq<char>,
)
    requires
        hosts(g, t),
        has_member(bs2, g.broker_name@),
    ensures
        exists|k: int|
            0 <= k < route_groups(keep_live(set_group(gs, g), bs2), t).len()
                && #[trigger] route_groups(keep_live(set_group(gs, g), bs2), t)[k] == g,
        route_groups(keep_live(set_group(gs, g), bs2), t).len() > 0,
{
    let s = set_group(gs, g);
    lemma_group_pos_range(gs, g.broker_name@);
    let j: int = match group_pos(gs, g.broker_name@) {
        Some(j) => j,
        None => gs.len() as int,
    };
    assert(s[j] == g);
    lemma_keep_live_keeps(s, bs2, j);
    let kl = keep_live(s, bs2);
    let k = choose|k: int| 0 <= k < kl.len() && kl[k] == s[j];
    lemma_route_groups_keeps(kl, t, k);
}

proof fn lemma_route_groups_empty(gs: Seq<BrokerGroup>, t: Seq<char>)
    requires
        forall|i: int| 0 <= i < gs.len() ==> !hosts(#[trigger] gs[i], t),
    ensures
        route_groups(gs, t).len() == 0,
    decreases gs.len(),
{
    if gs.len() > 0 {
        let d = gs.drop_last();
        assert forall|i: int| 0 <= i < d.len() implies !hosts(#[trigger] d[i], t) by {
            assert(d[i] == gs[i]);
        }
        lemma_route_groups_empty(d, t);
        assert(!hosts(gs[gs.len() - 1], t));
    }
}

/// When every group that hosts `t` is named `n`, and unregistering the broker
/// of `n` at `a` leaves `n` without a live member, the route of `t` is empty
/// afterwards: a later query finds no such topic.
pub proof fn lemma_topic_gone_after_last_host(
    gs: Seq<BrokerGroup>,
    bs: Seq<BrokerLiveInfo>,
    n: Seq<char>,
    a: Seq<char>,
    t: Seq<char>,
)
    requires
        forall|i: int| 0 <= i < gs.len() && hosts(#[trigger] gs[i], t) ==> gs[i].broker_name@ == n,
        !has_member(after_unregister(gs, bs, n, a).1, n),
    ensures
        route_groups(after_unregister(gs, bs, n, a).0, t).len() == 0,
{
    let after = after_unregister(gs, bs, n, a);
    crate::route::lemma_keep_live_members(gs, after.1);
    lemma_keep_live_from(gs, after.1);
    let kl = after.0;
    assert forall|i: int| 0 <= i < kl.len() implies !hosts(#[trigger] kl[i], t) by {
        assert(has_member(after.1, kl[i].broker_name@));
        if hosts(kl[i], t) {
            let j = choose|j: int| 0 <= j < gs.len() && gs[j] == kl[i];
            assert(hosts(gs[j], t));
        }
    }
    lemma_route_groups_empty(kl, t);
}

proof fn lemma_keep_live_from(gs: Seq<BrokerGroup>, bs: Seq<BrokerLiveInfo>)
    ensures
        forall|i: int| 0 <= i < keep_live(gs, bs).len() ==> exists|j: int| 0 <= j < gs.len() && gs[j] == #[trigger] keep_live(gs, bs)[i],
    decreases gs.len(),
{
    if gs.len() > 0 {
        let d = gs.drop_last();
        lemma_keep_live_from(d, bs);
        let kl = keep_live(gs, bs);
        let rest = keep_live(d, bs);
        assert forall|i: int| 0 <= i < kl.len() implies exists|j: int| 0 <= j < gs.len() && gs[j] == #[trigger] kl[i] by {
            if i < rest.len() {
                assert(kl[i] == rest[i]);
                let j = choose|j: int| 0 <= j < d.len() && d[j] == rest[i];
                assert(gs[j] == d[j]);
            } else {
                assert(gs[gs.len() - 1] == kl[i]);
            }
        }
    }
}

proof fn lemma_stale_count_absent(bs: Seq<BrokerLiveInfo>, now: u64, timeout: u64, x: Seq<char>)
    requires
        !has_addr(bs, x),
    ensures
        count_of(stale_addrs(bs, now, timeout), x) == 0,
    decreases bs.len(),
{
    if bs.len() > 0 {
        let d = bs.drop_last();
        if has_addr(d, x) {
            let i = choose|i: int| 0 <= i < d.len() && (#[trigger] d[i]).broker_addr@ == x;
            assert(bs[i] == d[i]);
        }
        lemma_stale_count_absent(d, now, timeout, x);
        assert(bs[bs.len() - 1] == bs.last());
        let sa = stale_addrs(bs, now, timeout);
        if is_stale(bs.last(), now, timeout) {
            assert(sa.drop_last() =~= stale_addrs(d, now, timeout));
        } else {
            assert(sa == stale_addrs(d, now, timeout));
        }
    }
}

proof fn lemma_drop_last_unique(bs: Seq<BrokerLiveInfo>)
    requires
        addrs_unique(bs),
        bs.len() > 0,
    ensures
        addrs_unique(bs.drop_last()),
        !has_addr(bs.drop_last(), bs.last().broker_addr@),
{
    let d = bs.drop_last();
    assert forall|i: int, j: int| 0 <= i < j < d.len() implies (#[trigger] d[i]).broker_addr@
        != (#[trigger] d[j]).broker_addr@ by {
        assert(d[i] == bs[i] && d[j] == bs[j]);
    }
    if has_addr(d, bs.last().broker_addr@) {
        let i = choose|i: int| 0 <= i < d.len() && (#[trigger] d[i]).broker_addr@ == bs.last().broker_addr@;
        assert(bs[i] == d[i]);
        assert(bs[bs.len() - 1] == bs.last());
    }
}

proof fn lemma_evicted_once(bs: Seq<BrokerLiveInfo>, now: u64, timeout: u64, i: int)
    requires
        addrs_unique(bs),
        0 <= i < bs.len(),
        is_stale(bs[i], now, timeout),
    ensures
        count_of(stale_addrs(bs, now, timeout), bs[i].broker_addr@) == 1,
        !has_addr(keep_fresh(bs, now, timeout), bs[i].broker_addr@),
    decreases bs.len(),
{
    let d = bs.drop_last();
    let x = bs[i].broker_addr@;
    let keep = |b: BrokerLiveInfo| !is_stale(b, now, timeout);
    lemma_drop_last_unique(bs);
    let sa = stale_addrs(bs, now, timeout);
    let kf = keep_fresh(bs, now, timeout);
    let rest = filter_brokers(d, keep);
    if i == bs.len() - 1 {
        lemma_stale_count_absent(d, now, timeout, x);
        crate::route::lemma_filter_no_addr(d, keep, x);
        assert(sa.drop_last() =~= stale_addrs(d, now, timeout));
        assert(kf == rest);
    } else {
        assert(d[i] == bs[i]);
        lemma_evicted_once(d, now, timeout, i);
        assert(bs[bs.len() - 1] == bs.last());
        assert(bs.last().broker_addr@ != x);
        if is_stale(bs.last(), now, timeout) {
            assert(sa.drop_last() =~= stale_addrs(d, now, timeout));
            assert(kf == rest);
        } else {
            assert(sa == stale_addrs(d, now, timeout));
            let r2 = rest.push(bs.last());
            assert(kf == r2);
            if has_addr(r2, x) {
                let k = choose|k: int| 0 <= k < r2.len() && (#[trigger] r2[k]).broker_addr@ == x;
                assert(r2[k] == rest[k]);
            }
        }
    }
}

/// After a scan at `now` with `timeout`, every broker whose last heartbeat is
/// older than `timeout` is gone from the broker list, is named exactly once
/// among the evicted addresses, and every group left has a live member.
pub proof fn lemma_eviction_cascade(gs: Seq<BrokerGroup>, bs: Seq<BrokerLiveInfo>, now: u64, timeout: u64)
    requires
        consistent(gs, bs),
    ensures
        forall|i: int| 0 <= i < bs.len() && is_stale(#[trigger] bs[i], now, timeout) ==> {
            &&& !has_addr(keep_fresh(bs, now, timeout), bs[i].broker_addr@)
            &&& count_of(stale_addrs(bs, now, timeout), bs[i].broker_addr@) == 1
        },
        consistent(keep_live(gs, keep_fresh(bs, now, timeout)), keep_fresh(bs, now, timeout)),
{
    assert forall|i: int| 0 <= i < bs.len() && is_stale(#[trigger] bs[i], now, timeout) implies {
        &&& !has_addr(keep_fresh(bs, now, timeout), bs[i].broker_addr@)
        &&& count_of(stale_addrs(bs, now, timeout), bs[i].broker_addr@) == 1
    } by {
        lemma_evicted_once(bs, now, timeout, i);
    }
    crate::route::lemma_filter_unique(bs, |b: BrokerLiveInfo| !is_stale(b, now, timeout));
    crate::route::lemma_keep_live_members(gs, keep_fresh(bs, now, timeout));
    crate::route::lemma_keep_live_unique(gs, keep_fresh(bs, now, timeout));
}

/// Whether the readiness latch is still set after queries at `times`, starting
/// from `warming`.
pub open spec fn latch_after(warming: bool, start: u64, wait_seconds: u64, times: Seq<u64>) -> bool
    decreases times.len(),
{
    if times.len() == 0 {
        warming
    } else {
        latch_after(warming, start, wait_seconds, times.drop_last()) && !warm_up_over(
            start,
            wait_seconds,
            times.last(),
        )
    }
}

/// Once the readiness latch has cleared it stays cleared, whatever queries
/// follow and whatever happens to the brokers meanwhile; so no later query is
/// answered `NotReady`.
pub proof fn lemma_latch_monotone(start: u64, wait_seconds: u64, times: Seq<u64>)
    ensures
        !latch_after(false, start, wait_seconds, times),
    decreases times.len(),
{
    if times.len() > 0 {
        lemma_latch_monotone(start, wait_seconds, times.drop_last());
    }
}

} // verus!
