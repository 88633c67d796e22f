//! The topology store. Broker groups keep the topics they last reported;
//! brokers are liveness records that point at their group by name. A topic
//! exists exactly while some group reports it, and a group exists exactly while
//! it has a live member, so removals cascade by filtering, never by walking a
//! tree.

use vstd::prelude::*;

verus! {

/// A topic's queue layout as one broker group reports it.
pub struct TopicConfig {
    pub topic_name: String,
    pub read_queue_nums: u32,
    pub write_queue_nums: u32,
    pub perm: u32,
    pub topic_sys_flag: u32,
}

/// The queues that one broker group hosts for a topic.
pub struct QueueData {
    pub broker_name: String,
    pub read_queue_nums: u32,
    pub write_queue_nums: u32,
    pub perm: u32,
    pub topic_sys_flag: u32,
}

/// A broker group: its cluster, its name and the topics it last reported.
pub struct BrokerGroup {
    pub cluster_name: String,
    pub broker_name: String,
    pub topic_configs: Vec<TopicConfig>,
}

/// Liveness record of one broker address.
pub struct BrokerLiveInfo {
    pub broker_addr: String,
    pub broker_name: String,
    pub broker_id: u64,
    pub last_update_timestamp: u64,
    pub data_version: u64,
    /// Filter servers co-located with the broker.
    pub filter_servers: Vec<String>,
}

/// A broker group in a route: its cluster, name and member addresses by id.
pub struct BrokerData {
    pub cluster_name: String,
    pub broker_name: String,
    pub broker_addrs: Vec<(u64, String)>,
}

/// The route of one topic, assembled per query.
pub struct TopicRouteData {
    pub queue_datas: Vec<QueueData>,
    pub broker_datas: Vec<BrokerData>,
    pub order_topic_conf: Option<String>,
    /// Filter servers by broker address, for the members of the groups above.
    pub filter_server_table: Vec<(String, Vec<String>)>,
}

/// Why a registration was refused.
#[derive(PartialEq, Eq, Structural, Debug, Clone, Copy)]
pub enum RegisterError {
    MalformedRequest,
}

/// The topology store: broker groups in order of first registration, and the
/// live broker addresses.
pub struct RouteInfoManager {
    groups: Vec<BrokerGroup>,
    brokers: Vec<BrokerLiveInfo>,
}

/// First config in `cfgs` for topic `t`.
pub open spec fn find_config(cfgs: Seq<TopicConfig>, t: Seq<char>) -> Option<TopicConfig>
    decreases cfgs.len(),
{
    if cfgs.len() == 0 {
        None
    } else if cfgs[0].topic_name@ == t {
        Some(cfgs[0])
    } else {
        find_config(cfgs.skip(1), t)
    }
}

pub open spec fn hosts(g: BrokerGroup, t: Seq<char>) -> bool {
    find_config(g.topic_configs@, t) is Some
}

/// The queue data of group `g` for topic `t`, which it hosts.
pub open spec fn queue_of(g: BrokerGroup, t: Seq<char>) -> QueueData {
    let c = find_config(g.topic_configs@, t).unwrap();
    QueueData {
        broker_name: g.broker_name,
        read_queue_nums: c.read_queue_nums,
        write_queue_nums: c.write_queue_nums,
        perm: c.perm,
        topic_sys_flag: c.topic_sys_flag,
    }
}

/// Whether some broker in `bs` belongs to group `n`.
pub open spec fn has_member(bs: Seq<BrokerLiveInfo>, n: Seq<char>) -> bool {
    exists|i: int| 0 <= i < bs.len() && (#[trigger] bs[i]).broker_name@ == n
}

/// Whether some broker in `bs` has address `a`.
pub open spec fn has_addr(bs: Seq<BrokerLiveInfo>, a: Seq<char>) -> bool {
    exists|i: int| 0 <= i < bs.len() && (#[trigger] bs[i]).broker_addr@ == a
}

/// The groups of `gs` that still have a member in `bs`, in order.
pub open spec fn keep_live(gs: Seq<BrokerGroup>, bs: Seq<BrokerLiveInfo>) -> Seq<BrokerGroup>
    decreases gs.len(),
{
    if gs.len() == 0 {
        Seq::empty()
    } else {
        let rest = keep_live(gs.drop_last(), bs);
        if has_member(bs, gs.last().broker_name@) {
            rest.push(gs.last())
        } else {
            rest
        }
    }
}

/// Whether broker `b` is the one that group `n` has at address `a`.
pub open spec fn is_broker(b: BrokerLiveInfo, n: Seq<char>, a: Seq<char>) -> bool {
    b.broker_name@ == n && b.broker_addr@ == a
}

/// The brokers of `bs` that `keep` accepts, in order.
pub open spec fn filter_brokers(bs: Seq<BrokerLiveInfo>, keep: spec_fn(BrokerLiveInfo) -> bool) -> Seq<BrokerLiveInfo>
    decreases bs.len(),
{
    if bs.len() == 0 {
        Seq::empty()
    } else {
        let rest = filter_brokers(bs.drop_last(), keep);
        if keep(bs.last()) {
            rest.push(bs.last())
        } else {
            rest
        }
    }
}

/// `bs` without the broker of group `n` at address `a`.
pub open spec fn without_broker(bs: Seq<BrokerLiveInfo>, n: Seq<char>, a: Seq<char>) -> Seq<BrokerLiveInfo> {
    filter_brokers(bs, |b: BrokerLiveInfo| !is_broker(b, n, a))
}

/// `bs` without the brokers at address `a`.
pub open spec fn without_addr(bs: Seq<BrokerLiveInfo>, a: Seq<char>) -> Seq<BrokerLiveInfo> {
    filter_brokers(bs, |b: BrokerLiveInfo| b.broker_addr@ != a)
}

/// Whether broker `b` has sent no heartbeat for longer than `timeout` at `now`.
pub open spec fn is_stale(b: BrokerLiveInfo, now: u64, timeout: u64) -> bool {
    b.last_update_timestamp + timeout < now
}

/// The brokers of `bs` that are not stale.
pub open spec fn keep_fresh(bs: Seq<BrokerLiveInfo>, now: u64, timeout: u64) -> Seq<BrokerLiveInfo> {
    filter_brokers(bs, |b: BrokerLiveInfo| !is_stale(b, now, timeout))
}

/// Addresses of the stale brokers of `bs`, in order.
pub open spec fn stale_addrs(bs: Seq<BrokerLiveInfo>, now: u64, timeout: u64) -> Seq<Seq<char>>
    decreases bs.len(),
{
    if bs.len() == 0 {
        Seq::empty()
    } else {
        let rest = stale_addrs(bs.drop_last(), now, timeout);
        if is_stale(bs.last(), now, timeout) {
            rest.push(bs.last().broker_addr@)
        } else {
            rest
        }
    }
}

/// Index of the first group of `gs` named `n`.
pub open spec fn group_pos(gs: Seq<BrokerGroup>, n: Seq<char>) -> Option<int>
    decreases gs.len(),
{
    if gs.len() == 0 {
        None
    } else if gs[0].broker_name@ == n {
        Some(0)
    } else {
        match group_pos(gs.skip(1), n) {
            Some(j) => Some(j + 1),
            None => None,
        }
    }
}

/// `gs` with group `g` in place of the first of the same name, or appended.
pub open spec fn set_group(gs: Seq<BrokerGroup>, g: BrokerGroup) -> Seq<BrokerGroup> {
    match group_pos(gs, g.broker_name@) {
        Some(j) => gs.update(j, g),
        None => gs.push(g),
    }
}

/// The groups of `gs` that host topic `t`, in order.
pub open spec fn route_groups(gs: Seq<BrokerGroup>, t: Seq<char>) -> Seq<BrokerGroup>
    decreases gs.len(),
{
    if gs.len() == 0 {
        Seq::empty()
    } else {
        let rest = route_groups(gs.drop_last(), t);
        if hosts(gs.last(), t) {
            rest.push(gs.last())
        } else {
            rest
        }
    }
}

/// Id and address of each member of group `n`, in the order of `bs`.
pub open spec fn member_addrs(bs: Seq<BrokerLiveInfo>, n: Seq<char>) -> Seq<(u64, Seq<char>)>
    decreases bs.len(),
{
    if bs.len() == 0 {
        Seq::empty()
    } else {
        let rest = member_addrs(bs.drop_last(), n);
        if bs.last().broker_name@ == n {
            rest.push((bs.last().broker_id, bs.last().broker_addr@))
        } else {
            rest
        }
    }
}

/// Address and filter servers of each member of group `n` that has filter
/// servers, in the order of `bs`.
pub open spec fn member_filters(bs: Seq<BrokerLiveInfo>, n: Seq<char>) -> Seq<(Seq<char>, Seq<Seq<char>>)>
    decreases bs.len(),
{
    if bs.len() == 0 {
        Seq::empty()
    } else {
        let rest = member_filters(bs.drop_last(), n);
        let b = bs.last();
        if b.broker_name@ == n && b.filter_servers@.len() > 0 {
            rest.push((b.broker_addr@, string_views(b.filter_servers@)))
        } else {
            rest
        }
    }
}

/// Filter servers of the members of each group of `rg`, group after group.
pub open spec fn filters_of_groups(rg: Seq<BrokerGroup>, bs: Seq<BrokerLiveInfo>) -> Seq<(Seq<char>, Seq<Seq<char>>)>
    decreases rg.len(),
{
    if rg.len() == 0 {
        Seq::empty()
    } else {
        filters_of_groups(rg.drop_last(), bs) + member_filters(bs, rg.last().broker_name@)
    }
}

pub open spec fn filter_views(v: Seq<(String, Vec<String>)>) -> Seq<(Seq<char>, Seq<Seq<char>>)> {
    v.map_values(|p: (String, Vec<String>)| (p.0@, string_views(p.1@)))
}

pub open spec fn addr_views(v: Seq<(u64, String)>) -> Seq<(u64, Seq<char>)> {
    v.map_values(|p: (u64, String)| (p.0, p.1@))
}

/// `cfgs` without the configs of topic `t`, in order.
pub open spec fn strip_topic(cfgs: Seq<TopicConfig>, t: Seq<char>) -> Seq<TopicConfig>
    decreases cfgs.len(),
{
    if cfgs.len() == 0 {
        Seq::empty()
    } else {
        let rest = strip_topic(cfgs.drop_last(), t);
        if cfgs.last().topic_name@ == t {
            rest
        } else {
            rest.push(cfgs.last())
        }
    }
}

/// Whether no two groups of `gs` share a name.
pub open spec fn names_unique(gs: Seq<BrokerGroup>) -> bool {
    forall|i: int, j: int|
        0 <= i < j < gs.len() ==> (#[trigger] gs[i]).broker_name@ != (#[trigger] gs[j]).broker_name@
}

/// Whether a store with groups `gs` and brokers `bs` is consistent: each
/// address is registered once, group names are unique, and each group has a
/// live member.
pub open spec fn consistent(gs: Seq<BrokerGroup>, bs: Seq<BrokerLiveInfo>) -> bool {
    &&& addrs_unique(bs)
    &&& names_unique(gs)
    &&& forall|i: int| 0 <= i < gs.len() ==> has_member(bs, (#[trigger] gs[i]).broker_name@)
}

/// The store after group `n` unregisters its broker at `a`.
pub open spec fn after_unregister(
    gs: Seq<BrokerGroup>,
    bs: Seq<BrokerLiveInfo>,
    n: Seq<char>,
    a: Seq<char>,
) -> (Seq<BrokerGroup>, Seq<BrokerLiveInfo>) {
    let bs2 = without_broker(bs, n, a);
    (keep_live(gs, bs2), bs2)
}

proof fn lemma_take_step<T>(s: Seq<T>, i: int)
    requires
        0 <= i < s.len(),
    ensures
        s.take(i + 1).drop_last() == s.take(i),
        s.take(i + 1).last() == s[i],
{
    assert(s.take(i + 1).drop_last() =~= s.take(i));
}

pub proof fn lemma_keep_live_members(gs: Seq<BrokerGroup>, bs: Seq<BrokerLiveInfo>)
    ensures
        forall|i: int| 0 <= i < keep_live(gs, bs).len() ==> has_member(bs, (#[trigger] keep_live(gs, bs)[i]).broker_name@),
        keep_live(gs, bs).len() <= gs.len(),
    decreases gs.len(),
{
    if gs.len() > 0 {
        lemma_keep_live_members(gs.drop_last(), bs);
    }
}

pub proof fn lemma_group_pos_props(gs: Seq<BrokerGroup>, n: Seq<char>)
    ensures
        group_pos(gs, n) matches Some(j) ==> 0 <= j < gs.len() && gs[j].broker_name@ == n,
        group_pos(gs, n) is None ==> forall|i: int| 0 <= i < gs.len() ==> (#[trigger] gs[i]).broker_name@ != n,
    decreases gs.len(),
{
    if gs.len() > 0 && gs[0].broker_name@ != n {
        let r = gs.skip(1);
        lemma_group_pos_props(r, n);
        assert forall|i: int| 0 < i < gs.len() implies gs[i] == #[trigger] r[i - 1] by {}
        if group_pos(gs, n) is None {
            assert forall|i: int| 0 <= i < gs.len() implies (#[trigger] gs[i]).broker_name@ != n by {
                if i > 0 {
                    assert(gs[i] == r[i - 1]);
                }
            }
        }
    }
}

proof fn lemma_set_group_unique(gs: Seq<BrokerGroup>, g: BrokerGroup)
    requires
        names_unique(gs),
    ensures
        names_unique(set_group(gs, g)),
{
    lemma_group_pos_props(gs, g.broker_name@);
    let s = set_group(gs, g);
    assert forall|i: int, j: int| 0 <= i < j < s.len() implies (#[trigger] s[i]).broker_name@
        != (#[trigger] s[j]).broker_name@ by {
        match group_pos(gs, g.broker_name@) {
            Some(p) => {
                assert(gs[p].broker_name@ == g.broker_name@);
            },
            None => {
                if j == gs.len() {
                    assert(s[i] == gs[i]);
                }
            },
        }
    }
}

proof fn lemma_keep_live_no_name(gs: Seq<BrokerGroup>, bs: Seq<BrokerLiveInfo>, x: Seq<char>)
    requires
        forall|i: int| 0 <= i < gs.len() ==> (#[trigger] gs[i]).broker_name@ != x,
    ensures
        forall|i: int| 0 <= i < keep_live(gs, bs).len() ==> (#[trigger] keep_live(gs, bs)[i]).broker_name@ != x,
    decreases gs.len(),
{
    if gs.len() > 0 {
        let d = gs.drop_last();
        assert forall|i: int| 0 <= i < d.len() implies (#[trigger] d[i]).broker_name@ != x by {
            assert(d[i] == gs[i]);
        }
        lemma_keep_live_no_name(d, bs, x);
        let kl = keep_live(gs, bs);
        let rest = keep_live(d, bs);
        assert forall|i: int| 0 <= i < kl.len() implies (#[trigger] kl[i]).broker_name@ != x by {
            if i < rest.len() {
                assert(kl[i] == rest[i]);
            } else {
                assert(kl[i] == gs[gs.len() - 1]);
            }
        }
    }
}

pub proof fn lemma_keep_live_unique(gs: Seq<BrokerGroup>, bs: Seq<BrokerLiveInfo>)
    requires
        names_unique(gs),
    ensures
        names_unique(keep_live(gs, bs)),
    decreases gs.len(),
{
    if gs.len() > 0 {
        let d = gs.drop_last();
        let x = gs.last().broker_name@;
        assert forall|i: int, j: int| 0 <= i < j < d.len() implies (#[trigger] d[i]).broker_name@
            != (#[trigger] d[j]).broker_name@ by {
            assert(d[i] == gs[i] && d[j] == gs[j]);
        }
        lemma_keep_live_unique(d, bs);
        assert forall|i: int| 0 <= i < d.len() implies (#[trigger] d[i]).broker_name@ != x by {
            assert(d[i] == gs[i]);
            assert(gs[gs.len() - 1] == gs.last());
        }
        lemma_keep_live_no_name(d, bs, x);
        let kl = keep_live(gs, bs);
        let rest = keep_live(d, bs);
        if has_member(bs, x) {
            assert forall|i: int, j: int| 0 <= i < j < kl.len() implies (#[trigger] kl[i]).broker_name@
                != (#[trigger] kl[j]).broker_name@ by {
                assert(kl[i] == rest[i]);
                if j < rest.len() {
                    assert(kl[j] == rest[j]);
                } else {
                    assert(rest[i].broker_name@ != x);
                }
            }
        }
    }
}

proof fn lemma_keep_live_all(gs: Seq<BrokerGroup>, bs: Seq<BrokerLiveInfo>)
    requires
        forall|i: int| 0 <= i < gs.len() ==> has_member(bs, (#[trigger] gs[i]).broker_name@),
    ensures
        keep_live(gs, bs) == gs,
    decreases gs.len(),
{
    if gs.len() > 0 {
        let d = gs.drop_last();
        assert forall|i: int| 0 <= i < d.len() implies has_member(bs, (#[trigger] d[i]).broker_name@) by {
            assert(d[i] == gs[i]);
        }
        lemma_keep_live_all(d, bs);
        assert(has_member(bs, gs[gs.len() - 1].broker_name@));
        assert(d.push(gs.last()) =~= gs);
    }
}

proof fn lemma_filter_idem(bs: Seq<BrokerLiveInfo>, keep: spec_fn(BrokerLiveInfo) -> bool)
    ensures
        filter_brokers(filter_brokers(bs, keep), keep) == filter_brokers(bs, keep),
    decreases bs.len(),
{
    if bs.len() > 0 {
        lemma_filter_idem(bs.drop_last(), keep);
        let rest = filter_brokers(bs.drop_last(), keep);
        if keep(bs.last()) {
            let r2 = rest.push(bs.last());
            assert(r2.drop_last() =~= rest);
        }
    }
}

pub proof fn lemma_filter_no_addr(bs: Seq<BrokerLiveInfo>, keep: spec_fn(BrokerLiveInfo) -> bool, x: Seq<char>)
    requires
        !has_addr(bs, x),
    ensures
        !has_addr(filter_brokers(bs, keep), x),
    decreases bs.len(),
{
    if bs.len() > 0 {
        let d = bs.drop_last();
        if has_addr(d, x) {
            let i = choose|i: int| 0 <= i < d.len() && (#[trigger] d[i]).broker_addr@ == x;
            assert(bs[i] == d[i]);
        }
        lemma_filter_no_addr(d, keep, x);
        let rest = filter_brokers(d, keep);
        if keep(bs.last()) {
            let r2 = rest.push(bs.last());
            if has_addr(r2, x) {
                let i = choose|i: int| 0 <= i < r2.len() && (#[trigger] r2[i]).broker_addr@ == x;
                if i < rest.len() {
                    assert(rest[i] == r2[i]);
                } else {
                    assert(bs[bs.len() - 1] == bs.last());
                }
            }
        }
    }
}

proof fn lemma_filter_addr_gone(bs: Seq<BrokerLiveInfo>, a: Seq<char>)
    ensures
        !has_addr(without_addr(bs, a), a),
    decreases bs.len(),
{
    if bs.len() > 0 {
        lemma_filter_addr_gone(bs.drop_last(), a);
        let rest = without_addr(bs.drop_last(), a);
        if bs.last().broker_addr@ != a {
            let r2 = rest.push(bs.last());
            if has_addr(r2, a) {
                let i = choose|i: int| 0 <= i < r2.len() && (#[trigger] r2[i]).broker_addr@ == a;
                assert(r2[i] == rest[i]);
            }
        }
    }
}

pub open spec fn string_views(v: Seq<String>) -> Seq<Seq<char>> {
    v.map_values(|s: String| s@)
}

/// Whether `d` describes group `g` with the members it has in `bs`.
pub open spec fn broker_matches(d: BrokerData, g: BrokerGroup, bs: Seq<BrokerLiveInfo>) -> bool {
    &&& d.cluster_name == g.cluster_name
    &&& d.broker_name == g.broker_name
    &&& addr_views(d.broker_addrs@) == member_addrs(bs, g.broker_name@)
}

/// Whether `d` is the route of topic `t` in the store with groups `gs` and
/// brokers `bs`, whatever its order-topic annotation.
pub open spec fn route_matches(d: TopicRouteData, gs: Seq<BrokerGroup>, bs: Seq<BrokerLiveInfo>, t: Seq<char>) -> bool {
    let rg = route_groups(gs, t);
    &&& d.queue_datas@.len() == rg.len()
    &&& d.broker_datas@.len() == rg.len()
    &&& forall|k: int| 0 <= k < rg.len() ==> #[trigger] d.queue_datas@[k] == queue_of(rg[k], t)
    &&& forall|k: int| 0 <= k < rg.len() ==> broker_matches(#[trigger] d.broker_datas@[k], rg[k], bs)
    &&& filter_views(d.filter_server_table@) == filters_of_groups(rg, bs)
}

/// Removes the configs of `topic` from `cfgs`.
fn strip_configs(cfgs: &mut Vec<TopicConfig>, topic: &String)
    ensures
        final(cfgs)@ == strip_topic(old(cfgs)@, topic@),
{
    let ghost orig = cfgs@;
    let mut i: usize = 0;
    let ghost mut k: int = 0;
    while i < cfgs.len()
        invariant
            0 <= k <= orig.len(),
            orig == old(cfgs)@,
            cfgs@ == strip_topic(orig.take(k), topic@) + orig.skip(k),
            i == strip_topic(orig.take(k), topic@).len(),
            cfgs@.len() == i + orig.len() - k,
        decreases cfgs@.len() - i,
    {
        proof {
            lemma_take_step(orig, k);
            assert(cfgs@[i as int] == orig[k]);
        }
        if cfgs[i].topic_name == *topic {
            cfgs.remove(i);
            assert(cfgs@ =~= strip_topic(orig.take(k + 1), topic@) + orig.skip(k + 1));
        } else {
            assert(cfgs@ =~= strip_topic(orig.take(k + 1), topic@) + orig.skip(k + 1));
            i = i + 1;
        }
        proof {
            k = k + 1;
        }
    }
    assert(orig.take(orig.len() as int) =~= orig);
    assert(cfgs@ =~= strip_topic(orig, topic@));
}

pub open spec fn addrs_unique(bs: Seq<BrokerLiveInfo>) -> bool {
    forall|i: int, j: int|
        0 <= i < j < bs.len() ==> (#[trigger] bs[i]).broker_addr@ != (#[trigger] bs[j]).broker_addr@
}

pub proof fn lemma_filter_unique(bs: Seq<BrokerLiveInfo>, keep: spec_fn(BrokerLiveInfo) -> bool)
    requires
        addrs_unique(bs),
    ensures
        addrs_unique(filter_brokers(bs, keep)),
    decreases bs.len(),
{
    if bs.len() > 0 {
        let d = bs.drop_last();
        assert(addrs_unique(d)) by {
            assert forall|i: int, j: int| 0 <= i < j < d.len() implies (#[trigger] d[i]).broker_addr@
                != (#[trigger] d[j]).broker_addr@ by {
                assert(d[i] == bs[i] && d[j] == bs[j]);
            }
        }
        lemma_filter_unique(d, keep);
        let rest = filter_brokers(d, keep);
        if keep(bs.last()) {
            let x = bs.last().broker_addr@;
            assert(!has_addr(d, x)) by {
                if has_addr(d, x) {
                    let i = choose|i: int| 0 <= i < d.len() && (#[trigger] d[i]).broker_addr@ == x;
                    assert(bs[i] == d[i]);
                    assert(bs[bs.len() - 1] == bs.last());
                }
            }
            lemma_filter_no_addr(d, keep, x);
            let r2 = rest.push(bs.last());
            assert forall|i: int, j: int| 0 <= i < j < r2.len() implies (#[trigger] r2[i]).broker_addr@
                != (#[trigger] r2[j]).broker_addr@ by {
                assert(r2[i] == rest[i]);
                if j < rest.len() {
                    assert(r2[j] == rest[j]);
                } else {
                    assert(!(0 <= i < rest.len() && rest[i].broker_addr@ == x));
                }
            }
        }
    }
}

/// Unregistering the same broker twice leaves the store as unregistering it once.
pub proof fn lemma_unregister_idempotent(
    gs: Seq<BrokerGroup>,
    bs: Seq<BrokerLiveInfo>,
    n: Seq<char>,
    a: Seq<char>,
)
    ensures
        ({
            let once = after_unregister(gs, bs, n, a);
            after_unregister(once.0, once.1, n, a) == once
        }),
{
    let once = after_unregister(gs, bs, n, a);
    lemma_filter_idem(bs, |b: BrokerLiveInfo| !is_broker(b, n, a));
    lemma_keep_live_members(gs, once.1);
    lemma_keep_live_all(once.0, once.1);
}

impl RouteInfoManager {
    /// The broker groups, in order of first registration.
    pub closed spec fn group_seq(&self) -> Seq<BrokerGroup> {
        self.groups@
    }

    /// The live brokers.
    pub closed spec fn broker_seq(&self) -> Seq<BrokerLiveInfo> {
        self.brokers@
    }

    pub open spec fn wf(&self) -> bool {
        consistent(self.group_seq(), self.broker_seq())
    }

    /// An empty store.
    pub fn new() -> (r: Self)
        ensures
            r.wf(),
            r.group_seq().len() == 0,
            r.broker_seq().len() == 0,
    {
        RouteInfoManager { groups: Vec::new(), brokers: Vec::new() }
    }

    /// Number of live brokers.
    pub fn broker_count(&self) -> (r: usize)
        ensures
            r == self.broker_seq().len(),
    {
        self.brokers.len()
    }

    /// Number of broker groups.
    pub fn group_count(&self) -> (r: usize)
        ensures
            r == self.group_seq().len(),
    {
        self.groups.len()
    }

    fn group_has_member(&self, name: &String) -> (r: bool)
        ensures
            r == has_member(self.brokers@, name@),
    {
        let mut i: usize = 0;
        while i < self.brokers.len()
            invariant
                i <= self.brokers@.len(),
                forall|k: int| 0 <= k < i ==> (#[trigger] self.brokers@[k]).broker_name@ != name@,
            decreases self.brokers@.len() - i,
        {
            if self.brokers[i].broker_name == *name {
                return true;
            }
            i = i + 1;
        }
        false
    }

    fn has_addr_exec(&self, addr: &String) -> (r: bool)
        ensures
            r == has_addr(self.brokers@, addr@),
    {
        let mut i: usize = 0;
        while i < self.brokers.len()
            invariant
                i <= self.brokers@.len(),
                forall|k: int| 0 <= k < i ==> (#[trigger] self.brokers@[k]).broker_addr@ != addr@,
            decreases self.brokers@.len() - i,
        {
            if self.brokers[i].broker_addr == *addr {
                return true;
            }
            i = i + 1;
        }
        false
    }

    /// Drops the groups left without a live member.
    fn prune_groups(&mut self)
        ensures
            final(self).groups@ == keep_live(old(self).groups@, old(self).brokers@),
            final(self).brokers@ == old(self).brokers@,
    {
        let ghost orig = self.groups@;
        let mut i: usize = 0;
        let ghost mut k: int = 0;
        while i < self.groups.len()
            invariant
                0 <= k <= orig.len(),
                self.brokers@ == old(self).brokers@,
                orig == old(self).groups@,
                self.groups@ == keep_live(orig.take(k), self.brokers@) + orig.skip(k),
                i == keep_live(orig.take(k), self.brokers@).len(),
                self.groups@.len() == i + orig.len() - k,
            decreases self.groups@.len() - i,
        {
            proof {
                lemma_take_step(orig, k);
                assert(self.groups@[i as int] == orig[k]);
            }
            let live = self.group_has_member(&self.groups[i].broker_name);
            let ghost before = self.groups@;
            if live {
                assert(self.groups@ =~= keep_live(orig.take(k + 1), self.brokers@) + orig.skip(k + 1));
                i = i + 1;
            } else {
                self.groups.remove(i);
                assert(self.groups@ =~= keep_live(orig.take(k + 1), self.brokers@) + orig.skip(k + 1));
            }
            proof {
                k = k + 1;
            }
        }
        assert(orig.take(orig.len() as int) =~= orig);
        assert(self.groups@ =~= keep_live(orig, self.brokers@));
    }

    /// Puts `g` in place of the group of the same name, or appends it.
    fn put_group(&mut self, g: BrokerGroup)
        ensures
            final(self).groups@ == set_group(old(self).groups@, g),
            final(self).brokers@ == old(self).brokers@,
    {
        let ghost gs = self.groups@;
        assert(gs.skip(0) =~= gs);
        let mut i: usize = 0;
        while i < self.groups.len()
            invariant
                i <= gs.len(),
                gs == self.groups@,
                gs == old(self).groups@,
                self.brokers@ == old(self).brokers@,
                group_pos(gs, g.broker_name@) == match group_pos(gs.skip(i as int), g.broker_name@) {
                    Some(j) => Some(j + i),
                    None => None,
                },
            decreases gs.len() - i,
        {
            let ghost rest = gs.skip(i as int);
            assert(rest[0] == gs[i as int]);
            if self.groups[i].broker_name == g.broker_name {
                assert(group_pos(rest, g.broker_name@) == Some(0int));
                self.groups.set(i, g);
                return;
            }
            assert(rest.skip(1) =~= gs.skip(i + 1));
            i = i + 1;
        }
        assert(gs.skip(i as int).len() == 0);
        self.groups.push(g);
    }

    /// Records a registration or heartbeat of the broker at `broker_addr`, in
    /// group `broker_name` of cluster `cluster_name`, at time `now`: its
    /// liveness record, with its filter servers, is replaced, and the group's
    /// topics become `topic_configs`. Returns whether the address was unknown before. A
    /// request with an empty cluster, group or address is refused and changes
    /// nothing.
    pub fn register_broker(
        &mut self,
        cluster_name: String,
        broker_name: String,
        broker_addr: String,
        broker_id: u64,
        data_version: u64,
        topic_configs: Vec<TopicConfig>,
        filter_server_list: Vec<String>,
        now: u64,
    ) -> (r: Result<bool, RegisterError>)
        requires
            old(self).wf(),
        ensures
            final(self).wf(),
            (cluster_name@.len() == 0 || broker_name@.len() == 0 || broker_addr@.len() == 0) ==> {
                &&& r == Err::<bool, RegisterError>(RegisterError::MalformedRequest)
                &&& final(self).group_seq() == old(self).group_seq()
                &&& final(self).broker_seq() == old(self).broker_seq()
            },
            (cluster_name@.len() > 0 && broker_name@.len() > 0 && broker_addr@.len() > 0) ==> {
                &&& r == Ok::<bool, RegisterError>(!has_addr(old(self).broker_seq(), broker_addr@))
                &&& final(self).broker_seq() == without_addr(old(self).broker_seq(), broker_addr@).push(
                    (BrokerLiveInfo {
                        broker_addr,
                        broker_name,
                        broker_id,
                        last_update_timestamp: now,
                        data_version,
                        filter_servers: filter_server_list,
                    }),
                )
                &&& final(self).group_seq() == keep_live(
                    set_group(
                        old(self).group_seq(),
                        (BrokerGroup { cluster_name, broker_name, topic_configs }),
                    ),
                    final(self).broker_seq(),
                )
            },
    {
        if cluster_name.as_str().is_empty() || broker_name.as_str().is_empty()
            || broker_addr.as_str().is_empty() {
            return Err(RegisterError::MalformedRequest);
        }
        let first = !self.has_addr_exec(&broker_addr);
        self.remove_addr(&broker_addr);
        proof {
            lemma_filter_unique(old(self).brokers@, |b: BrokerLiveInfo| b.broker_addr@ != broker_addr@);
            lemma_filter_addr_gone(old(self).brokers@, broker_addr@);
        }
        let live = BrokerLiveInfo {
            broker_addr: broker_addr.clone(),
            broker_name: broker_name.clone(),
            broker_id,
            last_update_timestamp: now,
            data_version,
            filter_servers: filter_server_list,
        };
        self.brokers.push(live);
        proof {
            let bs = self.brokers@;
            let d = without_addr(old(self).brokers@, broker_addr@);
            assert forall|i: int, j: int| 0 <= i < j < bs.len() implies (#[trigger] bs[i]).broker_addr@
                != (#[trigger] bs[j]).broker_addr@ by {
                assert(bs[i] == d[i]);
                if j < d.len() {
                    assert(bs[j] == d[j]);
                } else {
                    assert(!(0 <= i < d.len() && d[i].broker_addr@ == broker_addr@));
                }
            }
        }
        let group = BrokerGroup { cluster_name, broker_name, topic_configs };
        let ghost new_group = group;
        self.put_group(group);
        let ghost pre = self.groups@;
        proof {
            lemma_set_group_unique(old(self).groups@, new_group);
        }
        self.prune_groups();
        proof {
            lemma_keep_live_members(pre, self.brokers@);
            lemma_keep_live_unique(pre, self.brokers@);
        }
        Ok(first)
    }

    /// Removes the broker of group `broker_name` at `broker_addr`, and the
    /// group with it when it was the last member. Unknown brokers are a no-op.
    pub fn unregister_broker(&mut self, broker_name: &String, broker_addr: &String)
        requires
            old(self).wf(),
        ensures
            final(self).wf(),
            (final(self).group_seq(), final(self).broker_seq()) == after_unregister(
                old(self).group_seq(),
                old(self).broker_seq(),
                broker_name@,
                broker_addr@,
            ),
    {
        self.remove_broker(broker_name, broker_addr);
        proof {
            lemma_filter_unique(old(self).brokers@, |b: BrokerLiveInfo| !is_broker(b, broker_name@, broker_addr@));
        }
        self.prune_groups();
        proof {
            lemma_keep_live_members(old(self).groups@, self.brokers@);
            lemma_keep_live_unique(old(self).groups@, self.brokers@);
        }
    }

    /// Evicts every broker whose last heartbeat is more than `timeout` before
    /// `now`, with the groups left without members, and returns the evicted
    /// addresses in store order.
    pub fn scan_not_active_broker(&mut self, now: u64, timeout: u64) -> (r: Vec<String>)
        requires
            old(self).wf(),
        ensures
            final(self).wf(),
            final(self).broker_seq() == keep_fresh(old(self).broker_seq(), now, timeout),
            final(self).group_seq() == keep_live(old(self).group_seq(), final(self).broker_seq()),
            string_views(r@) == stale_addrs(old(self).broker_seq(), now, timeout),
    {
        let ghost orig = self.brokers@;
        let ghost keep = |b: BrokerLiveInfo| !is_stale(b, now, timeout);
        let mut evicted: Vec<String> = Vec::new();
        let mut i: usize = 0;
        let ghost mut k: int = 0;
        while i < self.brokers.len()
            invariant
                0 <= k <= orig.len(),
                self.groups@ == old(self).groups@,
                orig == old(self).brokers@,
                keep == (|b: BrokerLiveInfo| !is_stale(b, now, timeout)),
                self.brokers@ == filter_brokers(orig.take(k), keep) + orig.skip(k),
                i == filter_brokers(orig.take(k), keep).len(),
                self.brokers@.len() == i + orig.len() - k,
                string_views(evicted@) == stale_addrs(orig.take(k), now, timeout),
            decreases self.brokers@.len() - i,
        {
            proof {
                lemma_take_step(orig, k);
                assert(self.brokers@[i as int] == orig[k]);
            }
            let last = self.brokers[i].last_update_timestamp;
            if now > last && now - last > timeout {
                let b = self.brokers.remove(i);
                let ghost ev = evicted@;
                evicted.push(b.broker_addr);
                assert(self.brokers@ =~= filter_brokers(orig.take(k + 1), keep) + orig.skip(k + 1));
                assert(string_views(evicted@) =~= string_views(ev).push(orig[k].broker_addr@));
            } else {
                assert(self.brokers@ =~= filter_brokers(orig.take(k + 1), keep) + orig.skip(k + 1));
                i = i + 1;
            }
            proof {
                k = k + 1;
            }
        }
        assert(orig.take(orig.len() as int) =~= orig);
        assert(self.brokers@ =~= filter_brokers(orig, keep));
        proof {
            lemma_filter_unique(orig, keep);
        }
        self.prune_groups();
        proof {
            lemma_keep_live_members(old(self).groups@, self.brokers@);
            lemma_keep_live_unique(old(self).groups@, self.brokers@);
        }
        evicted
    }

    fn find_config_exec(cfgs: &Vec<TopicConfig>, topic: &String) -> (r: Option<usize>)
        ensures
            match r {
                Some(i) => i < cfgs@.len() && find_config(cfgs@, topic@) == Some(cfgs@[i as int]),
                None => find_config(cfgs@, topic@) is None,
            },
    {
        assert(cfgs@.skip(0) =~= cfgs@);
        let mut i: usize = 0;
        while i < cfgs.len()
            invariant
                i <= cfgs@.len(),
                find_config(cfgs@, topic@) == find_config(cfgs@.skip(i as int), topic@),
            decreases cfgs@.len() - i,
        {
            let ghost rest = cfgs@.skip(i as int);
            assert(rest[0] == cfgs@[i as int]);
            if cfgs[i].topic_name == *topic {
                return Some(i);
            }
            assert(rest.skip(1) =~= cfgs@.skip(i + 1));
            i = i + 1;
        }
        None
    }

    fn member_addrs_exec(&self, name: &String) -> (r: Vec<(u64, String)>)
        ensures
            addr_views(r@) == member_addrs(self.brokers@, name@),
    {
        let mut out: Vec<(u64, String)> = Vec::new();
        let mut i: usize = 0;
        while i < self.brokers.len()
            invariant
                i <= self.brokers@.len(),
                addr_views(out@) == member_addrs(self.brokers@.take(i as int), name@),
            decreases self.brokers@.len() - i,
        {
            proof {
                lemma_take_step(self.brokers@, i as int);
            }
            if self.brokers[i].broker_name == *name {
                let ghost before = out@;
                out.push((self.brokers[i].broker_id, self.brokers[i].broker_addr.clone()));
                assert(addr_views(out@) =~= addr_views(before).push(
                    (self.brokers@[i as int].broker_id, self.brokers@[i as int].broker_addr@),
                ));
            }
            i = i + 1;
        }
        assert(self.brokers@.take(self.brokers@.len() as int) =~= self.brokers@);
        out
    }

    fn member_filters_exec(&self, name: &String) -> (r: Vec<(String, Vec<String>)>)
        ensures
            filter_views(r@) == member_filters(self.brokers@, name@),
    {
        let mut out: Vec<(String, Vec<String>)> = Vec::new();
        let mut i: usize = 0;
        while i < self.brokers.len()
            invariant
                i <= self.brokers@.len(),
                filter_views(out@) == member_filters(self.brokers@.take(i as int), name@),
            decreases self.brokers@.len() - i,
        {
            proof {
                lemma_take_step(self.brokers@, i as int);
            }
            let b = &self.brokers[i];
            if b.broker_name == *name && b.filter_servers.len() > 0 {
                let ghost before = out@;
                let servers = b.filter_servers.clone();
                assert(servers@ =~= b.filter_servers@);
                out.push((b.broker_addr.clone(), servers));
                assert(filter_views(out@) =~= filter_views(before).push(
                    (b.broker_addr@, string_views(b.filter_servers@)),
                ));
            }
            i = i + 1;
        }
        assert(self.brokers@.take(self.brokers@.len() as int) =~= self.brokers@);
        out
    }

    /// The route of `topic`: the queue data of each group that hosts it, in
    /// group order, with each such group and its member addresses; nothing when
    /// no group hosts it.
    pub fn pickup_topic_route_data(&self, topic: &String) -> (r: Option<TopicRouteData>)
        ensures
            r is None <==> route_groups(self.group_seq(), topic@).len() == 0,
            r matches Some(d) ==> route_matches(d, self.group_seq(), self.broker_seq(), topic@)
                && d.order_topic_conf is None,
    {
        let mut queue_datas: Vec<QueueData> = Vec::new();
        let mut broker_datas: Vec<BrokerData> = Vec::new();
        let mut filter_server_table: Vec<(String, Vec<String>)> = Vec::new();
        let ghost gs = self.groups@;
        let ghost bs = self.brokers@;
        let mut i: usize = 0;
        while i < self.groups.len()
            invariant
                i <= gs.len(),
                gs == self.groups@,
                bs == self.brokers@,
                queue_datas@.len() == route_groups(gs.take(i as int), topic@).len(),
                broker_datas@.len() == queue_datas@.len(),
                filter_views(filter_server_table@) == filters_of_groups(route_groups(gs.take(i as int), topic@), bs),
                forall|k: int| 0 <= k < queue_datas@.len() ==> #[trigger] queue_datas@[k] == queue_of(
                    route_groups(gs.take(i as int), topic@)[k],
                    topic@,
                ),
                forall|k: int| 0 <= k < broker_datas@.len() ==> broker_matches(
                    #[trigger] broker_datas@[k],
                    route_groups(gs.take(i as int), topic@)[k],
                    bs,
                ),
            decreases gs.len() - i,
        {
            proof {
                lemma_take_step(gs, i as int);
            }
            let g = &self.groups[i];
            match Self::find_config_exec(&g.topic_configs, topic) {
                Some(j) => {
                    let c = &g.topic_configs[j];
                    queue_datas.push(
                        QueueData {
                            broker_name: g.broker_name.clone(),
                            read_queue_nums: c.read_queue_nums,
                            write_queue_nums: c.write_queue_nums,
                            perm: c.perm,
                            topic_sys_flag: c.topic_sys_flag,
                        },
                    );
                    let addrs = self.member_addrs_exec(&g.broker_name);
                    broker_datas.push(
                        BrokerData {
                            cluster_name: g.cluster_name.clone(),
                            broker_name: g.broker_name.clone(),
                            broker_addrs: addrs,
                        },
                    );
                    let ghost before = filter_server_table@;
                    let mut filters = self.member_filters_exec(&g.broker_name);
                    filter_server_table.append(&mut filters);
                    proof {
                        let rg = route_groups(gs.take(i as int), topic@);
                        assert(rg.push(gs[i as int]).drop_last() =~= rg);
                        assert(filter_views(filter_server_table@) =~= filter_views(before) + member_filters(bs, gs[i as int].broker_name@));
                    }
                },
                None => {},
            }
            i = i + 1;
        }
        assert(gs.take(gs.len() as int) =~= gs);
        if queue_datas.len() == 0 {
            None
        } else {
            Some(TopicRouteData { queue_datas, broker_datas, order_topic_conf: None, filter_server_table })
        }
    }

    /// Removes `topic` from every group's reported topics.
    pub fn delete_topic(&mut self, topic: &String)
        requires
            old(self).wf(),
        ensures
            final(self).wf(),
            final(self).broker_seq() == old(self).broker_seq(),
            final(self).group_seq().len() == old(self).group_seq().len(),
            forall|i: int| 0 <= i < final(self).group_seq().len() ==> {
                &&& (#[trigger] final(self).group_seq()[i]).cluster_name == old(self).group_seq()[i].cluster_name
                &&& final(self).group_seq()[i].broker_name == old(self).group_seq()[i].broker_name
                &&& final(self).group_seq()[i].topic_configs@ == strip_topic(
                    old(self).group_seq()[i].topic_configs@,
                    topic@,
                )
            },
    {
        let mut i: usize = 0;
        while i < self.groups.len()
            invariant
                i <= self.groups@.len(),
                self.brokers@ == old(self).brokers@,
                self.groups@.len() == old(self).groups@.len(),
                forall|k: int| 0 <= k < self.groups@.len() ==> {
                    &&& (#[trigger] self.groups@[k]).cluster_name == old(self).groups@[k].cluster_name
                    &&& self.groups@[k].broker_name == old(self).groups@[k].broker_name
                    &&& self.groups@[k].topic_configs@ == if k < i {
                        strip_topic(old(self).groups@[k].topic_configs@, topic@)
                    } else {
                        old(self).groups@[k].topic_configs@
                    }
                },
            decreases self.groups@.len() - i,
        {
            let mut g = self.groups.remove(i);
            strip_configs(&mut g.topic_configs, topic);
            self.groups.insert(i, g);
            i = i + 1;
        }
        proof {
            let gs = self.groups@;
            assert forall|k: int| 0 <= k < gs.len() implies has_member(self.brokers@, (#[trigger] gs[k]).broker_name@) by {
                assert(has_member(old(self).brokers@, old(self).groups@[k].broker_name@));
            }
            assert forall|a: int, b: int| 0 <= a < b < gs.len() implies (#[trigger] gs[a]).broker_name@
                != (#[trigger] gs[b]).broker_name@ by {
                assert(old(self).groups@[a].broker_name@ != old(self).groups@[b].broker_name@);
            }
        }
    }

    /// Removes the brokers at address `addr`.
    fn remove_addr(&mut self, addr: &String)
        ensures
            final(self).brokers@ == without_addr(old(self).brokers@, addr@),
            final(self).groups@ == old(self).groups@,
    {
        let ghost orig = self.brokers@;
        let ghost keep = |b: BrokerLiveInfo| b.broker_addr@ != addr@;
        let mut i: usize = 0;
        let ghost mut k: int = 0;
        while i < self.brokers.len()
            invariant
                0 <= k <= orig.len(),
                self.groups@ == old(self).groups@,
                orig == old(self).brokers@,
                keep == (|b: BrokerLiveInfo| b.broker_addr@ != addr@),
                self.brokers@ == filter_brokers(orig.take(k), keep) + orig.skip(k),
                i == filter_brokers(orig.take(k), keep).len(),
                self.brokers@.len() == i + orig.len() - k,
            decreases self.brokers@.len() - i,
        {
            proof {
                lemma_take_step(orig, k);
                assert(self.brokers@[i as int] == orig[k]);
            }
            if self.brokers[i].broker_addr == *addr {
                self.brokers.remove(i);
                assert(self.brokers@ =~= filter_brokers(orig.take(k + 1), keep) + orig.skip(k + 1));
            } else {
                assert(self.brokers@ =~= filter_brokers(orig.take(k + 1), keep) + orig.skip(k + 1));
                i = i + 1;
            }
            proof {
                k = k + 1;
            }
        }
        assert(orig.take(orig.len() as int) =~= orig);
        assert(self.brokers@ =~= filter_brokers(orig, keep));
    }

    /// Removes the broker of group `broker_name` at address `broker_addr`.
    fn remove_broker(&mut self, broker_name: &String, broker_addr: &String)
        ensures
            final(self).brokers@ == without_broker(old(self).brokers@, broker_name@, broker_addr@),
            final(self).groups@ == old(self).groups@,
    {
        let ghost orig = self.brokers@;
        let ghost keep = |b: BrokerLiveInfo| !is_broker(b, broker_name@, broker_addr@);
        let mut i: usize = 0;
        let ghost mut k: int = 0;
        while i < self.brokers.len()
            invariant
                0 <= k <= orig.len(),
                self.groups@ == old(self).groups@,
                orig == old(self).brokers@,
                keep == (|b: BrokerLiveInfo| !is_broker(b, broker_name@, broker_addr@)),
                self.brokers@ == filter_brokers(orig.take(k), keep) + orig.skip(k),
                i == filter_brokers(orig.take(k), keep).len(),
                self.brokers@.len() == i + orig.len() - k,
            decreases self.brokers@.len() - i,
        {
            proof {
                lemma_take_step(orig, k);
                assert(self.brokers@[i as int] == orig[k]);
            }
            if self.brokers[i].broker_addr == *broker_addr && self.brokers[i].broker_name == *broker_name {
                self.brokers.remove(i);
                assert(self.brokers@ =~= filter_brokers(orig.take(k + 1), keep) + orig.skip(k + 1));
            } else {
                assert(self.brokers@ =~= filter_brokers(orig.take(k + 1), keep) + orig.skip(k + 1));
                i = i + 1;
            }
            proof {
                k = k + 1;
            }
        }
        assert(orig.take(orig.len() as int) =~= orig);
        assert(self.brokers@ =~= filter_brokers(orig, keep));
    }
}

} // verus!
