//! The query path: a one-way readiness latch in front of route assembly, and
//! the order-topic annotations attached to routes.

use vstd::prelude::*;
use crate::route::{RouteInfoManager, TopicRouteData, route_groups, route_matches};

verus! {

/// Settings of the name service that the query path reads.
pub struct NamesrvConfig {
    /// Whether routes carry the order-topic annotation.
    pub order_message_enable: bool,
    /// Whether queries are refused until the warm-up window has passed.
    pub need_wait_for_service: bool,
    /// Length of the warm-up window.
    pub wait_seconds_for_service: u64,
}

/// Order-topic annotations by topic name; the first entry of a topic wins.
pub struct OrderTopicOverlay {
    entries: Vec<(String, String)>,
}

/// Annotation of topic `t` in `es`: the value of its first entry.
pub open spec fn overlay_lookup(es: Seq<(String, String)>, t: Seq<char>) -> Option<String>
    decreases es.len(),
{
    if es.len() == 0 {
        None
    } else if es[0].0@ == t {
        Some(es[0].1)
    } else {
        overlay_lookup(es.skip(1), t)
    }
}

/// Index of the first entry of topic `t` in `es`.
pub open spec fn overlay_pos(es: Seq<(String, String)>, t: Seq<char>) -> Option<int>
    decreases es.len(),
{
    if es.len() == 0 {
        None
    } else if es[0].0@ == t {
        Some(0)
    } else {
        match overlay_pos(es.skip(1), t) {
            Some(j) => Some(j + 1),
            None => None,
        }
    }
}

impl OrderTopicOverlay {
    pub closed spec fn entry_seq(&self) -> Seq<(String, String)> {
        self.entries@
    }

    /// An overlay with no annotation.
    pub fn new() -> (r: Self)
        ensures
            r.entry_seq().len() == 0,
    {
        OrderTopicOverlay { entries: Vec::new() }
    }

    /// Sets the annotation of `topic` to `conf`.
    pub fn put(&mut self, topic: String, conf: String)
        ensures
            final(self).entry_seq() == match overlay_pos(old(self).entry_seq(), topic@) {
                Some(j) => old(self).entry_seq().update(j, (topic, conf)),
                None => old(self).entry_seq().push((topic, conf)),
            },
    {
        let ghost es = self.entries@;
        assert(es.skip(0) =~= es);
        let mut i: usize = 0;
        while i < self.entries.len()
            invariant
                i <= es.len(),
                es == self.entries@,
                es == old(self).entries@,
                overlay_pos(es, topic@) == match overlay_pos(es.skip(i as int), topic@) {
                    Some(j) => Some(j + i),
                    None => None,
                },
            decreases es.len() - i,
        {
            let ghost rest = es.skip(i as int);
            assert(rest[0] == es[i as int]);
            if self.entries[i].0 == topic {
                assert(overlay_pos(rest, topic@) == Some(0int));
                self.entries.set(i, (topic, conf));
                return;
            }
            assert(rest.skip(1) =~= es.skip(i + 1));
            i = i + 1;
        }
        self.entries.push((topic, conf));
    }

    /// The annotation of `topic`, if any.
    pub fn get(&self, topic: &String) -> (r: Option<String>)
        ensures
            r == overlay_lookup(self.entry_seq(), topic@),
    {
        let ghost es = self.entries@;
        assert(es.skip(0) =~= es);
        let mut i: usize = 0;
        while i < self.entries.len()
            invariant
                i <= es.len(),
                es == self.entries@,
                overlay_lookup(es, topic@) == overlay_lookup(es.skip(i as int), topic@),
            decreases es.len() - i,
        {
            let ghost rest = es.skip(i as int);
            assert(rest[0] == es[i as int]);
            if self.entries[i].0 == *topic {
                return Some(self.entries[i].1.clone());
            }
            assert(rest.skip(1) =~= es.skip(i + 1));
            i = i + 1;
        }
        None
    }
}

/// Answer to a route query.
pub enum RouteResult {
    /// The warm-up window has not passed; the caller should retry.
    NotReady,
    /// No broker group hosts the topic.
    TopicNotFound,
    /// The route of the topic.
    Found(TopicRouteData),
}

/// Milliseconds from `start` to `now`; zero when the clock reads earlier.
pub open spec fn elapsed_millis(start: u64, now: u64) -> int {
    if now >= start {
        now - start
    } else {
        0
    }
}

/// Whether the warm-up window of `wait_seconds` has passed at `now`.
pub open spec fn warm_up_over(start: u64, wait_seconds: u64, now: u64) -> bool {
    elapsed_millis(start, now) >= wait_seconds * 1000
}

/// Answers route queries behind a one-way readiness latch.
pub struct ClientRequestProcessor {
    namesrv_config: NamesrvConfig,
    need_check_namesrv_ready: bool,
    startup_time_millis: u64,
    kvconfig_manager: OrderTopicOverlay,
}

impl ClientRequestProcessor {
    /// Whether the latch is still set, that is the service still warming up.
    pub closed spec fn warming_up(&self) -> bool {
        self.need_check_namesrv_ready
    }

    pub closed spec fn startup(&self) -> u64 {
        self.startup_time_millis
    }

    pub closed spec fn config(&self) -> NamesrvConfig {
        self.namesrv_config
    }

    pub closed spec fn overlay(&self) -> OrderTopicOverlay {
        self.kvconfig_manager
    }

    /// A processor started at `startup_time_millis`, still warming up.
    pub fn new(
        namesrv_config: NamesrvConfig,
        kvconfig_manager: OrderTopicOverlay,
        startup_time_millis: u64,
    ) -> (r: Self)
        ensures
            r.warming_up(),
            r.startup() == startup_time_millis,
            r.config() == namesrv_config,
            r.overlay() == kvconfig_manager,
    {
        ClientRequestProcessor {
            namesrv_config,
            need_check_namesrv_ready: true,
            startup_time_millis,
            kvconfig_manager,
        }
    }

    /// Answers a route query for `topic` at time `now` against `manager`. The
    /// first query at or after the end of the warm-up window clears the latch
    /// for good; while it is set and waiting is required, the answer is
    /// `NotReady`.
    pub fn get_route_info_by_topic(&mut self, manager: &RouteInfoManager, topic: &String, now: u64) -> (r: RouteResult)
        ensures
            final(self).startup() == old(self).startup(),
            final(self).config() == old(self).config(),
            final(self).overlay() == old(self).overlay(),
            final(self).warming_up() == (old(self).warming_up() && !warm_up_over(
                old(self).startup(),
                old(self).config().wait_seconds_for_service,
                now,
            )),
            (r is NotReady) == (final(self).warming_up() && old(self).config().need_wait_for_service),
            !(r is NotReady) ==> ((r is TopicNotFound) == (route_groups(manager.group_seq(), topic@).len() == 0)),
            r matches RouteResult::Found(d) ==> {
                &&& route_matches(d, manager.group_seq(), manager.broker_seq(), topic@)
                &&& d.order_topic_conf == if old(self).config().order_message_enable {
                    overlay_lookup(old(self).overlay().entry_seq(), topic@)
                } else {
                    None
                }
            },
    {
        if self.need_check_namesrv_ready {
            let elapsed: u64 = if now >= self.startup_time_millis {
                now - self.startup_time_millis
            } else {
                0
            };
            if elapsed as u128 >= self.namesrv_config.wait_seconds_for_service as u128 * 1000 {
                self.need_check_namesrv_ready = false;
            }
        }
        if self.need_check_namesrv_ready && self.namesrv_config.need_wait_for_service {
            return RouteResult::NotReady;
        }
        match manager.pickup_topic_route_data(topic) {
            None => RouteResult::TopicNotFound,
            Some(mut topic_route_data) => {
                if self.namesrv_config.order_message_enable {
                    topic_route_data.order_topic_conf = self.kvconfig_manager.get(topic);
                }
                RouteResult::Found(topic_route_data)
            },
        }
    }
}

} // verus!
