use rocketmq_route::processor::{ClientRequestProcessor, NamesrvConfig, OrderTopicOverlay, RouteResult};
use rocketmq_route::route::{RegisterError, RouteInfoManager, TopicConfig};

fn topic(name: &str, read: u32, write: u32) -> TopicConfig {
    TopicConfig {
        topic_name: name.to_string(),
        read_queue_nums: read,
        write_queue_nums: write,
        perm: 6,
        topic_sys_flag: 0,
    }
}

fn register(m: &mut RouteInfoManager, group: &str, addr: &str, topics: Vec<TopicConfig>, now: u64) -> bool {
    m.register_broker("c1".to_string(), group.to_string(), addr.to_string(), 0, 1, topics, vec![], now)
        .unwrap()
}

fn processor(wait_secs: u64, gate: bool, order: bool, overlay: OrderTopicOverlay) -> ClientRequestProcessor {
    ClientRequestProcessor::new(
        NamesrvConfig {
            order_message_enable: order,
            need_wait_for_service: gate,
            wait_seconds_for_service: wait_secs,
        },
        overlay,
        0,
    )
}

#[test]
fn register_then_unregister_orders() {
    let mut m = RouteInfoManager::new();
    assert!(register(&mut m, "g1", "b1", vec![topic("orders", 4, 4)], 0));
    let route = m.pickup_topic_route_data(&"orders".to_string()).unwrap();
    assert_eq!(route.queue_datas.len(), 1);
    assert_eq!(route.queue_datas[0].broker_name, "g1");
    assert_eq!(route.queue_datas[0].read_queue_nums, 4);
    assert_eq!(route.queue_datas[0].write_queue_nums, 4);
    assert_eq!(route.broker_datas[0].cluster_name, "c1");
    assert_eq!(route.broker_datas[0].broker_addrs, vec![(0, "b1".to_string())]);
    m.unregister_broker(&"g1".to_string(), &"b1".to_string());
    assert!(m.pickup_topic_route_data(&"orders".to_string()).is_none());
    assert_eq!(m.group_count(), 0);
}

#[test]
fn heartbeat_is_not_first_registration() {
    let mut m = RouteInfoManager::new();
    assert!(register(&mut m, "g1", "b1", vec![topic("orders", 4, 4)], 0));
    assert!(!register(&mut m, "g1", "b1", vec![topic("orders", 4, 4)], 30_000));
    assert_eq!(m.broker_count(), 1);
    assert_eq!(m.group_count(), 1);
}

#[test]
fn unregister_twice_same_as_once() {
    let mut m = RouteInfoManager::new();
    register(&mut m, "g1", "b1", vec![topic("orders", 4, 4)], 0);
    register(&mut m, "g2", "b2", vec![topic("orders", 2, 2)], 0);
    m.unregister_broker(&"g1".to_string(), &"b1".to_string());
    let once = m.pickup_topic_route_data(&"orders".to_string()).unwrap();
    m.unregister_broker(&"g1".to_string(), &"b1".to_string());
    let twice = m.pickup_topic_route_data(&"orders".to_string()).unwrap();
    assert_eq!(once.queue_datas.len(), 1);
    assert_eq!(twice.queue_datas.len(), 1);
    assert_eq!(twice.queue_datas[0].broker_name, "g2");
    assert_eq!(m.broker_count(), 1);
    assert_eq!(m.group_count(), 1);
}

#[test]
fn unregister_unknown_is_noop() {
    let mut m = RouteInfoManager::new();
    register(&mut m, "g1", "b1", vec![topic("orders", 4, 4)], 0);
    m.unregister_broker(&"g9".to_string(), &"b1".to_string());
    m.unregister_broker(&"g1".to_string(), &"b9".to_string());
    assert_eq!(m.broker_count(), 1);
    assert!(m.pickup_topic_route_data(&"orders".to_string()).is_some());
}

#[test]
fn group_survives_while_one_member_lives() {
    let mut m = RouteInfoManager::new();
    register(&mut m, "g1", "master", vec![topic("orders", 4, 4)], 0);
    m.register_broker("c1".to_string(), "g1".to_string(), "slave".to_string(), 1, 1, vec![topic("orders", 4, 4)], vec![], 0)
        .unwrap();
    m.unregister_broker(&"g1".to_string(), &"master".to_string());
    let route = m.pickup_topic_route_data(&"orders".to_string()).unwrap();
    assert_eq!(route.broker_datas[0].broker_addrs, vec![(1, "slave".to_string())]);
}

#[test]
fn registration_replaces_reported_topics() {
    let mut m = RouteInfoManager::new();
    register(&mut m, "g1", "b1", vec![topic("a", 4, 4), topic("b", 8, 8)], 0);
    register(&mut m, "g1", "b1", vec![topic("b", 2, 1)], 10);
    assert!(m.pickup_topic_route_data(&"a".to_string()).is_none());
    let route = m.pickup_topic_route_data(&"b".to_string()).unwrap();
    assert_eq!(route.queue_datas[0].read_queue_nums, 2);
    assert_eq!(route.queue_datas[0].write_queue_nums, 1);
}

#[test]
fn queue_order_follows_group_registration() {
    let mut m = RouteInfoManager::new();
    register(&mut m, "g2", "b2", vec![topic("t", 1, 1)], 0);
    register(&mut m, "g1", "b1", vec![topic("t", 3, 3)], 0);
    register(&mut m, "g2", "b2", vec![topic("t", 5, 5)], 1);
    let route = m.pickup_topic_route_data(&"t".to_string()).unwrap();
    let names: Vec<&str> = route.queue_datas.iter().map(|q| q.broker_name.as_str()).collect();
    assert_eq!(names, vec!["g2", "g1"]);
    assert_eq!(route.queue_datas[0].read_queue_nums, 5);
}

#[test]
fn zero_queue_topic_is_still_found() {
    let mut m = RouteInfoManager::new();
    register(&mut m, "g1", "b1", vec![topic("idle", 0, 0)], 0);
    assert!(m.pickup_topic_route_data(&"idle".to_string()).is_some());
}

#[test]
fn malformed_registration_is_refused() {
    let mut m = RouteInfoManager::new();
    let r = m.register_broker(String::new(), "g1".to_string(), "b1".to_string(), 0, 1, vec![topic("t", 1, 1)], vec![], 0);
    assert_eq!(r, Err(RegisterError::MalformedRequest));
    let r = m.register_broker("c1".to_string(), "g1".to_string(), String::new(), 0, 1, vec![], vec![], 0);
    assert_eq!(r, Err(RegisterError::MalformedRequest));
    assert_eq!(m.broker_count(), 0);
    assert!(m.pickup_topic_route_data(&"t".to_string()).is_none());
}

#[test]
fn scan_evicts_stale_broker_and_its_topic() {
    let mut m = RouteInfoManager::new();
    register(&mut m, "g1", "b1", vec![topic("orders", 4, 4)], 0);
    let evicted = m.scan_not_active_broker(130_000, 120_000);
    assert_eq!(evicted, vec!["b1".to_string()]);
    assert!(m.pickup_topic_route_data(&"orders".to_string()).is_none());
    assert_eq!(m.broker_count(), 0);
    assert_eq!(m.group_count(), 0);
}

#[test]
fn scan_keeps_fresh_brokers() {
    let mut m = RouteInfoManager::new();
    register(&mut m, "g1", "b1", vec![topic("orders", 4, 4)], 0);
    register(&mut m, "g2", "b2", vec![topic("orders", 2, 2)], 100_000);
    assert!(m.scan_not_active_broker(120_000, 120_000).is_empty());
    let evicted = m.scan_not_active_broker(130_000, 120_000);
    assert_eq!(evicted, vec!["b1".to_string()]);
    let route = m.pickup_topic_route_data(&"orders".to_string()).unwrap();
    assert_eq!(route.queue_datas.len(), 1);
    assert_eq!(route.queue_datas[0].broker_name, "g2");
    assert!(m.scan_not_active_broker(130_000, 120_000).is_empty());
}

#[test]
fn delete_topic_removes_all_hosts() {
    let mut m = RouteInfoManager::new();
    register(&mut m, "g1", "b1", vec![topic("t", 1, 1), topic("u", 1, 1)], 0);
    register(&mut m, "g2", "b2", vec![topic("t", 1, 1)], 0);
    m.delete_topic(&"t".to_string());
    assert!(m.pickup_topic_route_data(&"t".to_string()).is_none());
    assert!(m.pickup_topic_route_data(&"u".to_string()).is_some());
    m.delete_topic(&"missing".to_string());
    assert_eq!(m.group_count(), 2);
}

#[test]
fn query_after_registration_finds_topic() {
    let mut m = RouteInfoManager::new();
    let mut p = processor(0, true, false, OrderTopicOverlay::new());
    assert!(matches!(p.get_route_info_by_topic(&m, &"t".to_string(), 5), RouteResult::TopicNotFound));
    register(&mut m, "g1", "b1", vec![topic("t", 2, 2)], 5);
    match p.get_route_info_by_topic(&m, &"t".to_string(), 6) {
        RouteResult::Found(d) => {
            assert_eq!(d.queue_datas[0].broker_name, "g1");
            assert!(d.order_topic_conf.is_none());
        },
        _ => panic!("expected a route"),
    }
    m.unregister_broker(&"g1".to_string(), &"b1".to_string());
    assert!(matches!(p.get_route_info_by_topic(&m, &"t".to_string(), 7), RouteResult::TopicNotFound));
}

#[test]
fn warm_up_window_gates_queries() {
    let m = RouteInfoManager::new();
    let mut p = processor(10, true, false, OrderTopicOverlay::new());
    assert!(matches!(p.get_route_info_by_topic(&m, &"t".to_string(), 2_000), RouteResult::NotReady));
    assert!(matches!(p.get_route_info_by_topic(&m, &"t".to_string(), 11_000), RouteResult::TopicNotFound));
}

#[test]
fn latch_never_sets_again() {
    let mut m = RouteInfoManager::new();
    let mut p = processor(10, true, false, OrderTopicOverlay::new());
    register(&mut m, "g1", "b1", vec![topic("t", 1, 1)], 0);
    assert!(matches!(p.get_route_info_by_topic(&m, &"t".to_string(), 10_000), RouteResult::Found(_)));
    m.scan_not_active_broker(500_000, 120_000);
    assert!(matches!(p.get_route_info_by_topic(&m, &"t".to_string(), 3_000), RouteResult::TopicNotFound));
}

#[test]
fn warm_up_without_gating_answers_at_once() {
    let m = RouteInfoManager::new();
    let mut p = processor(10, false, false, OrderTopicOverlay::new());
    assert!(matches!(p.get_route_info_by_topic(&m, &"t".to_string(), 1), RouteResult::TopicNotFound));
}

#[test]
fn order_overlay_annotates_routes() {
    let mut m = RouteInfoManager::new();
    register(&mut m, "g1", "b1", vec![topic("t", 1, 1), topic("u", 1, 1)], 0);
    let mut overlay = OrderTopicOverlay::new();
    overlay.put("t".to_string(), "g1:4".to_string());
    overlay.put("t".to_string(), "g1:8".to_string());
    assert_eq!(overlay.get(&"t".to_string()), Some("g1:8".to_string()));
    let mut p = processor(0, true, true, overlay);
    match p.get_route_info_by_topic(&m, &"t".to_string(), 0) {
        RouteResult::Found(d) => assert_eq!(d.order_topic_conf, Some("g1:8".to_string())),
        _ => panic!("expected a route"),
    }
    match p.get_route_info_by_topic(&m, &"u".to_string(), 0) {
        RouteResult::Found(d) => assert_eq!(d.order_topic_conf, None),
        _ => panic!("expected a route"),
    }
}

#[test]
fn filter_servers_follow_their_broker() {
    let mut m = RouteInfoManager::new();
    m.register_broker("c1".to_string(), "g1".to_string(), "b1".to_string(), 0, 1, vec![topic("t", 1, 1)], vec!["f1".to_string(), "f2".to_string()], 0)
        .unwrap();
    m.register_broker("c1".to_string(), "g1".to_string(), "b2".to_string(), 1, 1, vec![topic("t", 1, 1)], vec![], 100_000)
        .unwrap();
    let route = m.pickup_topic_route_data(&"t".to_string()).unwrap();
    assert_eq!(route.filter_server_table, vec![("b1".to_string(), vec!["f1".to_string(), "f2".to_string()])]);
    assert_eq!(m.scan_not_active_broker(130_000, 120_000), vec!["b1".to_string()]);
    let route = m.pickup_topic_route_data(&"t".to_string()).unwrap();
    assert!(route.filter_server_table.is_empty());
    assert_eq!(route.broker_datas[0].broker_addrs, vec![(1, "b2".to_string())]);
}

#[test]
fn no_topic_left_without_queue_data() {
    let mut m = RouteInfoManager::new();
    let t = "t".to_string();
    register(&mut m, "g1", "b1", vec![topic("t", 1, 1)], 0);
    register(&mut m, "g2", "b2", vec![topic("t", 2, 2)], 50_000);
    register(&mut m, "g1", "b1", vec![], 60_000);
    assert_eq!(m.pickup_topic_route_data(&t).unwrap().queue_datas.len(), 1);
    m.scan_not_active_broker(200_000, 120_000);
    assert!(m.pickup_topic_route_data(&t).is_none());
    register(&mut m, "g3", "b3", vec![topic("t", 3, 3)], 200_000);
    m.unregister_broker(&"g3".to_string(), &"b3".to_string());
    assert!(m.pickup_topic_route_data(&t).is_none());
    assert_eq!(m.group_count(), 0);
}
