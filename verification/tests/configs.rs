use rscache::addr::NetAddr;
use rscache::config::{Config, Node};

#[test]
fn config_defaults() {
    let cfg = Config { port: None, parent: None, cleanup_time: None, max_nodes: None };
    assert_eq!(cfg.max_nodes(), 3);
    assert_eq!(cfg.port(), 0);
    assert!(cfg.parent().is_none());
    assert_eq!(cfg.cleanup_time_as_duration(), 60);
}

#[test]
fn config_configured_values() {
    let parent = Node { addr: [10, 0, 0, 1], port: 7000 };
    let cfg = Config {
        port: Some(4100),
        parent: Some(parent),
        cleanup_time: Some(5),
        max_nodes: Some(8),
    };
    assert_eq!(cfg.max_nodes(), 8);
    assert_eq!(cfg.port(), 4100);
    assert_eq!(cfg.cleanup_time_as_duration(), 5);
    let p = cfg.parent().expect("parent configured");
    assert_eq!(p.addr(), [10, 0, 0, 1]);
    assert_eq!(
        p.to_socketaddr(),
        NetAddr { ip0: 10, ip1: 0, ip2: 0, ip3: 1, port: 7000 }
    );
}

#[test]
fn conf_getters() {
    let child = NetAddr { ip0: 10, ip1: 0, ip2: 0, ip3: 2, port: 7002 };
    let parent = NetAddr { ip0: 10, ip1: 0, ip2: 0, ip3: 1, port: 7001 };
    let cfg = rscache::conf::Config::new(4200, Some(child), Some(parent));
    assert_eq!(cfg.port(), 4200);
    assert_eq!(cfg.child_as_addr(), child);
    assert_eq!(cfg.parent_as_addr(), parent);
}

#[test]
fn conf_missing_neighbours_fall_back_to_zero() {
    let cfg = rscache::conf::Config::new(4300, None, None);
    let zero = NetAddr { ip0: 0, ip1: 0, ip2: 0, ip3: 0, port: 0 };
    assert_eq!(cfg.child_as_addr(), zero);
    assert_eq!(cfg.parent_as_addr(), zero);
}
