use moproxy::monitor::alive_test::{is_answer, query, random_query, TestProgress};
use moproxy::monitor::graphite::{records_of, Record};
use moproxy::monitor::traffic::{Meter, Throughput, TrafficSample};
use moproxy::monitor::{find_server, info_stats, initial_status, merge, order_of, Monitor, Origin};
use moproxy::net::{parse_socket_addr, SocketAddr};
use moproxy::proxy::{ProxyProto, ProxyServer, Traffic};
use moproxy::server::{ServerListConfig, ServerListError};
use moproxy::time::Duration;

fn addr(s: &str) -> SocketAddr {
    parse_socket_addr(s).unwrap()
}

fn server(tag: &str, base: i32) -> ProxyServer {
    ProxyServer::new(
        addr("127.0.0.1:2001"),
        ProxyProto::socks5(false),
        addr("8.8.8.8:53"),
        Duration::from_secs(4),
        None,
        Some(tag),
        Some(base),
    )
}

fn scored(tag: &str, score: i32) -> ProxyServer {
    let mut s = server(tag, 0);
    s.update_delay_with_score(Some(Duration::from_millis(1)), Some(score));
    s
}

fn tags(servers: &[ProxyServer]) -> Vec<&str> {
    servers.iter().map(|s| s.tag.as_str()).collect()
}

#[test]
fn keys_are_put_in_order() {
    assert_eq!(vec![2, 0, 3, 1], order_of(&vec![5, 9, -1, 5]));
    assert!(order_of(&vec![]).is_empty());
}

#[test]
fn better_servers_come_first() {
    let mut m = Monitor::new(
        vec![server("none", 0), scored("b", 100), scored("a", 90), scored("c", 300)],
        None,
    );
    m.sort_servers(&vec![0, 0, 0, 0]);
    assert_eq!(vec!["a", "b", "c", "none"], tags(m.servers()));
    // a is at 90 now, b at 100 - 29
    m.sort_servers(&vec![0, 29, 0, 0]);
    assert_eq!(vec!["b", "a", "c", "none"], tags(m.servers()));
    m.sort_servers(&vec![59, 30, 0, 0]);
    assert_eq!(vec!["b", "a", "c", "none"], tags(m.servers()));
    for _ in 0..50 {
        m.resort();
        let order = tags(m.servers());
        assert_eq!(vec!["c", "none"], order[2..].to_vec());
    }
}

#[test]
fn meters_stay_with_their_servers() {
    let mut far = scored("far", 900);
    far.add_traffic(Traffic { tx_bytes: 5, rx_bytes: 6 });
    let mut m = Monitor::new(vec![far, scored("near", 1)], None);
    m.add_sample(0, Duration::from_secs(1));
    m.sort_servers(&vec![0, 0]);
    assert_eq!(vec!["near", "far"], tags(m.servers()));
    assert!(m.meters[0].oldest().is_none());
    assert_eq!(5, m.meters[1].oldest().unwrap().amt.tx_bytes);
    m.servers[1].add_traffic(Traffic { tx_bytes: 10, rx_bytes: 0 });
    assert_eq!(
        Some((
            Traffic { tx_bytes: 10, rx_bytes: 0 },
            Duration::from_secs(1),
            Duration::from_secs(3)
        )),
        m.throughput(1, Duration::from_secs(3))
    );
    assert_eq!(None, m.throughput(0, Duration::from_secs(3)));
}

#[test]
fn servers_that_stay_keep_their_status() {
    let mut m = Monitor::new(vec![scored("a", 7), scored("b", 8)], None);
    m.add_sample(0, Duration::from_secs(1));
    let new = vec![server("c", 1), server("a", 50), server("c", 2)];
    assert_eq!(
        vec![Origin::Kept { old_at: 0, new_at: 1 }, Origin::Added { new_at: 0 }],
        merge(m.servers(), &new)
    );
    m.update_servers(new);
    assert_eq!(vec!["a", "c"], tags(m.servers()));
    assert_eq!(Some(7), m.servers()[0].score());
    assert_eq!(None, m.servers()[1].score());
    // the base of the new one: (7 * 8 + 50 * 2) / 10
    assert_eq!(Some(15), m.servers()[0].score_after(Duration::from_millis(0)));
    assert!(m.meters[0].oldest().is_none());
    assert_eq!(Some(1), find_server(m.servers(), &server("c", 9)));
    assert_eq!(None, find_server(m.servers(), &server("b", 9)));
    let mut empty = Monitor::new(vec![], Some(addr("1.2.3.4:2003")));
    empty.replace_servers(vec![server("x", 0)]);
    assert_eq!(vec!["x"], tags(empty.servers()));
    assert_eq!(Some(addr("1.2.3.4:2003")), empty.graphite);
}

#[test]
fn scores_are_told() {
    let servers = vec![scored("a", 7), server("b", 0)];
    assert_eq!(" a: 7, b: --", info_stats(&servers));
    assert_eq!("", info_stats(&vec![]));
    let many = vec![
        scored("a", -1),
        scored("b", 2),
        scored("c", 3),
        scored("d", 4),
        scored("e", 5),
        scored("f", 6),
    ];
    assert_eq!(" a: -1, b: 2, c: 3, d: 4, e: 5", info_stats(&many));
}

fn lines(records: &[Record]) -> String {
    let mut buf = String::new();
    for r in records {
        r.write_paintext(&mut buf, "12.5");
    }
    buf
}

#[test]
fn records_are_lines() {
    let mut s = scored("a.b", -2);
    s.add_traffic(Traffic { tx_bytes: 3, rx_bytes: 4 });
    s.update_stats_conn_open();
    let expected = "\
moproxy.proxy_servers.a_b.delay 1 12.5
moproxy.proxy_servers.a_b.score 18446744073709551614 12.5
moproxy.proxy_servers.a_b.tx_bytes 3 12.5
moproxy.proxy_servers.a_b.rx_bytes 4 12.5
moproxy.proxy_servers.a_b.conns.total 1 12.5
moproxy.proxy_servers.a_b.conns.alive 1 12.5
moproxy.proxy_servers.a_b.conns.error 0 12.5
";
    let now = Some(Duration::from_millis(12_500));
    assert_eq!(expected, lines(&records_of(&s, now)));
    let m = Monitor::new(vec![s, server("x", 0)], None);
    assert_eq!(12, m.records(now).len());
    let r = Record::new("path".to_string(), 9, None);
    assert_eq!("path 9 -1\n", lines(&[r]));
}

#[test]
fn meters_know_two_samples() {
    let sample = |secs: u64, n: usize| TrafficSample {
        time: Duration::from_secs(secs),
        amt: Traffic { tx_bytes: n, rx_bytes: 2 * n },
    };
    let mut meter = Meter::new();
    assert_eq!(None, meter.throughput(sample(9, 9)));
    meter.add_sample(sample(1, 10));
    assert_eq!(Some(sample(1, 10)), meter.oldest());
    meter.add_sample(sample(2, 30));
    meter.add_sample(sample(3, 60));
    assert_eq!(Some(sample(2, 30)), meter.oldest());
    assert_eq!(
        Some((
            Traffic { tx_bytes: 70, rx_bytes: 140 },
            Duration::from_secs(2),
            Duration::from_secs(4)
        )),
        meter.throughput(sample(4, 100))
    );
    assert!(meter.is_measurable(sample(0, 30).amt));
    assert!(!meter.is_measurable(sample(0, 29).amt));
    let sum = Throughput { tx_bps: 1, rx_bps: 2 } + Throughput { tx_bps: 3, rx_bps: 4 };
    assert_eq!(Throughput { tx_bps: 4, rx_bps: 6 }, sum);
    assert_eq!(Throughput { tx_bps: 0, rx_bps: 0 }, Throughput::default());
}

#[test]
fn progress_is_told() {
    let mut p = TestProgress::new(11);
    assert_eq!("probing (0/11 done)", p.to_string());
    for i in 0..11 {
        p.increase(i < 7);
    }
    assert_eq!("serving (7/11 upstream proxies up)", p.to_string());
    let mut one = TestProgress::new(1);
    one.increase(true);
    assert_eq!("serving (1/1 upstream proxy up)", one.to_string());
    assert_eq!("serving (1 upstream proxy, state unknown)", initial_status(1));
    assert_eq!("serving (2 upstream proxies, state unknown)", initial_status(2));
}

#[test]
fn answers_belong_to_their_queries() {
    let q = query(1, 2);
    assert_eq!(
        vec![0, 17, 1, 2, 1, 32, 0, 1, 0, 0, 0, 0, 0, 0, 0, 0, 1, 0, 1],
        q
    );
    assert!(is_answer(&q, &[0, 99, 1, 2, 0, 0, 0, 0, 0, 0, 0, 0]));
    assert!(!is_answer(&q, &[0, 99, 1, 3, 0, 0, 0, 0, 0, 0, 0, 0]));
    assert!(!is_answer(&q, &[0, 99, 2, 1, 0, 0, 0, 0, 0, 0, 0, 0]));
    let mut numbers = vec![];
    for _ in 0..40 {
        let q = random_query();
        assert_eq!(19, q.len());
        numbers.push((q[2], q[3]));
    }
    numbers.sort();
    numbers.dedup();
    assert!(numbers.len() > 1);
}

#[test]
fn servers_far_apart_are_sorted_by_score() {
    let servers = vec![server("none", 0), scored("c", 161), scored("a", 100), scored("b", 130)];
    let mut m = Monitor::new(servers, None);
    for _ in 0..50 {
        m.resort();
        assert_eq!(vec!["a", "b", "c", "none"], tags(m.servers()));
    }
}

#[test]
fn a_list_that_cannot_be_loaded_changes_nothing() {
    let config = ServerListConfig::new(
        addr("8.8.8.8:53"),
        Duration::from_secs(4),
        &vec![],
        &vec![],
        false,
    );
    let mut m = Monitor::new(vec![scored("b", 50), scored("a", 90)], None);
    m.add_sample(0, Duration::from_secs(1));
    let section = "[a]\naddress=127.0.0.1:2001\nprotocol=socks5\n";
    assert!(matches!(m.reload(&config, Some("[a")), Some(Err(ServerListError::File))));
    assert!(matches!(m.reload(&config, None), Some(Err(ServerListError::Empty))));
    let bad = format!("{}tag=x y\n", section);
    assert!(m.reload(&config, Some(&bad)).is_none());
    assert_eq!(vec!["b", "a"], tags(m.servers()));
    assert!(m.meters[0].oldest().is_some());

    let list = format!("{}score base=7\n[new]\naddress=127.0.0.1:2002\nprotocol=http\n", section);
    assert!(matches!(m.reload(&config, Some(&list)), Some(Ok(()))));
    assert_eq!(vec!["a", "new"], tags(m.servers()));
    assert_eq!(Some(90), m.servers()[0].score());
    assert_eq!(7, m.servers()[0].config.score_base);
    assert_eq!(None, m.servers()[1].score());
    assert!(m.meters[0].oldest().is_none());
}

#[test]
fn each_server_of_the_new_list_is_there_once() {
    let mut m = Monitor::new(vec![scored("a", 1), scored("b", 50), scored("a", 90)], None);
    m.update_servers(vec![server("c", 0), server("a", 0), server("c", 1), server("a", 1)]);
    assert_eq!(vec!["a", "c"], tags(m.servers()));
    assert_eq!(Some(1), m.servers()[0].score());
}

#[test]
fn equal_draws_leave_the_order_to_the_scores() {
    let servers = vec![server("none", 0), scored("b", 11), scored("a", 10), scored("c", 12)];
    for drawn in [0u8, 29, 30, 255] {
        let mut m = Monitor::new(servers.iter().map(|s| s.clone()).collect(), None);
        m.sort_servers(&vec![drawn; 4]);
        assert_eq!(vec!["a", "b", "c", "none"], tags(m.servers()));
    }
}
