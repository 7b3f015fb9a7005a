//! The status of all servers as metrics.

use super::{ServerStatus, Status};
use crate::proxy::Delay;
use crate::text::{dec_string, push_signed};
use vstd::prelude::*;

verus! {

/// A value of each server.
#[derive(Debug, Clone, Copy, PartialEq, Eq, Structural)]
pub enum Gauge {
    BytesTx,
    BytesRx,
    ConnAlive,
    ConnError,
    ConnTotal,
    DnsDelay,
    Score,
}

/// All values, in the order in which they are told.
pub open spec fn all_gauges() -> Seq<Gauge> {
    seq![
        Gauge::BytesTx,
        Gauge::BytesRx,
        Gauge::ConnAlive,
        Gauge::ConnError,
        Gauge::ConnTotal,
        Gauge::DnsDelay,
        Gauge::Score,
    ]
}

impl Gauge {
    /// The name of the value.
    pub open spec fn name_spec(self) -> Seq<char> {
        match self {
            Gauge::BytesTx => "proxy_server_bytes_tx_total"@,
            Gauge::BytesRx => "proxy_server_bytes_rx_total"@,
            Gauge::ConnAlive => "proxy_server_connections_alive"@,
            Gauge::ConnError => "proxy_server_connections_error"@,
            Gauge::ConnTotal => "proxy_server_connections_total"@,
            Gauge::DnsDelay => "proxy_server_dns_delay_seconds"@,
            Gauge::Score => "proxy_server_score"@,
        }
    }

    /// What the value means.
    pub open spec fn help_spec(self) -> Seq<char> {
        match self {
            Gauge::BytesTx => "Current total of outgoing bytes"@,
            Gauge::BytesRx => "Current total of incoming bytes"@,
            Gauge::ConnAlive => "Current number of alive connections"@,
            Gauge::ConnError => "Current number of connections closed with error"@,
            Gauge::ConnTotal => "Current total number of connections"@,
            Gauge::DnsDelay => "Total seconds for the last DNS query test"@,
            Gauge::Score => "Score of server based on the last DNS query test"@,
        }
    }

    /// The value of a server, if it has one. Its delay in seconds is given.
    pub open spec fn value_spec(
        self,
        server: crate::proxy::ServerModel,
        delay: Seq<char>,
    ) -> Option<Seq<char>> {
        match self {
            Gauge::BytesTx => Some(crate::text::dec(server.traffic.tx_bytes as nat)),
            Gauge::BytesRx => Some(crate::text::dec(server.traffic.rx_bytes as nat)),
            Gauge::ConnAlive => Some(crate::text::dec(server.status.conn_alive as nat)),
            Gauge::ConnError => Some(crate::text::dec(server.status.conn_error as nat)),
            Gauge::ConnTotal => Some(crate::text::dec(server.status.conn_total as nat)),
            Gauge::DnsDelay => if server.status.delay is Known {
                Some(delay)
            } else {
                None
            },
            Gauge::Score => match server.status.score {
                Some(score) => Some(crate::text::signed_dec(score as int)),
                None => None,
            },
        }
    }

    /// The name of the value.
    pub fn name(&self) -> (s: &'static str)
        ensures
            s@ == self.name_spec(),
    {
        match self {
            Gauge::BytesTx => "proxy_server_bytes_tx_total",
            Gauge::BytesRx => "proxy_server_bytes_rx_total",
            Gauge::ConnAlive => "proxy_server_connections_alive",
            Gauge::ConnError => "proxy_server_connections_error",
            Gauge::ConnTotal => "proxy_server_connections_total",
            Gauge::DnsDelay => "proxy_server_dns_delay_seconds",
            Gauge::Score => "proxy_server_score",
        }
    }

    /// What the value means.
    pub fn help(&self) -> (s: &'static str)
        ensures
            s@ == self.help_spec(),
    {
        match self {
            Gauge::BytesTx => "Current total of outgoing bytes",
            Gauge::BytesRx => "Current total of incoming bytes",
            Gauge::ConnAlive => "Current number of alive connections",
            Gauge::ConnError => "Current number of connections closed with error",
            Gauge::ConnTotal => "Current total number of connections",
            Gauge::DnsDelay => "Total seconds for the last DNS query test",
            Gauge::Score => "Score of server based on the last DNS query test",
        }
    }

    /// The value of a server, if it has one.
    pub fn value(&self, s: &ServerStatus, delay: &str) -> (r: Option<String>)
        ensures
            match self.value_spec(s.server@, delay@) {
                Some(text) => r matches Some(t) && t@ == text,
                None => r is None,
            },
    {
        let status = s.server.status_snapshot();
        let traffic = s.server.traffic();
        match self {
            Gauge::BytesTx => Some(dec_string(traffic.tx_bytes as u64)),
            Gauge::BytesRx => Some(dec_string(traffic.rx_bytes as u64)),
            Gauge::ConnAlive => Some(dec_string(status.conn_alive as u64)),
            Gauge::ConnError => Some(dec_string(status.conn_error as u64)),
            Gauge::ConnTotal => Some(dec_string(status.conn_total as u64)),
            Gauge::DnsDelay => match status.delay {
                Delay::Known(_) => Some(delay.to_owned()),
                _ => None,
            },
            Gauge::Score => match status.score {
                Some(score) => {
                    let mut t = String::new();
                    push_signed(&mut t, score as i64);
                    assert(t@ =~= crate::text::signed_dec(score as int));
                    Some(t)
                },
                None => None,
            },
        }
    }
}

/// The two lines that announce a value.
pub open spec fn announced(name: Seq<char>, metric_type: Seq<char>, help: Seq<char>) -> Seq<char> {
    "# HELP moproxy_"@ + name + " "@ + help + "\n# TYPE moproxy_"@ + name + " "@ + metric_type
        + "\n"@
}

/// Appends the two lines that announce a value.
pub fn new_metric(buf: &mut String, name: &str, metric_type: &str, help: &str)
    ensures
        final(buf)@ == old(buf)@ + announced(name@, metric_type@, help@),
{
    buf.append("# HELP moproxy_");
    buf.append(name);
    buf.append(" ");
    buf.append(help);
    buf.append("\n# TYPE moproxy_");
    buf.append(name);
    buf.append(" ");
    buf.append(metric_type);
    buf.append("\n");
    assert(buf@ =~= old(buf)@ + announced(name@, metric_type@, help@));
}

/// The line of a server.
pub open spec fn metric_line(name: Seq<char>, tag: Seq<char>, value: Seq<char>) -> Seq<char> {
    "moproxy_"@ + name + "{server=\""@ + tag + "\"} "@ + value + "\n"@
}

/// The lines of the first `n` servers that have the value.
pub open spec fn metric_lines(
    gauge: Gauge,
    servers: Seq<super::ServerStatusModel>,
    delays: Seq<Seq<char>>,
    n: nat,
) -> Seq<char>
    decreases n,
{
    if n == 0 {
        Seq::empty()
    } else {
        let server = servers[n - 1].server;
        metric_lines(gauge, servers, delays, (n - 1) as nat) + match gauge.value_spec(
            server,
            delays[n - 1],
        ) {
            Some(value) => metric_line(gauge.name_spec(), server.tag, value),
            None => Seq::empty(),
        }
    }
}

/// The views of some texts.
pub open spec fn texts_view(texts: Seq<String>) -> Seq<Seq<char>> {
    texts.map_values(|t: String| t@)
}

/// Appends the lines of the servers that have a value.
pub fn each_server(buf: &mut String, gauge: Gauge, servers: &Vec<ServerStatus>, delays: &Vec<String>)
    requires
        delays@.len() == servers@.len(),
    ensures
        final(buf)@ == old(buf)@ + metric_lines(
            gauge,
            super::status_models(servers@),
            texts_view(delays@),
            servers@.len(),
        ),
{
    let ghost models = super::status_models(servers@);
    let ghost texts = texts_view(delays@);
    let n = servers.len();
    let mut i: usize = 0;
    assert(buf@ =~= old(buf)@ + Seq::<char>::empty());
    while i < n
        invariant
            n == servers@.len(),
            n == delays@.len(),
            i <= n,
            models == super::status_models(servers@),
            texts == texts_view(delays@),
            buf@ == old(buf)@ + metric_lines(gauge, models, texts, i as nat),
        decreases n - i,
    {
        assert(models[i as int] == servers@[i as int]@);
        assert(texts[i as int] == delays@[i as int]@);
        let ghost before = metric_lines(gauge, models, texts, i as nat);
        match gauge.value(&servers[i], delays[i].as_str()) {
            Some(value) => {
                buf.append("moproxy_");
                buf.append(gauge.name());
                buf.append("{server=\"");
                buf.append(servers[i].server.tag.as_str());
                buf.append("\"} ");
                buf.append(value.as_str());
                buf.append("\n");
                proof {
                    let line = metric_line(gauge.name_spec(), servers@[i as int]@.server.tag, value@);
                    assert(buf@ =~= old(buf)@ + (before + line));
                }
            },
            None => {
                assert(before + Seq::<char>::empty() =~= before);
            },
        }
        i = i + 1;
    }
}

/// All lines of a value.
pub open spec fn gauge_text(
    gauge: Gauge,
    servers: Seq<super::ServerStatusModel>,
    delays: Seq<Seq<char>>,
) -> Seq<char> {
    announced(gauge.name_spec(), "gauge"@, gauge.help_spec()) + metric_lines(
        gauge,
        servers,
        delays,
        servers.len(),
    ) + "\n"@
}

/// The lines of the first `n` values.
pub open spec fn gauges_text(
    gauges: Seq<Gauge>,
    servers: Seq<super::ServerStatusModel>,
    delays: Seq<Seq<char>>,
    n: nat,
) -> Seq<char>
    decreases n,
{
    if n == 0 {
        Seq::empty()
    } else {
        gauges_text(gauges, servers, delays, (n - 1) as nat) + gauge_text(
            gauges[n - 1],
            servers,
            delays,
        )
    }
}

/// All metrics. The delays in seconds are given.
pub fn exporter(status: &Status, delays: &Vec<String>) -> (s: String)
    requires
        delays@.len() == status.servers@.len(),
    ensures
        s@ == gauges_text(
            all_gauges(),
            super::status_models(status.servers@),
            texts_view(delays@),
            7,
        ),
{
    let ghost servers = super::status_models(status.servers@);
    let ghost texts = texts_view(delays@);
    let gauges: Vec<Gauge> = vec![
        Gauge::BytesTx,
        Gauge::BytesRx,
        Gauge::ConnAlive,
        Gauge::ConnError,
        Gauge::ConnTotal,
        Gauge::DnsDelay,
        Gauge::Score,
    ];
    assert(gauges@ =~= all_gauges());
    let mut s = String::new();
    let mut i: usize = 0;
    assert(s@ =~= Seq::<char>::empty());
    while i < gauges.len()
        invariant
            gauges@ == all_gauges(),
            i <= gauges@.len(),
            delays@.len() == status.servers@.len(),
            servers == super::status_models(status.servers@),
            texts == texts_view(delays@),
            s@ == gauges_text(all_gauges(), servers, texts, i as nat),
        decreases gauges@.len() - i,
    {
        let ghost before = s@;
        let gauge = gauges[i];
        new_metric(&mut s, gauge.name(), "gauge", gauge.help());
        each_server(&mut s, gauge, &status.servers, delays);
        s.append("\n");
        assert(s@ =~= before + gauge_text(gauge, servers, texts));
        i = i + 1;
    }
    s
}

// ---- laws ----

/// Each value of a server is told as the number that it is.
pub proof fn lemma_values_of_server(server: crate::proxy::ServerModel, delay: Seq<char>)
    ensures
        Gauge::BytesTx.value_spec(server, delay) == Some(
            crate::text::dec(server.traffic.tx_bytes as nat),
        ),
        Gauge::BytesRx.value_spec(server, delay) == Some(
            crate::text::dec(server.traffic.rx_bytes as nat),
        ),
        Gauge::ConnAlive.value_spec(server, delay) == Some(
            crate::text::dec(server.status.conn_alive as nat),
        ),
        Gauge::ConnError.value_spec(server, delay) == Some(
            crate::text::dec(server.status.conn_error as nat),
        ),
        Gauge::ConnTotal.value_spec(server, delay) == Some(
            crate::text::dec(server.status.conn_total as nat),
        ),
        Gauge::DnsDelay.value_spec(server, delay) == if server.status.delay is Known {
            Some(delay)
        } else {
            None
        },
        server.status.score matches Some(score) ==> Gauge::Score.value_spec(server, delay) == Some(
            crate::text::signed_dec(score as int),
        ),
        server.status.score is None ==> Gauge::Score.value_spec(server, delay) is None,
{
}

/// Every value is announced once, and no other.
pub proof fn lemma_every_value_once(gauge: Gauge)
    ensures
        all_gauges().contains(gauge),
        all_gauges().no_duplicates(),
{
    let all = all_gauges();
    assert(all[0] == Gauge::BytesTx && all[1] == Gauge::BytesRx && all[2] == Gauge::ConnAlive);
    assert(all[3] == Gauge::ConnError && all[4] == Gauge::ConnTotal && all[5] == Gauge::DnsDelay);
    assert(all[6] == Gauge::Score);
}

/// One server more has one line more, where it has the value.
pub proof fn lemma_line_of_server(
    gauge: Gauge,
    servers: Seq<super::ServerStatusModel>,
    delays: Seq<Seq<char>>,
    n: nat,
)
    requires
        n < servers.len(),
        n < delays.len(),
    ensures
        ({
            let server = servers[n as int].server;
            let before = metric_lines(gauge, servers, delays, n);
            match gauge.value_spec(server, delays[n as int]) {
                Some(value) => metric_lines(gauge, servers, delays, n + 1) == before + (
                "moproxy_"@ + gauge.name_spec() + "{server=\""@ + server.tag + "\"} "@ + value
                    + "\n"@),
                None => metric_lines(gauge, servers, delays, n + 1) == before,
            }
        }),
{
    let before = metric_lines(gauge, servers, delays, n);
    assert(before + Seq::<char>::empty() =~= before);
}

/// The names of the values are different ones.
pub proof fn lemma_names_differ(a: Gauge, b: Gauge)
    requires
        a != b,
    ensures
        a.name_spec() != b.name_spec(),
        "proxy_server_"@.is_prefix_of(a.name_spec()),
{
    reveal_strlit("proxy_server_");
    reveal_strlit("proxy_server_bytes_tx_total");
    reveal_strlit("proxy_server_bytes_rx_total");
    reveal_strlit("proxy_server_connections_alive");
    reveal_strlit("proxy_server_connections_error");
    reveal_strlit("proxy_server_connections_total");
    reveal_strlit("proxy_server_dns_delay_seconds");
    reveal_strlit("proxy_server_score");
    assert("proxy_server_"@ =~= a.name_spec().subrange(0, 13));
    let x = a.name_spec();
    let y = b.name_spec();
    assert("proxy_server_bytes_tx_total"@[19] == 't' && "proxy_server_bytes_tx_total"@[13] == 'b');
    assert("proxy_server_bytes_rx_total"@[19] == 'r' && "proxy_server_bytes_rx_total"@[13] == 'b');
    assert("proxy_server_connections_alive"@[13] == 'c' && "proxy_server_connections_alive"@[25]
        == 'a');
    assert("proxy_server_connections_error"@[13] == 'c' && "proxy_server_connections_error"@[25]
        == 'e');
    assert("proxy_server_connections_total"@[13] == 'c' && "proxy_server_connections_total"@[25]
        == 't');
    assert("proxy_server_dns_delay_seconds"@[13] == 'd');
    assert("proxy_server_score"@[13] == 's');
}

} // verus!
