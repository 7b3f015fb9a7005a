//! Records for a Graphite server.

use crate::proxy::{Delay, ProxyServer};
use crate::text::push_dec;
use crate::time::Duration;
use vstd::prelude::*;

verus! {

/// A value that was measured.
#[derive(Debug)]
pub struct Record {
    path: String,
    value: u64,
    time: Option<Duration>,
}

/// The model of a value that was measured.
pub struct RecordModel {
    pub path: Seq<char>,
    pub value: u64,
    pub time: Option<Duration>,
}

impl View for Record {
    type V = RecordModel;

    closed spec fn view(&self) -> RecordModel {
        RecordModel { path: self.path@, value: self.value, time: self.time }
    }
}

/// The models of some records.
pub open spec fn record_models(records: Seq<Record>) -> Seq<RecordModel> {
    records.map_values(|r: Record| r@)
}

/// Whether a text can be the path of a record.
pub open spec fn is_path(s: Seq<char>) -> bool {
    vstd::utf8::is_ascii_chars(s) && !s.contains(' ') && !s.contains('\n')
}

impl Record {
    #[verifier::type_invariant]
    closed spec fn inv(self) -> bool {
        is_path(self.path@)
    }

    /// A value, and when it was measured, as the time since the epoch.
    pub fn new(path: String, value: u64, time: Option<Duration>) -> (r: Record)
        requires
            is_path(path@),
        ensures
            r@ == (RecordModel { path: path@, value, time }),
    {
        Record { path, value, time }
    }

    /// When the value was measured.
    pub fn time(&self) -> (r: Option<Duration>)
        ensures
            r == self@.time,
    {
        self.time
    }

    /// Appends the record as a line of text. The seconds since the epoch are
    /// given in decimal; where the time is not known they are not used.
    pub fn write_paintext(&self, buf: &mut String, seconds: &str)
        ensures
            final(buf)@ == old(buf)@ + self@.path + " "@ + crate::text::dec(self@.value as nat)
                + " "@ + (if self@.time is None {
                "-1"@
            } else {
                seconds@
            }) + "\n"@,
            is_path(self@.path),
    {
        proof {
            use_type_invariant(self);
        }
        buf.append(self.path.as_str());
        buf.append(" ");
        push_dec(buf, self.value);
        buf.append(" ");
        match self.time {
            None => buf.append("-1"),
            Some(_) => buf.append(seconds),
        }
        buf.append("\n");
    }
}

/// The path of a measured value of a server.
pub open spec fn path_of(tag: Seq<char>, suffix: Seq<char>) -> Seq<char> {
    "moproxy.proxy_servers."@ + crate::text::replaced(tag, '.', '_') + "."@ + suffix
}

/// A record that may be missing, as a list.
pub open spec fn listed(record: Option<RecordModel>) -> Seq<RecordModel> {
    match record {
        Some(r) => seq![r],
        None => Seq::empty(),
    }
}

/// The records of a server: its delay and its score where they are known, its
/// traffic and its connections.
pub open spec fn server_records(
    s: crate::proxy::ServerModel,
    now: Option<Duration>,
) -> Seq<RecordModel> {
    let r = |suffix: Seq<char>, value: u64|
        RecordModel { path: path_of(s.tag, suffix), value, time: now };
    let delay = match s.status.delay {
        Delay::Known(d) => Some(r("delay"@, d.millis() as u64)),
        _ => None,
    };
    let score = match s.status.score {
        Some(n) => Some(r("score"@, n as u64)),
        None => None,
    };
    listed(delay) + listed(score) + seq![
        r("tx_bytes"@, s.traffic.tx_bytes as u64),
        r("rx_bytes"@, s.traffic.rx_bytes as u64),
        r("conns.total"@, s.status.conn_total as u64),
        r("conns.alive"@, s.status.conn_alive as u64),
        r("conns.error"@, s.status.conn_error as u64),
    ]
}

proof fn lemma_path(tag: Seq<char>, suffix: Seq<char>)
    requires
        crate::proxy::is_tag(tag),
        is_path(suffix),
    ensures
        is_path(path_of(tag, suffix)),
{
    reveal_strlit("moproxy.proxy_servers.");
    reveal_strlit(".");
    let head = "moproxy.proxy_servers."@;
    let middle = crate::text::replaced(tag, '.', '_');
    let path = path_of(tag, suffix);
    assert forall|i: int| 0 <= i < path.len() implies (#[trigger] path[i] as u32) < 128 && path[i]
        != ' ' && path[i] != '\n' by {
        if i < head.len() {
            assert(path[i] == head[i]);
        } else if i < head.len() + middle.len() {
            let j = i - head.len();
            assert(path[i] == middle[j]);
            assert(tag.contains(tag[j]));
            assert((tag[j] as u32) < 128);
        } else if i == head.len() + middle.len() {
            assert(path[i] == '.');
        } else {
            let j = i - head.len() - middle.len() - 1;
            assert(path[i] == suffix[j]);
            assert(suffix.contains(suffix[j]));
            assert((suffix[j] as u32) < 128);
        }
    }
    vstd::utf8::is_ascii_chars_nat_bound(path);
}

fn record(server: &ProxyServer, suffix: &str, value: u64, now: Option<Duration>) -> (r: Record)
    requires
        crate::proxy::is_tag(server@.tag),
        is_path(suffix@),
    ensures
        r@ == (RecordModel { path: path_of(server@.tag, suffix@), value, time: now }),
{
    proof {
        lemma_path(server@.tag, suffix@);
    }
    Record::new(server.graphite_path(suffix), value, now)
}

proof fn lemma_suffixes()
    ensures
        is_path("delay"@),
        is_path("score"@),
        is_path("tx_bytes"@),
        is_path("rx_bytes"@),
        is_path("conns.total"@),
        is_path("conns.alive"@),
        is_path("conns.error"@),
{
    reveal_strlit("delay");
    reveal_strlit("score");
    reveal_strlit("tx_bytes");
    reveal_strlit("rx_bytes");
    reveal_strlit("conns.total");
    reveal_strlit("conns.alive");
    reveal_strlit("conns.error");
}

/// The records of a server.
pub fn records_of(server: &ProxyServer, now: Option<Duration>) -> (r: Vec<Record>)
    requires
        crate::proxy::is_tag(server@.tag),
    ensures
        record_models(r@) == server_records(server@, now),
{
    proof {
        lemma_suffixes();
    }
    let mut r: Vec<Record> = Vec::new();
    let status = server.status_snapshot();
    let traffic = server.traffic();
    if let Delay::Known(d) = status.delay {
        let millis = d.as_millis();
        r.push(record(server, "delay", #[verifier::truncate] (millis as u64), now));
    }
    if let Some(score) = status.score {
        r.push(record(server, "score", #[verifier::truncate] (score as u64), now));
    }
    r.push(record(server, "tx_bytes", traffic.tx_bytes as u64, now));
    r.push(record(server, "rx_bytes", traffic.rx_bytes as u64, now));
    r.push(record(server, "conns.total", status.conn_total as u64, now));
    r.push(record(server, "conns.alive", status.conn_alive as u64, now));
    r.push(record(server, "conns.error", status.conn_error as u64, now));
    assert(record_models(r@) =~= server_records(server@, now));
    r
}

/// The path of a record names the server by its tag, with underscores for the
/// dots, so that the tag is one part of the path.
pub proof fn lemma_tag_is_one_part(tag: Seq<char>, suffix: Seq<char>, i: int)
    requires
        0 <= i < tag.len(),
    ensures
        ({
            let path = path_of(tag, suffix);
            let start = "moproxy.proxy_servers."@;
            &&& path.len() == start.len() + tag.len() + 1 + suffix.len()
            &&& path.take(start.len() as int) == start
            &&& path[start.len() + i] != '.'
            &&& tag[i] != '.' ==> path[start.len() + i] == tag[i]
            &&& tag[i] == '.' ==> path[start.len() + i] == '_'
            &&& path[(start.len() + tag.len()) as int] == '.'
            &&& path.skip((start.len() + tag.len() + 1) as int) == suffix
        }),
{
    reveal_strlit("moproxy.proxy_servers.");
    reveal_strlit(".");
    let path = path_of(tag, suffix);
    let start = "moproxy.proxy_servers."@;
    assert(path.take(start.len() as int) =~= start);
    assert(path.skip((start.len() + tag.len() + 1) as int) =~= suffix);
}

/// A server has a record of its delay and one of its score where they are known,
/// and five more in any case.
pub proof fn lemma_records_of_server(s: crate::proxy::ServerModel, now: Option<Duration>)
    ensures
        ({
            let records = server_records(s, now);
            let n = records.len() as int;
            let k = (if s.status.delay is Known {
                1int
            } else {
                0int
            }) + (if s.status.score is Some {
                1int
            } else {
                0int
            });
            &&& n == 5 + k
            &&& records[n - 5].path == path_of(s.tag, "tx_bytes"@) && records[n - 5].value
                == s.traffic.tx_bytes
            &&& records[n - 4].path == path_of(s.tag, "rx_bytes"@) && records[n - 4].value
                == s.traffic.rx_bytes
            &&& records[n - 3].path == path_of(s.tag, "conns.total"@) && records[n - 3].value
                == s.status.conn_total
            &&& records[n - 2].path == path_of(s.tag, "conns.alive"@) && records[n - 2].value
                == s.status.conn_alive
            &&& records[n - 1].path == path_of(s.tag, "conns.error"@) && records[n - 1].value
                == s.status.conn_error
            &&& s.status.delay matches Delay::Known(d) ==> records[0].path == path_of(
                s.tag,
                "delay"@,
            ) && records[0].value == d.millis() as u64
            &&& s.status.score matches Some(score) ==> records[k - 1].path == path_of(
                s.tag,
                "score"@,
            ) && (score >= 0 ==> records[k - 1].value == score)
            &&& forall|i: int| 0 <= i < n ==> (#[trigger] records[i]).time == now
        }),
{
}

} // verus!
