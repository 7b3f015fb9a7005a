//! The status pages.

pub mod helpers;
pub mod prometheus;

use self::helpers::{push_two_digits, DurationExt, RequestExt, RequestHeaders};
use crate::monitor::traffic::Throughput;
use crate::monitor::{find_server, Monitor};
use crate::net::{parse_socket_addr, SocketAddr};
use crate::proxy::{Delay, ProxyServer};
use crate::server::is_path;
use crate::text::{dec_string, push_bytes, push_dec, push_signed, same_str};
use crate::time::Duration;
use prettytable::format::consts::FORMAT_NO_LINESEP_WITH_TITLE;
use prettytable::{Cell, Row, Table};
use vstd::prelude::*;

verus! {

// ---- what is shown ----

/// A server and how much traffic it has.
#[derive(Debug)]
pub struct ServerStatus {
    pub server: ProxyServer,
    pub throughput: Option<Throughput>,
}

/// The model of a server and its traffic.
pub struct ServerStatusModel {
    pub server: crate::proxy::ServerModel,
    pub throughput: Option<Throughput>,
}

impl View for ServerStatus {
    type V = ServerStatusModel;

    open spec fn view(&self) -> ServerStatusModel {
        ServerStatusModel { server: self.server@, throughput: self.throughput }
    }
}

/// The models of some servers and their traffic.
pub open spec fn status_models(servers: Seq<ServerStatus>) -> Seq<ServerStatusModel> {
    servers.map_values(|s: ServerStatus| s@)
}

/// All servers, how long the proxy runs, and how much traffic there is.
#[derive(Debug)]
pub struct Status {
    pub servers: Vec<ServerStatus>,
    pub uptime: Duration,
    pub throughput: Throughput,
}

/// Whether a server is the first of its identity in a list.
pub open spec fn is_first(servers: Seq<crate::proxy::ServerModel>, i: int) -> bool {
    crate::monitor::first_at(servers, servers[i].identity()) == Some(i)
}

/// How much the first `n` servers send in a second, each counted once.
pub open spec fn total_tx(
    servers: Seq<crate::proxy::ServerModel>,
    throughputs: Seq<Throughput>,
    n: nat,
) -> nat
    decreases n,
{
    if n == 0 {
        0
    } else {
        total_tx(servers, throughputs, (n - 1) as nat) + if is_first(servers, n - 1) {
            throughputs[n - 1].tx_bps as nat
        } else {
            0
        }
    }
}

/// How much the first `n` servers receive in a second, each counted once.
pub open spec fn total_rx(
    servers: Seq<crate::proxy::ServerModel>,
    throughputs: Seq<Throughput>,
    n: nat,
) -> nat
    decreases n,
{
    if n == 0 {
        0
    } else {
        total_rx(servers, throughputs, (n - 1) as nat) + if is_first(servers, n - 1) {
            throughputs[n - 1].rx_bps as nat
        } else {
            0
        }
    }
}

proof fn lemma_totals_grow(
    servers: Seq<crate::proxy::ServerModel>,
    throughputs: Seq<Throughput>,
    i: nat,
    n: nat,
)
    requires
        i <= n,
    ensures
        total_tx(servers, throughputs, i) <= total_tx(servers, throughputs, n),
        total_rx(servers, throughputs, i) <= total_rx(servers, throughputs, n),
    decreases n,
{
    if i < n {
        lemma_totals_grow(servers, throughputs, i, (n - 1) as nat);
    }
}

impl Status {
    /// The status of all servers of a monitor, given the throughput of each. Of
    /// servers that are the same only the first one has a throughput.
    pub fn from(monitor: &Monitor, throughputs: &Vec<Throughput>, uptime: Duration) -> (r: Status)
        requires
            throughputs@.len() == monitor.servers@.len(),
            total_tx(
                crate::proxy::server_models(monitor.servers@),
                throughputs@,
                monitor.servers@.len(),
            ) <= usize::MAX,
            total_rx(
                crate::proxy::server_models(monitor.servers@),
                throughputs@,
                monitor.servers@.len(),
            ) <= usize::MAX,
        ensures
            r.uptime == uptime,
            r.throughput.tx_bps == total_tx(
                crate::proxy::server_models(monitor.servers@),
                throughputs@,
                monitor.servers@.len(),
            ),
            r.throughput.rx_bps == total_rx(
                crate::proxy::server_models(monitor.servers@),
                throughputs@,
                monitor.servers@.len(),
            ),
            ({
                let servers = crate::proxy::server_models(monitor.servers@);
                status_models(r.servers@) == Seq::new(
                    servers.len(),
                    |i: int|
                        ServerStatusModel {
                            server: servers[i],
                            throughput: if is_first(servers, i) {
                                Some(throughputs@[i])
                            } else {
                                None
                            },
                        },
                )
            }),
    {
        let ghost models = crate::proxy::server_models(monitor.servers@);
        let n = monitor.servers.len();
        let mut total = Throughput { tx_bps: 0, rx_bps: 0 };
        let mut servers: Vec<ServerStatus> = Vec::new();
        let mut i: usize = 0;
        while i < n
            invariant
                n == monitor.servers@.len(),
                n == throughputs@.len(),
                i <= n,
                models == crate::proxy::server_models(monitor.servers@),
                total.tx_bps == total_tx(models, throughputs@, i as nat),
                total.rx_bps == total_rx(models, throughputs@, i as nat),
                total_tx(models, throughputs@, n as nat) <= usize::MAX,
                total_rx(models, throughputs@, n as nat) <= usize::MAX,
                servers@.len() == i,
                forall|j: int|
                    0 <= j < i ==> (#[trigger] servers@[j])@ == (ServerStatusModel {
                        server: models[j],
                        throughput: if is_first(models, j) {
                            Some(throughputs@[j])
                        } else {
                            None
                        },
                    }),
            decreases n - i,
        {
            assert(models[i as int] == monitor.servers@[i as int]@);
            proof {
                lemma_totals_grow(models, throughputs@, (i + 1) as nat, n as nat);
            }
            let at = find_server(&monitor.servers, &monitor.servers[i]);
            let throughput = if at == Some(i) {
                total = total + throughputs[i];
                Some(throughputs[i])
            } else {
                None
            };
            servers.push(ServerStatus { server: monitor.servers[i].clone(), throughput });
            i = i + 1;
        }
        proof {
            assert(status_models(servers@) =~= Seq::new(
                models.len(),
                |i: int|
                    ServerStatusModel {
                        server: models[i],
                        throughput: if is_first(models, i) {
                            Some(throughputs@[i])
                        } else {
                            None
                        },
                    },
            ));
        }
        Status { servers, uptime, throughput: total }
    }
}

// ---- the page in plain text ----

/// A cell of a table, and whether its text stands on the right.
#[derive(Debug)]
pub struct TableCell {
    pub text: String,
    pub right: bool,
}

/// The views of the cells of a row.
pub open spec fn row_view(row: Seq<TableCell>) -> Seq<(Seq<char>, bool)> {
    row.map_values(|c: TableCell| (c.text@, c.right))
}

/// The views of the cells of a table.
pub open spec fn table_view(rows: Seq<Vec<TableCell>>) -> Seq<Seq<(Seq<char>, bool)>> {
    rows.map_values(|row: Vec<TableCell>| row_view(row@))
}

/// Whether a text can stand in a cell. An escape character may start what is
/// hidden, and where text beyond ASCII is hidden its width can be miscounted.
pub open spec fn can_be_laid_out(s: Seq<char>) -> bool {
    vstd::utf8::is_ascii_chars(s) || !s.contains('\u{1b}')
}

/// Whether the texts of all cells of a row can stand in cells.
pub open spec fn row_can_be_laid_out(row: Seq<TableCell>) -> bool {
    forall|j: int| 0 <= j < row.len() ==> can_be_laid_out((#[trigger] row[j]).text@)
}

/// How the `prettytable` crate lays a table out.
pub uninterp spec fn table_layout(rows: Seq<Seq<(Seq<char>, bool)>>) -> Seq<char>;

/// `prettytable::Table`, in the format that has lines around the table and below
/// its title only, as text. The cells alone decide how it looks; nothing more is
/// stated of it. It panics where the width of a hidden text is miscounted.
#[verifier::external_body]
fn table_text(rows: &Vec<Vec<TableCell>>) -> (s: String)
    requires
        forall|i: int| 0 <= i < rows@.len() ==> row_can_be_laid_out((#[trigger] rows@[i])@),
    ensures
        s@ == table_layout(table_view(rows@)),
{
    let cell = |c: &TableCell| Cell::new(&c.text).style_spec(if c.right { "r" } else { "l" });
    let row = |row: &Vec<TableCell>| Row::new(row.iter().map(cell).collect());
    let mut table = Table::init(rows.iter().map(row).collect());
    table.set_format(*FORMAT_NO_LINESEP_WITH_TITLE);
    table.to_string()
}

/// Amounts of a server as people read them: the bytes that were sent and
/// received, and the bits in a second.
#[derive(Debug)]
pub struct ServerTexts {
    pub up: String,
    pub down: String,
    pub bps: String,
}

/// Whether the amounts of a server can stand in cells.
pub open spec fn texts_can_be_laid_out(texts: ServerTexts) -> bool {
    can_be_laid_out(texts.up@) && can_be_laid_out(texts.down@) && can_be_laid_out(texts.bps@)
}

/// The titles of the columns.
pub open spec fn title_row() -> Seq<(Seq<char>, bool)> {
    seq![
        ("Server"@, false),
        ("Score"@, false),
        ("Delay"@, false),
        ("CUR"@, false),
        ("TTL"@, false),
        ("E16:64"@, false),
        ("Up"@, false),
        ("Down"@, false),
        ("↑↓ bps"@, false),
    ]
}

/// The cells of a server.
pub open spec fn server_row(s: ServerStatusModel, texts: ServerTexts) -> Seq<(Seq<char>, bool)> {
    let status = s.server.status;
    let cells = seq![
        (s.server.tag, false),
        (
            match status.score {
                Some(v) => crate::text::signed_dec(v as int),
                None => "-"@,
            },
            true,
        ),
        (
            match status.delay {
                Delay::Known(d) => crate::text::dec(d.millis() as nat) + " ms"@,
                _ => "-"@,
            },
            true,
        ),
        (crate::text::dec(status.conn_alive as nat), true),
        (crate::text::dec(status.conn_total as nat), true),
        (
            helpers::two_digits(crate::proxy::score::ones(status.close_history as nat, 16))
                + ":"@ + helpers::two_digits(
                crate::proxy::score::ones(status.close_history as nat, 64),
            ),
            true,
        ),
        (texts.up@, true),
        (texts.down@, true),
    ];
    match s.throughput {
        Some(tp) if tp.tx_bps + tp.rx_bps > 0 => cells.push((texts.bps@, true)),
        _ => cells,
    }
}

/// How many connections the first `n` servers have.
pub open spec fn total_alive(servers: Seq<ServerStatusModel>, n: nat) -> nat
    decreases n,
{
    if n == 0 {
        0
    } else {
        total_alive(servers, (n - 1) as nat) + servers[n - 1].server.status.conn_alive as nat
    }
}

proof fn lemma_alive_grows(servers: Seq<ServerStatusModel>, i: nat, n: nat)
    requires
        i <= n,
    ensures
        total_alive(servers, i) <= total_alive(servers, n),
    decreases n,
{
    if i < n {
        lemma_alive_grows(servers, i, (n - 1) as nat);
    }
}

/// The table of all servers.
pub open spec fn table_rows(
    servers: Seq<ServerStatusModel>,
    texts: Seq<ServerTexts>,
) -> Seq<Seq<(Seq<char>, bool)>> {
    seq![title_row()] + Seq::new(servers.len(), |i: int| server_row(servers[i], texts[i]))
}

/// The page in plain text.
pub open spec fn plain_page(
    status: Status,
    version: Seq<char>,
    texts: Seq<ServerTexts>,
    tx: Seq<char>,
    rx: Seq<char>,
) -> Seq<char> {
    let servers = status_models(status.servers@);
    "moproxy ("@ + version + ") is running. "@ + helpers::spelled_units(
        helpers::units_of(status.uptime.secs),
        2,
    ) + "\n["@ + crate::text::dec(total_alive(servers, servers.len())) + "] ↑ "@ + tx + " ↓ "@
        + rx + "\n"@ + table_layout(table_rows(servers, texts)) + "\n"@
}

fn cell(text: String, right: bool) -> (r: TableCell)
    ensures
        r.text@ == text@,
        r.right == right,
{
    TableCell { text, right }
}

proof fn lemma_number_can_be_laid_out(n: nat)
    ensures
        vstd::utf8::is_ascii_chars(crate::text::dec(n)),
{
    crate::number::lemma_dec_digits(n);
    let s = crate::text::dec(n);
    assert forall|i: int| 0 <= i < s.len() implies '\0' <= #[trigger] s[i] <= '\u{7f}' by {
        assert(crate::number::digit_value(s[i], 10) is Some);
    }
}

/// The numbers of a server can stand in cells.
proof fn lemma_numbers_can_be_laid_out(score: int, millis: nat, short: nat, long: nat)
    ensures
        vstd::utf8::is_ascii_chars(crate::text::signed_dec(score)),
        vstd::utf8::is_ascii_chars(crate::text::dec(millis) + " ms"@),
        vstd::utf8::is_ascii_chars("-"@),
        vstd::utf8::is_ascii_chars(
            helpers::two_digits(short) + ":"@ + helpers::two_digits(long),
        ),
{
    reveal_strlit(" ms");
    reveal_strlit("-");
    reveal_strlit(":");
    lemma_number_can_be_laid_out(if score < 0 { (-score) as nat } else { score as nat });
    lemma_number_can_be_laid_out(millis);
    lemma_number_can_be_laid_out(short);
    lemma_number_can_be_laid_out(long);
}

fn title_cells() -> (r: Vec<TableCell>)
    ensures
        row_view(r@) == title_row(),
        row_can_be_laid_out(r@),
{
    let mut r: Vec<TableCell> = Vec::new();
    r.push(cell("Server".to_owned(), false));
    r.push(cell("Score".to_owned(), false));
    r.push(cell("Delay".to_owned(), false));
    r.push(cell("CUR".to_owned(), false));
    r.push(cell("TTL".to_owned(), false));
    r.push(cell("E16:64".to_owned(), false));
    r.push(cell("Up".to_owned(), false));
    r.push(cell("Down".to_owned(), false));
    r.push(cell("↑↓ bps".to_owned(), false));
    assert(row_view(r@) =~= title_row());
    proof {
        reveal_strlit("Server");
        reveal_strlit("Score");
        reveal_strlit("Delay");
        reveal_strlit("CUR");
        reveal_strlit("TTL");
        reveal_strlit("E16:64");
        reveal_strlit("Up");
        reveal_strlit("Down");
        reveal_strlit("↑↓ bps");
        assert(r@[8].text@ == "↑↓ bps"@);
        assert(!"↑↓ bps"@.contains('\u{1b}'));
    }
    r
}

/// The number of connections that failed among the last 16 and the last 64.
fn error_counts(status: &crate::proxy::ProxyServerStatus) -> (s: String)
    ensures
        s@ == helpers::two_digits(crate::proxy::score::ones(status.close_history as nat, 16)) + ":"@
            + helpers::two_digits(crate::proxy::score::ones(status.close_history as nat, 64)),
{
    let mut s = String::new();
    push_two_digits(&mut s, status.recent_error_count(16));
    s.append(":");
    push_two_digits(&mut s, status.recent_error_count(64));
    assert(s@ =~= helpers::two_digits(crate::proxy::score::ones(status.close_history as nat, 16))
        + ":"@ + helpers::two_digits(crate::proxy::score::ones(status.close_history as nat, 64)));
    s
}

fn server_cells(s: &ServerStatus, texts: &ServerTexts) -> (r: Vec<TableCell>)
    requires
        s.throughput matches Some(tp) ==> tp.tx_bps + tp.rx_bps <= usize::MAX,
        can_be_laid_out(s.server.tag@),
        texts_can_be_laid_out(*texts),
    ensures
        row_view(r@) == server_row(s@, *texts),
        row_can_be_laid_out(r@),
{
    let status = s.server.status_snapshot();
    let mut r: Vec<TableCell> = Vec::new();
    r.push(cell(s.server.tag.as_str().to_owned(), false));
    let score = match status.score {
        Some(v) => {
            let mut t = String::new();
            push_signed(&mut t, v as i64);
            assert(t@ =~= crate::text::signed_dec(v as int));
            t
        },
        None => "-".to_owned(),
    };
    r.push(cell(score, true));
    let delay = match status.delay {
        Delay::Known(d) => d.format_millis(),
        _ => "-".to_owned(),
    };
    r.push(cell(delay, true));
    r.push(cell(dec_string(status.conn_alive as u64), true));
    r.push(cell(dec_string(status.conn_total as u64), true));
    r.push(cell(error_counts(&status), true));
    r.push(cell(texts.up.as_str().to_owned(), true));
    r.push(cell(texts.down.as_str().to_owned(), true));
    if let Some(tp) = s.throughput {
        if tp.tx_bps + tp.rx_bps > 0 {
            r.push(cell(texts.bps.as_str().to_owned(), true));
        }
    }
    assert(row_view(r@) =~= server_row(s@, *texts));
    proof {
        lemma_numbers_can_be_laid_out(
            match status.score {
                Some(v) => v as int,
                None => 0,
            },
            match status.delay {
                Delay::Known(d) => d.millis() as nat,
                _ => 0,
            },
            crate::proxy::score::ones(status.close_history as nat, 16),
            crate::proxy::score::ones(status.close_history as nat, 64),
        );
        lemma_number_can_be_laid_out(status.conn_alive as nat);
        lemma_number_can_be_laid_out(status.conn_total as nat);
        assert forall|j: int| 0 <= j < r@.len() implies can_be_laid_out(
            (#[trigger] r@[j]).text@,
        ) by {
            assert(row_view(r@)[j] == server_row(s@, *texts)[j]);
        }
    }
    r
}

/// The status of all servers as a page in plain text. How amounts are told to
/// people is given.
pub fn plaintext_status(
    status: &Status,
    version: &str,
    texts: &Vec<ServerTexts>,
    tx: &str,
    rx: &str,
) -> (s: String)
    requires
        texts@.len() == status.servers@.len(),
        total_alive(status_models(status.servers@), status.servers@.len()) <= u32::MAX,
        forall|i: int|
            0 <= i < status.servers@.len() ==> ((
            #[trigger] status.servers@[i]).throughput matches Some(tp) ==> tp.tx_bps + tp.rx_bps
                <= usize::MAX),
        forall|i: int|
            0 <= i < status.servers@.len() ==> can_be_laid_out(
                (#[trigger] status.servers@[i]).server.tag@,
            ),
        forall|i: int| 0 <= i < texts@.len() ==> texts_can_be_laid_out(#[trigger] texts@[i]),
    ensures
        s@ == plain_page(*status, version@, texts@, tx@, rx@),
{
    let ghost servers = status_models(status.servers@);
    let n = status.servers.len();
    let mut rows: Vec<Vec<TableCell>> = Vec::new();
    rows.push(title_cells());
    let mut alive: u32 = 0;
    let mut i: usize = 0;
    let ghost expected = table_rows(servers, texts@);
    while i < n
        invariant
            n == status.servers@.len(),
            n == texts@.len(),
            i <= n,
            servers == status_models(status.servers@),
            expected == table_rows(servers, texts@),
            total_alive(servers, n as nat) <= u32::MAX,
            alive == total_alive(servers, i as nat),
            forall|i: int|
                0 <= i < status.servers@.len() ==> ((
                #[trigger] status.servers@[i]).throughput matches Some(tp) ==> tp.tx_bps
                    + tp.rx_bps <= usize::MAX),
            forall|i: int|
                0 <= i < status.servers@.len() ==> can_be_laid_out(
                    (#[trigger] status.servers@[i]).server.tag@,
                ),
            forall|i: int| 0 <= i < texts@.len() ==> texts_can_be_laid_out(#[trigger] texts@[i]),
            forall|j: int| 0 <= j <= i ==> row_can_be_laid_out((#[trigger] rows@[j])@),
            rows@.len() == i + 1,
            forall|j: int| 0 <= j <= i ==> row_view((#[trigger] rows@[j])@) == expected[j],
        decreases n - i,
    {
        assert(servers[i as int] == status.servers@[i as int]@);
        proof {
            lemma_alive_grows(servers, (i + 1) as nat, n as nat);
        }
        alive = alive + status.servers[i].server.status.conn_alive;
        rows.push(server_cells(&status.servers[i], &texts[i]));
        i = i + 1;
    }
    assert(table_view(rows@) =~= expected);
    let mut s = "moproxy (".to_owned();
    s.append(version);
    s.append(") is running. ");
    s.append(status.uptime.format().as_str());
    s.append("\n[");
    push_dec(&mut s, alive as u64);
    s.append("] ↑ ");
    s.append(tx);
    s.append(" ↓ ");
    s.append(rx);
    s.append("\n");
    s.append(table_text(&rows).as_str());
    s.append("\n");
    s
}

// ---- which page ----

/// A page.
#[derive(Debug, Clone, Copy, PartialEq, Eq, Structural)]
pub enum Page {
    /// The request is refused.
    NotAllowed,
    /// The home page in HTML.
    Home,
    /// The status in plain text.
    Plain,
    /// The version of the program.
    Version,
    /// The status in JSON.
    Status,
    /// The metrics.
    Metrics,
    /// A file of the bundle, if there is one.
    Resource,
}

/// Which page a request asks for.
pub open spec fn page_of(is_get: bool, path: Seq<char>, takes_html: bool) -> Page {
    if !is_get {
        Page::NotAllowed
    } else if path == "/"@ || path == "/index.html"@ {
        if takes_html {
            Page::Home
        } else {
            Page::Plain
        }
    } else if path == "/plain"@ {
        Page::Plain
    } else if path == "/version"@ {
        Page::Version
    } else if path == "/status"@ {
        Page::Status
    } else if path == "/metrics"@ {
        Page::Metrics
    } else {
        Page::Resource
    }
}

/// Finds the page that a request asks for.
pub fn route(is_get: bool, path: &str, headers: &RequestHeaders) -> (r: Page)
    ensures
        r == page_of(
            is_get,
            path@,
            helpers::takes_html(
                helpers::text_view(headers.accept),
                helpers::text_view(headers.user_agent),
            ),
        ),
{
    if !is_get {
        return Page::NotAllowed;
    }
    if same_str(path, "/") || same_str(path, "/index.html") {
        if headers.accept_html() {
            Page::Home
        } else {
            Page::Plain
        }
    } else if same_str(path, "/plain") {
        Page::Plain
    } else if same_str(path, "/version") {
        Page::Version
    } else if same_str(path, "/status") {
        Page::Status
    } else if same_str(path, "/metrics") {
        Page::Metrics
    } else {
        Page::Resource
    }
}

/// A page of the smaller console.
#[derive(Debug, Clone, Copy, PartialEq, Eq, Structural)]
pub enum BasicPage {
    /// The home page in HTML.
    Home,
    /// The version of the program.
    Version,
    /// The status in JSON.
    Status,
    /// There is no such page.
    NotFound,
}

/// Finds the page of the smaller console, which has no plain text and no
/// metrics, and does not tell other methods apart from other paths.
pub fn basic_route(is_get: bool, path: &str) -> (r: BasicPage)
    ensures
        r == if is_get && path@ == "/"@ {
            BasicPage::Home
        } else if is_get && path@ == "/version"@ {
            BasicPage::Version
        } else if is_get && path@ == "/status"@ {
            BasicPage::Status
        } else {
            BasicPage::NotFound
        },
{
    if is_get && same_str(path, "/") {
        BasicPage::Home
    } else if is_get && same_str(path, "/version") {
        BasicPage::Version
    } else if is_get && same_str(path, "/status") {
        BasicPage::Status
    } else {
        BasicPage::NotFound
    }
}

/// What is answered.
#[derive(Debug)]
pub struct Reply {
    pub code: u16,
    /// Whether to say that only `GET` is allowed.
    pub allow_get: bool,
    pub content_type: String,
    pub body: Vec<u8>,
}

/// The model of what is answered.
pub struct ReplyModel {
    pub code: u16,
    pub allow_get: bool,
    pub content_type: Seq<char>,
    pub body: Seq<u8>,
}

impl View for Reply {
    type V = ReplyModel;

    open spec fn view(&self) -> ReplyModel {
        ReplyModel {
            code: self.code,
            allow_get: self.allow_get,
            content_type: self.content_type@,
            body: self.body@,
        }
    }
}

/// A file of the bundle: its type and what it holds.
#[derive(Debug)]
pub struct Resource {
    pub mime: String,
    pub content: Vec<u8>,
}

/// What the pages hold, as far as it is there.
#[derive(Debug)]
pub struct Contents {
    /// The file of the bundle that the request names, or its home page.
    pub resource: Option<Resource>,
    /// The home page where the bundle has none.
    pub index: String,
    /// The status in plain text, in JSON, or the metrics.
    pub text: String,
    /// The version of the program.
    pub version: String,
}

/// An answer that is text.
pub open spec fn text_reply(code: u16, content_type: Seq<char>, body: Seq<char>) -> ReplyModel {
    ReplyModel {
        code,
        allow_get: code == 405,
        content_type,
        body: vstd::utf8::encode_utf8(body),
    }
}

/// An answer that is a file.
pub open spec fn file_reply(file: Resource) -> ReplyModel {
    ReplyModel {
        code: 200,
        allow_get: false,
        content_type: file.mime@,
        body: file.content@,
    }
}

/// What is answered for a page.
pub open spec fn reply_of(page: Page, contents: Contents) -> ReplyModel {
    match page {
        Page::NotAllowed => text_reply(405, "text/plain"@, "only GET is allowed"@),
        Page::Home => match contents.resource {
            Some(file) => file_reply(file),
            None => text_reply(200, "text/html"@, contents.index@),
        },
        Page::Plain => text_reply(200, "text/plain; charset=utf-8"@, contents.text@),
        Page::Version => text_reply(200, "text/plain"@, contents.version@),
        Page::Status => text_reply(200, "application/json"@, contents.text@),
        Page::Metrics => text_reply(200, "text/plain; charset=utf-8"@, contents.text@),
        Page::Resource => match contents.resource {
            Some(file) => file_reply(file),
            None => text_reply(404, "text/plain"@, "page not found"@),
        },
    }
}

fn text_answer(code: u16, content_type: &str, text: &str) -> (r: Reply)
    ensures
        r@ == text_reply(code, content_type@, text@),
{
    let mut body: Vec<u8> = Vec::new();
    push_bytes(&mut body, text.as_bytes());
    assert(body@ =~= vstd::utf8::encode_utf8(text@));
    Reply { code, allow_get: code == 405, content_type: content_type.to_owned(), body }
}

/// Answers with a page.
pub fn response(page: Page, contents: Contents) -> (r: Reply)
    ensures
        r@ == reply_of(page, contents),
{
    match page {
        Page::NotAllowed => text_answer(405, "text/plain", "only GET is allowed"),
        Page::Home => match contents.resource {
            Some(file) => Reply {
                code: 200,
                allow_get: false,
                content_type: file.mime,
                body: file.content,
            },
            None => text_answer(200, "text/html", contents.index.as_str()),
        },
        Page::Plain => text_answer(200, "text/plain; charset=utf-8", contents.text.as_str()),
        Page::Version => text_answer(200, "text/plain", contents.version.as_str()),
        Page::Status => text_answer(200, "application/json", contents.text.as_str()),
        Page::Metrics => text_answer(200, "text/plain; charset=utf-8", contents.text.as_str()),
        Page::Resource => match contents.resource {
            Some(file) => Reply {
                code: 200,
                allow_get: false,
                content_type: file.mime,
                body: file.content,
            },
            None => text_answer(404, "text/plain", "page not found"),
        },
    }
}

/// Whatever is asked with another method than `GET` is refused, and nothing of
/// the status is told.
pub proof fn lemma_only_get(path: Seq<char>, takes_html: bool, a: Contents, b: Contents)
    ensures
        reply_of(page_of(false, path, takes_html), a).code == 405,
        reply_of(page_of(false, path, takes_html), a) == reply_of(
            page_of(false, path, takes_html),
            b,
        ),
{
}

// ---- where to listen ----

/// Where the pages are served.
#[derive(Debug)]
pub enum ListenAddr {
    TcpSocket(SocketAddr),
    UnixPath(String),
}

/// The server of the pages.
#[derive(Debug)]
pub struct WebServer {
    pub bind_addr: ListenAddr,
}

/// The address is neither a path nor a socket address.
#[derive(Debug, Clone, Copy, PartialEq, Eq, Structural)]
pub struct BadListenAddr {}

impl BadListenAddr {
    /// The error in words.
    pub fn message(&self) -> (s: &'static str)
        ensures
            s@ == "Not valid TCP socket address for web server"@,
    {
        "Not valid TCP socket address for web server"
    }
}

impl WebServer {
    /// A server at an address: a path where it starts with a slash, or else a
    /// socket address.
    pub fn new(bind_addr: &str) -> (r: Result<WebServer, BadListenAddr>)
        ensures
            if bind_addr@.len() > 0 && bind_addr@[0] == '/' {
                r matches Ok(w) && w.bind_addr matches ListenAddr::UnixPath(p) && p@ == bind_addr@
            } else {
                match crate::net::socket_text(bind_addr@) {
                    Some(addr) => r matches Ok(w) && w.bind_addr == ListenAddr::TcpSocket(addr),
                    None => r is Err,
                }
            },
    {
        if is_path(bind_addr) {
            Ok(WebServer { bind_addr: ListenAddr::UnixPath(bind_addr.to_owned()) })
        } else {
            match parse_socket_addr(bind_addr) {
                Some(addr) => Ok(WebServer { bind_addr: ListenAddr::TcpSocket(addr) }),
                None => Err(BadListenAddr {  }),
            }
        }
    }
}

// ---- laws ----

/// A server counts for the whole throughput unless the same one stands before it.
pub proof fn lemma_same_server_counts_once(
    servers: Seq<crate::proxy::ServerModel>,
    throughputs: Seq<Throughput>,
    n: nat,
)
    requires
        n < servers.len(),
        n < throughputs.len(),
    ensures
        (exists|j: int|
            0 <= j < n && (#[trigger] servers[j]).identity() == servers[n as int].identity())
            ==> total_tx(servers, throughputs, n + 1) == total_tx(servers, throughputs, n)
            && total_rx(servers, throughputs, n + 1) == total_rx(servers, throughputs, n),
        (forall|j: int|
            0 <= j < n ==> (#[trigger] servers[j]).identity() != servers[n as int].identity())
            ==> total_tx(servers, throughputs, n + 1) == total_tx(servers, throughputs, n)
            + throughputs[n as int].tx_bps && total_rx(servers, throughputs, n + 1) == total_rx(
            servers,
            throughputs,
            n,
        ) + throughputs[n as int].rx_bps,
        total_tx(servers, throughputs, 0) == 0 && total_rx(servers, throughputs, 0) == 0,
{
    crate::monitor::lemma_first_place(servers, servers[n as int].identity(), n as int);
}

/// All connections of all servers count.
pub proof fn lemma_all_connections_count(servers: Seq<ServerStatusModel>, n: nat)
    requires
        n < servers.len(),
    ensures
        total_alive(servers, n + 1) == total_alive(servers, n)
            + servers[n as int].server.status.conn_alive,
        total_alive(servers, 0) == 0,
{
}

/// Each page has its path, and every other path is one of a file.
pub proof fn lemma_paths_of_pages(path: Seq<char>, takes_html: bool)
    ensures
        path == seq!['/'] ==> page_of(true, path, takes_html) == if takes_html {
            Page::Home
        } else {
            Page::Plain
        },
        path == "/index.html"@ ==> page_of(true, path, takes_html) == page_of(
            true,
            seq!['/'],
            takes_html,
        ),
        path == "/version"@ <==> page_of(true, path, takes_html) == Page::Version,
        path == "/status"@ <==> page_of(true, path, takes_html) == Page::Status,
        path == "/metrics"@ <==> page_of(true, path, takes_html) == Page::Metrics,
        page_of(true, path, takes_html) == Page::Resource <==> path != seq!['/'] && path
            != "/index.html"@ && path != "/plain"@ && path != "/version"@ && path != "/status"@
            && path != "/metrics"@,
        path == "/plain"@ ==> page_of(true, path, takes_html) == Page::Plain,
        page_of(false, path, takes_html) == Page::NotAllowed,
{
    reveal_strlit("/");
    reveal_strlit("/index.html");
    reveal_strlit("/plain");
    reveal_strlit("/version");
    reveal_strlit("/status");
    reveal_strlit("/metrics");
    assert("/"@ =~= seq!['/']);
    assert("/"@.len() == 1 && "/index.html"@.len() == 11 && "/plain"@.len() == 6);
    assert("/version"@[1] == 'v' && "/status"@[1] == 's' && "/metrics"@[1] == 'm');
    assert("/index.html"@[1] == 'i' && "/plain"@[1] == 'p');
}

/// An answer carries what the page holds: a file where there is one, and else the
/// text; a path without a file is not found.
pub proof fn lemma_answers(contents: Contents)
    ensures
        contents.resource matches Some(file) ==> reply_of(Page::Resource, contents).body
            == file.content@ && reply_of(Page::Resource, contents).content_type == file.mime@
            && reply_of(Page::Resource, contents).code == 200,
        contents.resource is None ==> reply_of(Page::Resource, contents).code == 404,
        contents.resource is None ==> reply_of(Page::Home, contents).body
            == vstd::utf8::encode_utf8(contents.index@),
        reply_of(Page::Plain, contents).body == vstd::utf8::encode_utf8(contents.text@),
        reply_of(Page::Status, contents).body == vstd::utf8::encode_utf8(contents.text@),
        reply_of(Page::Metrics, contents).body == vstd::utf8::encode_utf8(contents.text@),
        reply_of(Page::Version, contents).body == vstd::utf8::encode_utf8(contents.version@),
        reply_of(Page::NotAllowed, contents).code == 405 && reply_of(
            Page::NotAllowed,
            contents,
        ).allow_get,
        !reply_of(Page::Plain, contents).allow_get && reply_of(Page::Plain, contents).code == 200,
        !reply_of(Page::Status, contents).allow_get && reply_of(Page::Status, contents).code == 200,
{
}

/// Each cell of a server tells what stands in the title of its column. The last
/// one is there only where there is traffic at the moment.
pub proof fn lemma_cells_of_server(s: ServerStatusModel, texts: ServerTexts)
    ensures
        ({
            let row = server_row(s, texts);
            let status = s.server.status;
            &&& row[0].0 == s.server.tag
            &&& status.score matches Some(v) ==> row[1].0 == crate::text::signed_dec(v as int)
            &&& status.score is None ==> row[1].0 == "-"@
            &&& status.delay matches Delay::Known(d) ==> row[2].0 == crate::text::dec(
                d.millis() as nat,
            ) + " ms"@
            &&& !(status.delay is Known) ==> row[2].0 == "-"@
            &&& row[3].0 == crate::text::dec(status.conn_alive as nat)
            &&& row[4].0 == crate::text::dec(status.conn_total as nat)
            &&& row[5].0 == helpers::two_digits(
                crate::proxy::score::ones(status.close_history as nat, 16),
            ) + ":"@ + helpers::two_digits(
                crate::proxy::score::ones(status.close_history as nat, 64),
            )
            &&& row[6].0 == texts.up@ && row[7].0 == texts.down@
            &&& row.len() == 9 <==> (s.throughput matches Some(tp) && (tp.tx_bps > 0 || tp.rx_bps
                > 0))
            &&& row.len() == 8 || row.len() == 9
            &&& row.len() == 9 ==> row[8].0 == texts.bps@
            &&& !row[0].1 && forall|i: int| 1 <= i < row.len() ==> (#[trigger] row[i]).1
        }),
{
}

/// The table has a row for each server, in their order, behind the titles.
pub proof fn lemma_rows_of_table(
    servers: Seq<ServerStatusModel>,
    texts: Seq<ServerTexts>,
    i: int,
)
    requires
        0 <= i < servers.len(),
        texts.len() == servers.len(),
    ensures
        table_rows(servers, texts).len() == servers.len() + 1,
        table_rows(servers, texts)[0] == title_row(),
        table_rows(servers, texts)[i + 1] == server_row(servers[i], texts[i]),
{
}

/// Each page says what kind of text it is.
pub proof fn lemma_types_of_answers(contents: Contents)
    ensures
        reply_of(Page::Plain, contents).content_type == "text/plain; charset=utf-8"@,
        reply_of(Page::Metrics, contents).content_type == reply_of(
            Page::Plain,
            contents,
        ).content_type,
        reply_of(Page::Version, contents).content_type == "text/plain"@,
        reply_of(Page::NotAllowed, contents).content_type == "text/plain"@,
        reply_of(Page::Status, contents).content_type == "application/json"@,
        contents.resource is None ==> reply_of(Page::Home, contents).content_type == "text/html"@
            && reply_of(Page::Resource, contents).content_type == "text/plain"@,
        reply_of(Page::Metrics, contents).code == 200 && reply_of(Page::Version, contents).code
            == 200 && reply_of(Page::Home, contents).code == 200,
        !reply_of(Page::Metrics, contents).allow_get && !reply_of(
            Page::Version,
            contents,
        ).allow_get && !reply_of(Page::Home, contents).allow_get,
{
}

} // verus!
