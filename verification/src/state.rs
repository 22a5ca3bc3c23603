//! The observable state of the proxy and the steps that change it: a start
//! that is checked and then registered, a stop, an error noted, a request
//! counted.

use crate::http::ProxyError;
use crate::routes::{
    build_routes, enabled_count, input_views, lemma_table_ranked, route_views, table_of,
    ProxyRoute, ProxyRouteInput, RouteInputView, RouteView, TargetError,
};
use crate::text::{chars_of, concat_chars, decimal, decimal_chars, string_of, trim, trim_chars};
use vstd::prelude::*;

verus! {

/// What a caller asks for when it starts the proxy.
#[derive(Clone, Debug)]
pub struct ProxyStartRequest {
    pub listen_host: String,
    pub listen_port: u16,
    pub routes: Vec<ProxyRouteInput>,
}

/// The state of the proxy as callers see it.
#[derive(Clone, Debug)]
pub struct ProxyStatus {
    pub running: bool,
    pub listen_host: Option<String>,
    pub listen_port: Option<u16>,
    pub route_count: usize,
    pub total_requests: u64,
    pub started_at: Option<u64>,
    pub last_error: Option<String>,
    pub message: String,
}

/// The part of the state that changes only when the proxy starts, stops or
/// notes an error.
#[derive(Clone, Debug)]
pub struct ProxySnapshot {
    pub running: bool,
    pub listen_host: Option<String>,
    pub listen_port: Option<u16>,
    pub route_count: usize,
    pub started_at: Option<u64>,
    pub last_error: Option<String>,
    pub message: String,
}

/// The text an optional string holds.
pub open spec fn opt_view(o: Option<String>) -> Option<Seq<char>> {
    match o {
        Some(s) => Some(s@),
        None => None,
    }
}

/// The mathematical content of the proxy's state.
pub struct StateView {
    pub running: bool,
    pub listen_host: Option<Seq<char>>,
    pub listen_port: Option<u16>,
    pub route_count: nat,
    pub total_requests: nat,
    pub started_at: Option<u64>,
    pub last_error: Option<Seq<char>>,
    pub message: Seq<char>,
}

impl View for ProxyStatus {
    type V = StateView;

    open spec fn view(&self) -> StateView {
        StateView {
            running: self.running,
            listen_host: opt_view(self.listen_host),
            listen_port: self.listen_port,
            route_count: self.route_count as nat,
            total_requests: self.total_requests as nat,
            started_at: self.started_at,
            last_error: opt_view(self.last_error),
            message: self.message@,
        }
    }
}

/// The state of the proxy. It runs exactly while a runtime is registered.
#[derive(Clone, Debug)]
pub struct ProxyState {
    pub snapshot: ProxySnapshot,
    pub total_requests: u64,
}

impl View for ProxyState {
    type V = StateView;

    open spec fn view(&self) -> StateView {
        StateView {
            running: self.snapshot.running,
            listen_host: opt_view(self.snapshot.listen_host),
            listen_port: self.snapshot.listen_port,
            route_count: self.snapshot.route_count as nat,
            total_requests: self.total_requests as nat,
            started_at: self.snapshot.started_at,
            last_error: opt_view(self.snapshot.last_error),
            message: self.snapshot.message@,
        }
    }
}

/// Why a start was refused.
#[derive(Clone, Copy, Debug, PartialEq, Eq, Structural)]
pub enum StartError {
    /// The listen address is empty.
    EmptyListenHost,
    /// The listen port is zero.
    ZeroListenPort,
    /// An enabled route names a target that cannot be read.
    Target(TargetError),
    /// No route is enabled.
    NoRoutes,
    /// The proxy runs already.
    AlreadyRunning,
}

impl StartError {
    /// The kind of error this refusal is.
    pub open spec fn kind_of(self) -> ProxyError {
        match self {
            StartError::EmptyListenHost => ProxyError::InvalidListen,
            StartError::ZeroListenPort => ProxyError::InvalidListen,
            StartError::Target(_) => ProxyError::BadTarget,
            StartError::NoRoutes => ProxyError::NoRoutes,
            StartError::AlreadyRunning => ProxyError::AlreadyRunning,
        }
    }

    pub fn kind(self) -> (r: ProxyError)
        ensures
            r == self.kind_of(),
    {
        match self {
            StartError::EmptyListenHost => ProxyError::InvalidListen,
            StartError::ZeroListenPort => ProxyError::InvalidListen,
            StartError::Target(_) => ProxyError::BadTarget,
            StartError::NoRoutes => ProxyError::NoRoutes,
            StartError::AlreadyRunning => ProxyError::AlreadyRunning,
        }
    }

    /// The diagnostic shown for this refusal.
    pub open spec fn text(self) -> Seq<char> {
        match self {
            StartError::EmptyListenHost => "监听地址不能为空"@,
            StartError::ZeroListenPort => "监听端口非法"@,
            StartError::Target(e) => e.text(),
            StartError::NoRoutes => "至少需要一条启用的路由规则"@,
            StartError::AlreadyRunning => "代理服务已经在运行，请先停止再启动"@,
        }
    }

    pub fn message(self) -> (r: String)
        ensures
            r@ == self.text(),
    {
        match self {
            StartError::EmptyListenHost => "监听地址不能为空".to_owned(),
            StartError::ZeroListenPort => "监听端口非法".to_owned(),
            StartError::Target(e) => e.message(),
            StartError::NoRoutes => "至少需要一条启用的路由规则".to_owned(),
            StartError::AlreadyRunning => "代理服务已经在运行，请先停止再启动".to_owned(),
        }
    }
}

/// What a start that passed its checks is made of.
#[derive(Clone, Debug)]
pub struct StartPlan {
    /// The listen address, without white space around it.
    pub listen_host: String,
    pub listen_port: u16,
    /// The route table.
    pub routes: Vec<ProxyRoute>,
}

/// The message of a proxy that runs with `n` routes.
pub open spec fn running_message(n: nat) -> Seq<char> {
    "代理服务运行中，共 "@ + decimal(n) + " 条路由"@
}

/// The state of a proxy that has never run.
pub open spec fn initial_state() -> StateView {
    StateView {
        running: false,
        listen_host: None,
        listen_port: None,
        route_count: 0,
        total_requests: 0,
        started_at: None,
        last_error: None,
        message: "代理服务未启动"@,
    }
}

/// The state after a start is registered, or `None` where the proxy runs
/// already: a registered start makes the proxy run on the address given,
/// with the routes counted, the request count at zero and no error noted.
pub open spec fn registered(s: StateView, host: Seq<char>, port: u16, routes: nat, now: u64) -> Option<
    StateView,
> {
    if s.running {
        None
    } else {
        Some(
            StateView {
                running: true,
                listen_host: Some(host),
                listen_port: Some(port),
                route_count: routes,
                total_requests: 0,
                started_at: Some(now),
                last_error: None,
                message: running_message(routes),
            },
        )
    }
}

/// The state after a stop: the proxy does not run and listens nowhere; the
/// request count and the last error stay.
pub open spec fn stopped(s: StateView) -> StateView {
    StateView {
        running: false,
        listen_host: None,
        listen_port: None,
        route_count: 0,
        started_at: None,
        message: "代理服务已停止"@,
        ..s
    }
}

/// The state after one more request is counted. The count starts over at
/// zero behind the largest number it can hold.
pub open spec fn counted(s: StateView) -> StateView {
    StateView {
        total_requests: if s.total_requests < u64::MAX {
            s.total_requests + 1
        } else {
            0
        },
        ..s
    }
}

/// Notes an error in a snapshot: the latest error replaces the one before.
pub fn set_runtime_error(snapshot: &mut ProxySnapshot, message: String)
    ensures
        final(snapshot).last_error == Some(message),
        final(snapshot).running == old(snapshot).running,
        final(snapshot).listen_host == old(snapshot).listen_host,
        final(snapshot).listen_port == old(snapshot).listen_port,
        final(snapshot).route_count == old(snapshot).route_count,
        final(snapshot).started_at == old(snapshot).started_at,
        final(snapshot).message == old(snapshot).message,
{
    snapshot.last_error = Some(message);
}

/// The checks a start passes before anything is bound: a listen address
/// that is not empty, a listen port that is not zero, routes that can be
/// read, and at least one of them enabled.
pub open spec fn start_checked(host: Seq<char>, port: u16, routes: Seq<RouteInputView>) -> Result<
    (Seq<char>, Seq<RouteView>),
    StartError,
> {
    if trim(host).len() == 0 {
        Err(StartError::EmptyListenHost)
    } else if port == 0 {
        Err(StartError::ZeroListenPort)
    } else {
        match table_of(routes) {
            Err(e) => Err(StartError::Target(e)),
            Ok(table) => if table.len() == 0 {
                Err(StartError::NoRoutes)
            } else {
                Ok((trim(host), table))
            },
        }
    }
}

/// Checks a request to start the proxy, and builds its route table.
pub fn prepare_start(config: &ProxyStartRequest) -> (r: Result<StartPlan, String>)
    ensures
        match start_checked(config.listen_host@, config.listen_port, input_views(config.routes@)) {
            Ok((host, table)) => r matches Ok(plan) && plan.listen_host@ == host
                && plan.listen_port == config.listen_port && route_views(plan.routes@) == table
                && plan.routes@.len() == enabled_count(input_views(config.routes@))
                && plan.routes@.len() > 0,
            Err(e) => r matches Err(m) && m@ == e.text(),
        },
{
    let host = chars_of(config.listen_host.as_str());
    let trimmed = trim_chars(&host);
    if trimmed.len() == 0 {
        return Err(StartError::EmptyListenHost.message());
    }
    if config.listen_port == 0 {
        return Err(StartError::ZeroListenPort.message());
    }
    let routes = match build_routes(config.routes.as_slice()) {
        Err(m) => {
            return Err(m);
        },
        Ok(r) => r,
    };
    if routes.len() == 0 {
        return Err(StartError::NoRoutes.message());
    }
    proof {
        lemma_table_ranked(input_views(config.routes@));
    }
    Ok(StartPlan { listen_host: string_of(&trimmed), listen_port: config.listen_port, routes })
}

impl ProxyState {
    /// The state of a proxy that has never run.
    pub fn new() -> (r: Self)
        ensures
            r@ == initial_state(),
    {
        ProxyState {
            snapshot: ProxySnapshot {
                running: false,
                listen_host: None,
                listen_port: None,
                route_count: 0,
                started_at: None,
                last_error: None,
                message: "代理服务未启动".to_owned(),
            },
            total_requests: 0,
        }
    }

    /// The state as callers see it.
    pub fn status(&self) -> (r: ProxyStatus)
        ensures
            r@ == self@,
    {
        ProxyStatus {
            running: self.snapshot.running,
            listen_host: self.snapshot.listen_host.clone(),
            listen_port: self.snapshot.listen_port,
            route_count: self.snapshot.route_count,
            total_requests: self.total_requests,
            started_at: self.snapshot.started_at,
            last_error: self.snapshot.last_error.clone(),
            message: self.snapshot.message.clone(),
        }
    }

    /// Whether a start may go on: it may not while the proxy runs.
    pub fn check_idle(&self) -> (r: Result<(), String>)
        ensures
            match r {
                Ok(()) => !self@.running,
                Err(m) => self@.running && m@ == StartError::AlreadyRunning.text(),
            },
    {
        if self.snapshot.running {
            Err(StartError::AlreadyRunning.message())
        } else {
            Ok(())
        }
    }

    /// Registers a start that has bound its listener at the time `now`.
    /// Refused, with the state untouched, where the proxy runs already: of
    /// two starts that race, the second to register loses.
    pub fn register_start(&mut self, listen_host: &str, listen_port: u16, routes: usize, now: u64) -> (r:
        Result<ProxyStatus, String>)
        ensures
            match registered(old(self)@, listen_host@, listen_port, routes as nat, now) {
                Some(s) => r matches Ok(status) && final(self)@ == s && status@ == s,
                None => r matches Err(m) && m@ == StartError::AlreadyRunning.text() && final(self)@ == old(self)@,
            },
    {
        if self.snapshot.running {
            return Err(StartError::AlreadyRunning.message());
        }
        let head = chars_of("代理服务运行中，共 ");
        let count = decimal_chars(routes as u64);
        let tail = chars_of(" 条路由");
        let a = concat_chars(&head, &count);
        let message = concat_chars(&a, &tail);
        self.total_requests = 0;
        self.snapshot.running = true;
        self.snapshot.listen_host = Some(listen_host.to_owned());
        self.snapshot.listen_port = Some(listen_port);
        self.snapshot.route_count = routes;
        self.snapshot.started_at = Some(now);
        self.snapshot.last_error = None;
        self.snapshot.message = string_of(&message);
        Ok(self.status())
    }

    /// Registers a stop.
    pub fn register_stop(&mut self) -> (r: ProxyStatus)
        ensures
            final(self)@ == stopped(old(self)@),
            r@ == final(self)@,
    {
        self.snapshot.running = false;
        self.snapshot.listen_host = None;
        self.snapshot.listen_port = None;
        self.snapshot.started_at = None;
        self.snapshot.route_count = 0;
        self.snapshot.message = "代理服务已停止".to_owned();
        self.status()
    }

    /// Counts one request that was forwarded.
    pub fn record_forwarded(&mut self)
        ensures
            final(self)@ == counted(old(self)@),
    {
        self.total_requests = if self.total_requests < u64::MAX {
            self.total_requests + 1
        } else {
            0
        };
    }

    /// Notes an error: the latest error replaces the one before.
    pub fn note_error(&mut self, message: String)
        ensures
            final(self)@ == (StateView { last_error: Some(message@), ..old(self)@ }),
    {
        set_runtime_error(&mut self.snapshot, message);
    }
}

/// After a start is registered the proxy runs with the routes counted; a
/// second start is then refused and changes nothing; after a stop the
/// proxy does not run.
pub proof fn lemma_start_stop(
    s: StateView,
    host: Seq<char>,
    port: u16,
    routes: nat,
    now: u64,
    host2: Seq<char>,
    port2: u16,
    routes2: nat,
    now2: u64,
)
    requires
        !s.running,
    ensures
        registered(s, host, port, routes, now) is Some,
        registered(s, host, port, routes, now)->0.running,
        registered(s, host, port, routes, now)->0.route_count == routes,
        registered(registered(s, host, port, routes, now)->0, host2, port2, routes2, now2) is None,
        !stopped(registered(s, host, port, routes, now)->0).running,
{
}

/// Each request counted raises the count by exactly one, as long as the
/// count can hold it.
pub proof fn lemma_count_grows_by_one(s: StateView)
    requires
        s.total_requests < u64::MAX,
    ensures
        counted(s).total_requests == s.total_requests + 1,
{
}

} // verus!
