//! Metrics configuration: whether metrics are exposed, where, and whether and
//! how they are pushed to a collector.

use vstd::prelude::*;
use vstd::std_specs::cmp::PartialEqSpecImpl;
use vstd::string::StringExecFns;

verus! {

/// Protocol used when pushing metrics to a collector.
#[non_exhaustive]
#[derive(Copy, Clone, Debug, PartialEq, Eq, Structural)]
pub enum PushProtocol {
    /// HTTP protocol
    HTTP,
    /// GRPC protocol
    GRPC,
}

impl PushProtocol {
    /// The lowercase name of the protocol, as it is written in configuration
    /// files and shown to users.
    pub open spec fn name(self) -> Seq<char> {
        match self {
            PushProtocol::HTTP => "http"@,
            PushProtocol::GRPC => "grpc"@,
        }
    }

    /// Renders the protocol by its lowercase name.
    pub fn to_string(&self) -> (s: String)
        ensures
            s@ == self.name(),
    {
        match *self {
            PushProtocol::HTTP => String::from_str("http"),
            PushProtocol::GRPC => String::from_str("grpc"),
        }
    }
}

impl Default for PushProtocol {
    fn default() -> (p: Self)
        ensures
            p == PushProtocol::GRPC,
    {
        PushProtocol::GRPC
    }
}

/// Metrics configuration object.
#[derive(Debug)]
pub struct MetricsConfig {
    /// Enable or not
    enable: bool,
    /// The http port to expose
    port: u16,
    /// The http path to expose
    path: String,
    /// Enable push or not
    push: bool,
    /// Push endpoint
    push_endpoint: String,
    /// Push protocol
    push_protocol: PushProtocol,
}

/// The mathematical content of a [`MetricsConfig`].
pub struct MetricsConfigView {
    pub enable: bool,
    pub port: u16,
    pub path: Seq<char>,
    pub push: bool,
    pub push_endpoint: Seq<char>,
    pub push_protocol: PushProtocol,
}

impl View for MetricsConfig {
    type V = MetricsConfigView;

    closed spec fn view(&self) -> MetricsConfigView {
        MetricsConfigView {
            enable: self.enable,
            port: self.port,
            path: self.path@,
            push: self.push,
            push_endpoint: self.push_endpoint@,
            push_protocol: self.push_protocol,
        }
    }
}

/// The configuration that applies when nothing is configured: metrics
/// enabled on port 9100 under `/metrics`, push disabled, a local collector
/// as push endpoint and GRPC as push protocol.
pub open spec fn default_metrics_view() -> MetricsConfigView {
    MetricsConfigView {
        enable: true,
        port: 9100,
        path: "/metrics"@,
        push: false,
        push_endpoint: "http://127.0.0.1:4318"@,
        push_protocol: PushProtocol::GRPC,
    }
}

impl MetricsConfig {
    /// Create a new `MetricsConfig`
    #[must_use]
    #[inline]
    pub fn new(
        enable: bool,
        port: u16,
        path: String,
        push: bool,
        push_endpoint: String,
        push_protocol: PushProtocol,
    ) -> (config: Self)
        ensures
            config@ == (MetricsConfigView {
                enable,
                port,
                path: path@,
                push,
                push_endpoint: push_endpoint@,
                push_protocol,
            }),
    {
        Self { enable, port, path, push, push_endpoint, push_protocol }
    }

    /// Enable or not
    #[inline(always)]
    pub fn enable(&self) -> (r: &bool)
        ensures
            *r == self@.enable,
    {
        &self.enable
    }

    /// The http port to expose
    #[inline(always)]
    pub fn port(&self) -> (r: &u16)
        ensures
            *r == self@.port,
    {
        &self.port
    }

    /// The http path to expose
    #[inline(always)]
    pub fn path(&self) -> (r: &String)
        ensures
            r@ == self@.path,
    {
        &self.path
    }

    /// Enable push or not
    #[inline(always)]
    pub fn push(&self) -> (r: &bool)
        ensures
            *r == self@.push,
    {
        &self.push
    }

    /// Push endpoint
    #[inline(always)]
    pub fn push_endpoint(&self) -> (r: &String)
        ensures
            r@ == self@.push_endpoint,
    {
        &self.push_endpoint
    }

    /// Push protocol
    #[inline(always)]
    pub fn push_protocol(&self) -> (r: &PushProtocol)
        ensures
            *r == self@.push_protocol,
    {
        &self.push_protocol
    }
}

impl Clone for MetricsConfig {
    fn clone(&self) -> (copy: Self)
        ensures
            copy@ == self@,
    {
        Self {
            enable: self.enable,
            port: self.port,
            path: self.path.clone(),
            push: self.push,
            push_endpoint: self.push_endpoint.clone(),
            push_protocol: self.push_protocol,
        }
    }
}

impl PartialEq for MetricsConfig {
    fn eq(&self, other: &Self) -> (equal: bool) {
        self.enable == other.enable && self.port == other.port && self.path == other.path
            && self.push == other.push && self.push_endpoint == other.push_endpoint
            && self.push_protocol == other.push_protocol
    }
}

impl PartialEqSpecImpl for MetricsConfig {
    open spec fn obeys_eq_spec() -> bool {
        true
    }

    open spec fn eq_spec(&self, other: &Self) -> bool {
        self@ == other@
    }
}

impl Eq for MetricsConfig {

}

impl Default for MetricsConfig {
    #[inline]
    fn default() -> (config: Self)
        ensures
            config@ == default_metrics_view(),
    {
        Self {
            enable: default_metrics_enable(),
            port: default_metrics_port(),
            path: default_metrics_path(),
            push: default_metrics_push(),
            push_endpoint: default_metrics_push_endpoint(),
            push_protocol: default_metrics_push_protocol(),
        }
    }
}

/// Default metrics enable
#[must_use]
#[inline]
pub fn default_metrics_enable() -> (enable: bool)
    ensures
        enable == default_metrics_view().enable,
        enable,
{
    true
}

/// Default metrics port
#[must_use]
#[inline]
pub fn default_metrics_port() -> (port: u16)
    ensures
        port == default_metrics_view().port,
        port == 9100,
{
    9100
}

/// Default metrics path
#[must_use]
#[inline]
pub fn default_metrics_path() -> (path: String)
    ensures
        path@ == default_metrics_view().path,
        path@ == "/metrics"@,
{
    "/metrics".to_owned()
}

/// Default metrics push option
#[must_use]
#[inline]
pub fn default_metrics_push() -> (push: bool)
    ensures
        push == default_metrics_view().push,
        !push,
{
    false
}

/// Default metrics push protocol
#[must_use]
#[inline]
pub fn default_metrics_push_protocol() -> (protocol: PushProtocol)
    ensures
        protocol == default_metrics_view().push_protocol,
        protocol == PushProtocol::GRPC,
{
    PushProtocol::GRPC
}

/// Default metrics push endpoint
#[must_use]
#[inline]
pub fn default_metrics_push_endpoint() -> (endpoint: String)
    ensures
        endpoint@ == default_metrics_view().push_endpoint,
        endpoint@ == "http://127.0.0.1:4318"@,
{
    "http://127.0.0.1:4318".to_owned()
}

} // verus!
