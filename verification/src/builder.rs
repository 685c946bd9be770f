//! Client configuration: limits, id policy and the middleware stack are
//! assembled at construction time; the builder then yields the
//! per-connection core. Connecting the actual transport duplex is the
//! surrounding runtime's work: it obtains the duplex, builds the core
//! from this configuration, and wraps it with the configured stack.

use vstd::prelude::*;

use crate::client::{ClientCore, CoreConfig, IdKind};
use crate::service::RpcLoggerLayer;

verus! {

/// Builder for a client over a browser-side (or any in-process) duplex
/// transport.
#[derive(Debug, PartialEq, Eq)]
pub struct WasmClientBuilder<L> {
    /// The request-id encoding.
    pub id_kind: IdKind,
    /// The admission cap.
    pub max_concurrent_requests: usize,
    /// The per-subscription queue bound.
    pub max_buffer_capacity_per_subscription: usize,
    /// The per-call deadline, in milliseconds.
    pub request_timeout_ms: u64,
    /// The middleware stack wrapped around the core.
    pub service_builder: L,
}

impl Default for WasmClientBuilder<RpcLoggerLayer> {
    /// The default configuration: numeric ids, 256 concurrent requests,
    /// 1024 buffered notifications per subscription, a 60-second timeout,
    /// and one logging layer.
    fn default() -> (r: WasmClientBuilder<RpcLoggerLayer>)
        ensures
            r.id_kind == IdKind::Number,
            r.max_concurrent_requests == 256,
            r.max_buffer_capacity_per_subscription == 1024,
            r.request_timeout_ms == 60_000,
            r.service_builder == (RpcLoggerLayer { max_log_len: 1024 }),
    {
        WasmClientBuilder {
            id_kind: IdKind::Number,
            max_concurrent_requests: 256,
            max_buffer_capacity_per_subscription: 1024,
            request_timeout_ms: 60_000,
            service_builder: RpcLoggerLayer { max_log_len: 1024 },
        }
    }
}

impl WasmClientBuilder<RpcLoggerLayer> {
    /// A new builder with the default configuration.
    pub fn new() -> (r: WasmClientBuilder<RpcLoggerLayer>)
        ensures
            r.id_kind == IdKind::Number,
            r.max_concurrent_requests == 256,
            r.max_buffer_capacity_per_subscription == 1024,
            r.request_timeout_ms == 60_000,
            r.service_builder == (RpcLoggerLayer { max_log_len: 1024 }),
    {
        WasmClientBuilder::default()
    }
}

impl<L> WasmClientBuilder<L> {
    /// Sets the per-call deadline (default: 60 seconds).
    pub fn request_timeout(self, timeout_ms: u64) -> (r: WasmClientBuilder<L>)
        ensures
            r == (WasmClientBuilder { request_timeout_ms: timeout_ms, ..self }),
    {
        WasmClientBuilder { request_timeout_ms: timeout_ms, ..self }
    }

    /// Sets the admission cap (default: 256).
    pub fn max_concurrent_requests(self, max: usize) -> (r: WasmClientBuilder<L>)
        ensures
            r == (WasmClientBuilder { max_concurrent_requests: max, ..self }),
    {
        WasmClientBuilder { max_concurrent_requests: max, ..self }
    }

    /// Sets the per-subscription queue bound (default: 1024).
    pub fn max_buffer_capacity_per_subscription(self, max: usize) -> (r: WasmClientBuilder<L>)
        ensures
            r == (WasmClientBuilder { max_buffer_capacity_per_subscription: max, ..self }),
    {
        WasmClientBuilder { max_buffer_capacity_per_subscription: max, ..self }
    }

    /// Sets the request-id encoding (default: numbers).
    pub fn id_format(self, kind: IdKind) -> (r: WasmClientBuilder<L>)
        ensures
            r == (WasmClientBuilder { id_kind: kind, ..self }),
    {
        WasmClientBuilder { id_kind: kind, ..self }
    }

    /// Replaces the middleware stack.
    pub fn set_rpc_middleware<T>(self, middleware: T) -> (r: WasmClientBuilder<T>)
        ensures
            r.id_kind == self.id_kind,
            r.max_concurrent_requests == self.max_concurrent_requests,
            r.max_buffer_capacity_per_subscription == self.max_buffer_capacity_per_subscription,
            r.request_timeout_ms == self.request_timeout_ms,
            r.service_builder == middleware,
    {
        WasmClientBuilder {
            id_kind: self.id_kind,
            max_concurrent_requests: self.max_concurrent_requests,
            max_buffer_capacity_per_subscription: self.max_buffer_capacity_per_subscription,
            request_timeout_ms: self.request_timeout_ms,
            service_builder: middleware,
        }
    }

    /// The core configuration this builder stands for.
    pub fn core_config(&self) -> (c: CoreConfig)
        ensures
            c.id_kind == self.id_kind,
            c.max_concurrent_requests == self.max_concurrent_requests,
            c.max_buffer_capacity_per_subscription == self.max_buffer_capacity_per_subscription,
            c.request_timeout_ms == self.request_timeout_ms,
    {
        CoreConfig {
            id_kind: self.id_kind,
            max_concurrent_requests: self.max_concurrent_requests,
            max_buffer_capacity_per_subscription: self.max_buffer_capacity_per_subscription,
            request_timeout_ms: self.request_timeout_ms,
        }
    }

    /// Builds the per-connection core for an already-connected transport
    /// duplex; the runtime wraps it with the configured middleware stack
    /// and runs the dispatcher against the duplex.
    pub fn build_core(&self) -> (c: ClientCore)
        requires
            self.max_buffer_capacity_per_subscription >= 1,
        ensures
            c@.config.id_kind == self.id_kind,
            c@.config.max_concurrent_requests == self.max_concurrent_requests,
            c@.config.max_buffer_capacity_per_subscription
                == self.max_buffer_capacity_per_subscription,
            c@.config.request_timeout_ms == self.request_timeout_ms,
            c@.next_key == 0,
            c@.pending.len() == 0,
            c@.subs.len() == 0,
            crate::client::wf_core(c@),
    {
        ClientCore::new(self.core_config())
    }
}

} // verus!
