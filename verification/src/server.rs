//! What the server's listeners serve besides DNS itself.

use crate::metrics::Metrics;
use vstd::prelude::*;

verus! {

/// The address the server binds to when none is provided.
pub const DEFAULT_ADDR: &'static str = "127.0.0.1:8888";

/// How often the server logs a metrics summary, in seconds.
pub const METRICS_INTERVAL_SECS: u64 = 60;

/// How often idle per-client rate-limiter state is reclaimed, in seconds.
pub const LIMITER_CLEANUP_INTERVAL_SECS: u64 = 60;

/// Grace period for in-flight queries to finish after a shutdown signal,
/// before forcefully exiting, in seconds.
pub const SHUTDOWN_GRACE_SECS: u64 = 5;

/// A page of the metrics listener.
#[derive(Debug)]
pub struct Page {
    pub status: u16,
    pub body: String,
    pub content_type: &'static str,
}

/// Serves Prometheus metrics at `/metrics`, and a liveness probe at `/healthz`
/// (200 when healthy, 503 when shutting down).
pub fn metrics_page(path: &str, metrics: &Metrics, shutting_down: bool) -> (r: Page)
    ensures
        if path@ == "/metrics"@ {
            r.status == 200 && r.body@ == metrics.prometheus_spec() && r.content_type@
                == "text/plain; version=0.0.4"@
        } else if path@ == "/healthz"@ {
            &&& r.content_type@ == "text/plain"@
            &&& shutting_down ==> r.status == 503 && r.body@ == "shutting down\n"@
            &&& !shutting_down ==> r.status == 200 && r.body@ == "ok\n"@
        } else {
            r.status == 404 && r.body@.len() == 0 && r.content_type@ == "text/plain"@
        },
{
    if crate::text::text_eq(path, "/metrics") {
        Page { status: 200, body: metrics.prometheus(), content_type: "text/plain; version=0.0.4" }
    } else if crate::text::text_eq(path, "/healthz") {
        if shutting_down {
            Page { status: 503, body: "shutting down\n".to_owned(), content_type: "text/plain" }
        } else {
            Page { status: 200, body: "ok\n".to_owned(), content_type: "text/plain" }
        }
    } else {
        Page { status: 404, body: String::new(), content_type: "text/plain" }
    }
}

} // verus!
