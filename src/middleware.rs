use vstd::prelude::*;

use crate::metrics::{record_http_request_metrics, MetricsState};

verus! {

#[verifier::external_type_specification]
#[verifier::external_body]
pub struct ExWebResponse(ntex::web::WebResponse);

#[verifier::external_type_specification]
#[verifier::external_body]
pub struct ExWebError(ntex::web::Error);

/// Relies on ntex's `WebResponse::status` and http's `StatusCode::as_u16`:
/// the response's status code, which `StatusCode` keeps within 100..=999.
#[verifier::external_body]
fn response_status(res: &ntex::web::WebResponse) -> (r: u16)
    ensures
        100 <= r <= 999,
{
    res.status().as_u16()
}

/// The middleware factory: wraps an inner service so that every request it
/// handles is counted by outcome.
pub struct HttpMetrics;

impl HttpMetrics {
    /// Binds the middleware to `service`; done once, when the application is
    /// built.
    pub fn create<S>(&self, service: S) -> (r: HttpMetricsMiddleware<S>)
        ensures
            r.inner() == service,
    {
        HttpMetricsMiddleware { service }
    }
}

/// An inner service wrapped by the metrics middleware. It keeps no
/// per-request state, so one instance serves any number of requests.
pub struct HttpMetricsMiddleware<S> {
    service: S,
}

impl<S> HttpMetricsMiddleware<S> {
    /// The wrapped service.
    pub closed spec fn inner(&self) -> S {
        self.service
    }

    /// The wrapped service, to which each request is handed exactly once.
    pub fn service(&self) -> (r: &S)
        ensures
            *r == self.inner(),
    {
        &self.service
    }

    /// The step after the inner service has completed with `result`, where
    /// `status` is the status of the response when it succeeded.
    ///
    /// A success is recorded under `status` in `state`, when the state is
    /// present; a failure is not recorded. Either way `result` is handed back
    /// as it came.
    pub fn record_outcome<R, E>(
        &self,
        state: Option<&mut MetricsState>,
        result: Result<R, E>,
        status: u16,
    ) -> (r: Result<R, E>)
        requires
            state matches Some(s) ==> s.wf(),
        ensures
            r == result,
            state matches Some(s) ==> if result is Ok {
                final(s).records(s, status)
            } else {
                *final(s) == *s
            },
    {
        match state {
            Some(s) => {
                if result.is_ok() {
                    record_http_request_metrics(status, s);
                }
            },
            None => {},
        }
        result
    }

    /// The step after the inner service has completed with `result`: a
    /// successful response is recorded under its own status code, when the
    /// state is present; a failure is not recorded. `result` is handed back as
    /// it came.
    pub fn complete(
        &self,
        state: Option<&mut MetricsState>,
        result: Result<ntex::web::WebResponse, ntex::web::Error>,
    ) -> (r: Result<ntex::web::WebResponse, ntex::web::Error>)
        requires
            state matches Some(s) ==> s.wf(),
        ensures
            r == result,
            state matches Some(s) ==> if result is Ok {
                exists|status: u16| 100 <= status <= 999 && final(s).records(s, status)
            } else {
                *final(s) == *s
            },
    {
        match result {
            Ok(res) => {
                let status = response_status(&res);
                self.record_outcome(state, Ok(res), status)
            },
            Err(e) => Err(e),
        }
    }
}

} // verus!
