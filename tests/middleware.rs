use http_metrics::metrics::MetricsState;
use http_metrics::middleware::HttpMetrics;
use ntex::http::StatusCode;
use ntex::web::error::ErrorBadRequest;
use ntex::web::test::TestRequest;
use ntex::web::{DefaultError, HttpResponse};

#[test]
fn create_binds_the_service() {
    let mw = HttpMetrics.create(String::from("inner"));
    assert_eq!(mw.service(), "inner");
}

#[test]
fn three_ok_requests_count_three() {
    let mut state = MetricsState::new();
    let mw = HttpMetrics.create(());
    for _ in 0..3 {
        let r = mw.record_outcome(Some(&mut state), Ok::<&str, String>("Hello world!"), 200);
        assert_eq!(r, Ok("Hello world!"));
    }
    assert_eq!(state.counter(200), 3);
    assert_eq!(state.http_request_counter(), 3);
}

#[test]
fn failure_is_returned_and_not_counted() {
    let mut state = MetricsState::new();
    let mw = HttpMetrics.create(());
    let r = mw.record_outcome(Some(&mut state), Err::<&str, String>(String::from("boom")), 500);
    assert_eq!(r, Err(String::from("boom")));
    assert_eq!(state.http_request_counter(), 0);
    assert!(state.snapshot().is_empty());
}

#[test]
fn absent_state_still_returns_result() {
    let mw = HttpMetrics.create(());
    let r = mw.record_outcome(None, Ok::<&str, String>("Hey there!"), 200);
    assert_eq!(r, Ok("Hey there!"));
    let e = mw.record_outcome(None, Err::<&str, String>(String::from("boom")), 200);
    assert_eq!(e, Err(String::from("boom")));
}

#[test]
fn complete_counts_response_status() {
    let mut state = MetricsState::new();
    let mw = HttpMetrics.create(());
    let res = TestRequest::default().to_srv_response(HttpResponse::NotFound().finish());
    let r = mw.complete(Some(&mut state), Ok(res)).unwrap();
    assert_eq!(r.status(), StatusCode::NOT_FOUND);
    assert_eq!(state.counter(404), 1);
    assert_eq!(state.counter(200), 0);

    let res = TestRequest::default().to_srv_response(HttpResponse::Ok().body("Hello world!"));
    let r = mw.complete(Some(&mut state), Ok(res)).unwrap();
    assert_eq!(r.status(), StatusCode::OK);
    assert_eq!(state.counter(200), 1);
    assert_eq!(state.http_request_counter(), 2);
}

#[test]
fn complete_passes_failure_through() {
    let mut state = MetricsState::new();
    let mw = HttpMetrics.create(());
    let err = ntex::web::Error::new(ErrorBadRequest::<&str, DefaultError>("boom"));
    let r = mw.complete(Some(&mut state), Err(err));
    let e = r.err().unwrap();
    assert_eq!(e.to_string(), "boom");
    assert_eq!(state.http_request_counter(), 0);
}

#[test]
fn complete_without_state() {
    let mw = HttpMetrics.create(());
    let res = TestRequest::default().to_srv_response(HttpResponse::Created().finish());
    let r = mw.complete(None, Ok(res)).unwrap();
    assert_eq!(r.status(), StatusCode::CREATED);
}
