use block_analysis::routes::{
    file_missing, query_failed, requested_interval, serve_embedded, ContentionQuery, FileReply,
    OhlcvQuery, INDEX_FILE,
};

fn ohlcv(interval: &str) -> OhlcvQuery {
    OhlcvQuery { mint: "TOKENMINT".to_string(), interval: interval.to_string() }
}

#[test]
fn only_known_intervals_are_served() {
    assert_eq!(requested_interval(&ohlcv("1m")).unwrap(), 60);
    assert_eq!(requested_interval(&ohlcv("5m")).unwrap(), 300);
    for name in ["2h", "", "1M", "1m "] {
        let refusal = requested_interval(&ohlcv(name)).unwrap_err();
        assert_eq!(refusal.status, 400);
        assert_eq!(refusal.text, "interval must be 1m or 5m");
    }
}

#[test]
fn a_failed_query_is_an_internal_error() {
    let reply = query_failed("duckdb error: locked".to_string());
    assert_eq!((reply.status, reply.text.as_str()), (500, "duckdb error: locked"));
    let query = ContentionQuery { from: 10, to: 10 };
    assert_eq!((query.from, query.to), (10, 10));
}

#[test]
fn embedded_files_are_served_by_their_type() {
    let cases = [
        (INDEX_FILE, "text/html"),
        ("css/app.css", "text/css"),
        ("logo.png", "image/png"),
        ("LICENSE", "application/octet-stream"),
        ("x.unknown-extension", "application/octet-stream"),
    ];
    for (path, expected) in cases {
        match serve_embedded(path, Some(vec![1, 2, 3])) {
            FileReply::Found { content_type, data } => {
                assert_eq!(content_type, expected);
                assert_eq!(data, vec![1, 2, 3]);
            }
            FileReply::Missing(_) => panic!("the file is there"),
        }
    }
}

#[test]
fn a_missing_file_is_not_found() {
    match serve_embedded("nothing.html", None) {
        FileReply::Missing(reply) => {
            assert_eq!((reply.status, reply.text.as_str()), (404, "not found"))
        }
        FileReply::Found { .. } => panic!("there is no file"),
    }
    assert_eq!(file_missing().status, 404);
}
