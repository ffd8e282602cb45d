use hb::error::Error;
use hb::json::results_from_json;
use hb::json::results_to_json;
use hb::run::RequestResult;
use hb::run::Response;
use hb::time::Seconds;

fn secs(s: u64, nanos: u32) -> Seconds {
    Seconds::from_parts(s, nanos)
}

#[test]
fn json_writer_emits_the_canonical_shape() {
    let results = vec![
        RequestResult::Success {
            seq_no: 0,
            end_time: secs(1, 500_000_000),
            elapsed: secs(0, 250_000_000),
            response: Response { status: 200, content_length: 2, content: None },
        },
        RequestResult::Failure {
            seq_no: 1,
            end_time: secs(2, 0),
            elapsed: secs(1, 0),
            error: Error::timeout(),
        },
    ];
    let text = results_to_json(&results);
    let expected = "[{\"result\":\"ok\",\"seq_no\":0,\"end_time\":1.500000000,\"elapsed\":0.250000000,\"response\":{\"status\":200,\"content_length\":2}},{\"result\":\"error\",\"seq_no\":1,\"end_time\":2.000000000,\"elapsed\":1.000000000,\"error\":{\"kind\":\"Timeout\"}}]";
    assert_eq!(text, expected);
}

#[test]
fn json_writer_escapes_content() {
    let results = vec![RequestResult::Success {
        seq_no: 0,
        end_time: secs(0, 0),
        elapsed: secs(0, 0),
        response: Response {
            status: 404,
            content_length: 6,
            content: Some(String::from("a\"b\\c\n")),
        },
    }];
    let text = results_to_json(&results);
    let expected = "[{\"result\":\"ok\",\"seq_no\":0,\"end_time\":0.000000000,\"elapsed\":0.000000000,\"response\":{\"status\":404,\"content_length\":6,\"content\":\"a\\\"b\\\\c\\u000a\"}}]";
    assert_eq!(text, expected);
}

#[test]
fn json_writer_output_is_valid_json() {
    let results = vec![
        RequestResult::Success {
            seq_no: 0,
            end_time: secs(3, 141_592_653),
            elapsed: secs(0, 1),
            response: Response {
                status: 500,
                content_length: 4,
                content: Some(String::from("oops")),
            },
        },
        RequestResult::Failure {
            seq_no: 1,
            end_time: secs(4, 0),
            elapsed: secs(0, 2),
            error: Error::other(String::from("boom")),
        },
    ];
    let text = results_to_json(&results);
    // An independent parser accepts the writer's output.
    let value: serde_json::Value = serde_json::from_str(&text).unwrap();
    let items = value.as_array().unwrap();
    assert_eq!(items.len(), 2);
    assert_eq!(items[0]["result"], "ok");
    assert_eq!(items[0]["seq_no"], 0);
    assert_eq!(items[0]["response"]["status"], 500);
    assert_eq!(items[0]["response"]["content"], "oops");
    assert_eq!(items[1]["result"], "error");
    assert_eq!(items[1]["error"]["kind"], "Other");
    assert_eq!(items[1]["end_time"], 4.0);
}

#[test]
fn json_writer_empty_list() {
    let results: Vec<RequestResult> = Vec::new();
    assert_eq!(results_to_json(&results), "[]");
}

#[test]
fn json_round_trip_restores_the_list() {
    // Errors serialize as their kind alone, so a round-tripped failure
    // carries an empty message; these inputs already do.
    let results = vec![
        RequestResult::Success {
            seq_no: 0,
            end_time: secs(1, 500_000_000),
            elapsed: secs(0, 250_000_000),
            response: Response {
                status: 404,
                content_length: 7,
                content: Some(String::from("no\"such\u{1}")),
            },
        },
        RequestResult::Failure {
            seq_no: 1,
            end_time: secs(2, 0),
            elapsed: secs(1, 0),
            error: Error::timeout(),
        },
        RequestResult::Success {
            seq_no: 2,
            end_time: secs(0, 1),
            elapsed: secs(0, 1),
            response: Response { status: 200, content_length: 0, content: None },
        },
    ];
    let text = results_to_json(&results);
    let parsed = results_from_json(&text).unwrap();
    assert_eq!(parsed, results);
}

#[test]
fn json_reader_rejects_other_shapes() {
    assert!(results_from_json("").is_none());
    assert!(results_from_json("{}").is_none());
    assert!(results_from_json("[").is_none());
    assert!(results_from_json("[]x").is_none());
    assert!(results_from_json("[{\"result\":\"ok\"}]").is_none());
}
