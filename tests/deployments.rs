use deploy_config::deployments::{
    classify, classify_record, decode_record, evaluate, evaluate_deployments, Deployment, Outcome,
    Rejection, Tally,
};

fn record(id: &str, status: &str) -> String {
    let mut m = serde_json::Map::new();
    m.insert("deployment_id".to_string(), serde_json::Value::String(id.to_string()));
    m.insert("status".to_string(), serde_json::Value::String(status.to_string()));
    serde_json::Value::Object(m).to_string()
}

fn status_only(status: &str) -> String {
    let mut m = serde_json::Map::new();
    m.insert("status".to_string(), serde_json::Value::String(status.to_string()));
    serde_json::Value::Object(m).to_string()
}

#[test]
fn ques1_evaluate_deployments_cfg() {
    let input = [
        record("d-12345678ab", "Success"),
        record("d-09876543cd", "Fail"),
        record("c-09876543cd", "Fail"),
        record("d-09876543cd1", "Fail"),
        record("d-09876543c#", "Fail"),
        record("d-09876543Cd", "Fail"),
        status_only("Fail"),
    ];

    let result = evaluate_deployments(&input);
    assert_eq!(result, [1, 1, 5].to_vec())
}

#[test]
fn each_rule_gives_its_rejection() {
    assert_eq!(classify("d-12345678ab", "Success"), Outcome::Success);
    assert_eq!(classify("d-09876543cd", "Fail"), Outcome::Fail);
    assert_eq!(classify("c-09876543cd", "Fail"), Outcome::Error(Rejection::InvalidPrefix));
    assert_eq!(classify("d-09876543cd1", "Fail"), Outcome::Error(Rejection::SuffixLength));
    assert_eq!(
        classify("d-09876543c#", "Fail"),
        Outcome::Error(Rejection::SuffixSpecialCharacters)
    );
    assert_eq!(classify("d-09876543Cd", "Fail"), Outcome::Error(Rejection::SuffixUppercase));
    assert_eq!(classify("d-09876543cd", "Pending"), Outcome::Error(Rejection::UnknownStatus));
    assert_eq!(classify("d09876543cd", "Fail"), Outcome::Error(Rejection::MissingSeparator));
    assert_eq!(classify("", "Fail"), Outcome::Error(Rejection::MissingSeparator));
}

#[test]
fn suffix_is_everything_after_the_first_separator() {
    assert_eq!(classify("d-0123456789-extra", "Success"), Outcome::Error(Rejection::SuffixLength));
    assert_eq!(classify("d--0123456789", "Success"), Outcome::Error(Rejection::SuffixLength));
    assert_eq!(
        classify("d-012345678-", "Success"),
        Outcome::Error(Rejection::SuffixSpecialCharacters)
    );
    assert_eq!(classify("d-0-x", "Fail"), Outcome::Error(Rejection::SuffixLength));
    assert_eq!(evaluate_deployments(&[record("d-0123456789-x", "Success")]), vec![0, 0, 1]);
}

#[test]
fn record_order_does_not_change_the_counts() {
    let a = vec![
        record("d-abcdefghij", "Success"),
        "oops".to_string(),
        record("d-abcdefghij", "Fail"),
        record("d-abcdefghij", "Success"),
    ];
    let mut b = a.clone();
    b.reverse();
    assert_eq!(evaluate_deployments(&a), evaluate_deployments(&b));
    assert_eq!(evaluate_deployments(&a), vec![2, 1, 1]);
}

#[test]
fn undecodable_texts_count_as_errors() {
    assert_eq!(decode_record("not json"), None);
    assert_eq!(decode_record("{\"deployment_id\": 5, \"status\": \"Fail\"}"), None);
    assert_eq!(decode_record(&status_only("Fail")), None);
    assert_eq!(
        decode_record(&record("d-12345678ab", "Success")),
        Some(Deployment { deployment_id: "d-12345678ab".to_string(), status: "Success".to_string() })
    );
    assert_eq!(classify_record(&None), Outcome::Error(Rejection::Undecodable));
    assert_eq!(evaluate_deployments(&["[".to_string(), "".to_string()]), vec![0, 0, 2]);
}

#[test]
fn empty_batch_counts_nothing() {
    assert_eq!(evaluate_deployments(&[]), vec![0, 0, 0]);
    assert_eq!(evaluate(&Vec::new()), Tally { success: 0, fail: 0, error: 0 });
}

#[test]
fn valid_records_count_as_their_status() {
    let recs = vec![
        Some(Deployment { deployment_id: "d-abcdefghij".to_string(), status: "Success".to_string() }),
        Some(Deployment { deployment_id: "d-0123456789".to_string(), status: "Fail".to_string() }),
        Some(Deployment { deployment_id: "d-a1b2c3d4e5".to_string(), status: "Success".to_string() }),
    ];
    assert_eq!(evaluate(&recs), Tally { success: 2, fail: 1, error: 0 });
}

#[test]
fn rejected_records_count_only_as_errors() {
    let recs = vec![
        None,
        Some(Deployment { deployment_id: "x-abcdefghij".to_string(), status: "Success".to_string() }),
        Some(Deployment { deployment_id: "d-abcdefghiJ".to_string(), status: "Fail".to_string() }),
        Some(Deployment { deployment_id: "d-abcdefghij".to_string(), status: "success".to_string() }),
    ];
    let t = evaluate(&recs);
    assert_eq!(t, Tally { success: 0, fail: 0, error: 4 });
    assert_eq!(t.success + t.fail + t.error, recs.len());
}

#[test]
fn tally_records_one_outcome_at_a_time() {
    let mut t = Tally::new();
    t.record(Outcome::Success);
    t.record(Outcome::Error(Rejection::UnknownStatus));
    t.record(Outcome::Fail);
    t.record(Outcome::Error(Rejection::Undecodable));
    assert_eq!(t, Tally { success: 1, fail: 1, error: 2 });
}

#[test]
fn rejection_messages() {
    assert_eq!(Rejection::InvalidPrefix.message(), "invalid deployment_id prefix");
    assert_eq!(Rejection::SuffixLength.message(), "deployment_id suffix length is not 10");
    assert_eq!(
        Rejection::SuffixSpecialCharacters.message(),
        "deployment_id suffix has special characters"
    );
    assert_eq!(Rejection::SuffixUppercase.message(), "deployment_id suffix has uppercase");
}

fn id_only(id: &str) -> String {
    let mut m = serde_json::Map::new();
    m.insert("deployment_id".to_string(), serde_json::Value::String(id.to_string()));
    serde_json::Value::Object(m).to_string()
}

#[test]
fn id_without_separator_is_one_error_and_the_next_record_counts() {
    let input = [record("d0123456789", "Success"), record("d-0123456789", "Fail")];
    assert_eq!(evaluate_deployments(&input), vec![0, 1, 1]);
}

#[test]
fn status_must_be_exactly_success_or_fail() {
    let input = [record("d-0123456789", "Pending"), record("d-0123456789", "success")];
    assert_eq!(evaluate_deployments(&input), vec![0, 0, 2]);
}

#[test]
fn bad_json_missing_and_non_string_members_are_errors() {
    let mut m = serde_json::Map::new();
    m.insert("deployment_id".to_string(), serde_json::Value::from(7));
    m.insert("status".to_string(), serde_json::Value::String("Success".to_string()));
    let non_string = serde_json::Value::Object(m).to_string();
    let input = ["not json".to_string(), id_only("d-0123456789"), non_string];
    assert_eq!(evaluate_deployments(&input), vec![0, 0, 3]);
}

#[test]
fn appending_a_valid_record_raises_only_its_counter() {
    let base = vec![record("d-abcdefghij", "Fail"), record("x-abcdefghij", "Success")];
    let old = evaluate_deployments(&base);
    let mut with_success = base.clone();
    with_success.push(record("d-a1b2c3d4e5", "Success"));
    assert_eq!(evaluate_deployments(&with_success), vec![old[0] + 1, old[1], old[2]]);
    let mut with_fail = base.clone();
    with_fail.push(record("d-a1b2c3d4e5", "Fail"));
    assert_eq!(evaluate_deployments(&with_fail), vec![old[0], old[1] + 1, old[2]]);
    let mut with_error = base.clone();
    with_error.push(record("d-a1b2c3d4E5", "Fail"));
    assert_eq!(evaluate_deployments(&with_error), vec![old[0], old[1], old[2] + 1]);
}

#[test]
fn counts_of_a_concatenation_add_up() {
    let a = vec![record("d-abcdefghij", "Success"), "{".to_string()];
    let b = vec![record("d-abcdefghij", "Fail"), record("d-abcdefghij", "Success")];
    let ra = evaluate_deployments(&a);
    let rb = evaluate_deployments(&b);
    let both = [a.clone(), b.clone()].concat();
    let rboth = evaluate_deployments(&both);
    assert_eq!(rboth, vec![ra[0] + rb[0], ra[1] + rb[1], ra[2] + rb[2]]);
    assert_eq!(rboth, vec![2, 1, 1]);
}

#[test]
fn duplicate_member_keeps_the_last() {
    let text = "{\"deployment_id\": \"x-0\", \"deployment_id\": \"d-0123456789\", \"status\": \"Fail\"}";
    assert_eq!(evaluate_deployments(&[text.to_string()]), vec![0, 1, 0]);
}
