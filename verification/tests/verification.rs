use rpkg::async_fns::{PendingRequest, TransferResult, VerifyOutcome};
use rpkg::debversion::DebianVersionNum;
use rpkg::packages::Packages;

fn answer(status: u32, body: &str) -> TransferResult {
    TransferResult { status, body: body.to_string() }
}

#[test]
fn a_new_queue_asks_the_default_server() {
    let db = Packages::new();
    assert_eq!(db.get_server(), "ece459.patricklam.ca:4590");
    assert_eq!(db.pending_count(), 0);
}

#[test]
fn set_server_changes_later_requests_only() {
    let mut db = Packages::new();
    let first = db.enq_verify_with_version("a", "1.0");
    db.set_server("localhost:4590");
    assert_eq!(db.get_server(), "localhost:4590");
    let second = db.enq_verify_with_version("a", "1.0");
    assert_eq!(first, "http://ece459.patricklam.ca:4590/rest/v1/checksums/a/1.0");
    assert_eq!(second, "http://localhost:4590/rest/v1/checksums/a/1.0");
    assert_eq!(db.pending_count(), 2);
}

#[test]
fn the_version_is_percent_encoded_in_the_url() {
    let mut db = Packages::new();
    db.set_server("h:1");
    let url = db.enq_verify_with_version("libfoo", "1:2.0+dfsg~rc1-3");
    assert_eq!(url, "http://h:1/rest/v1/checksums/libfoo/1%3A2.0%2Bdfsg~rc1-3");
    let url = db.enq_verify_with_version("p", "a b/\u{e9}_");
    assert_eq!(url, "http://h:1/rest/v1/checksums/p/a%20b%2F%C3%A9_");
}

#[test]
fn a_queued_name_gets_a_package_number() {
    let mut db = Packages::new();
    assert!(!db.package_exists("fresh"));
    db.enq_verify_with_version("fresh", "1.0");
    assert!(db.package_exists("fresh"));
    assert_eq!(db.get_package_num("fresh"), 0);
}

#[test]
fn enq_verify_takes_the_available_version() {
    let mut db = Packages::new();
    let a = db.get_package_num_inserting("a");
    db.get_package_num_inserting("b");
    db.set_available_version(a, DebianVersionNum::parse("1:1.0").unwrap());
    db.set_server("s");
    assert_eq!(db.enq_verify("a"), Some("http://s/rest/v1/checksums/a/1%3A1.0".to_string()));
    assert_eq!(db.pending_count(), 1);
    assert_eq!(db.enq_verify("b"), None);
    assert_eq!(db.enq_verify("nobody"), None);
    assert_eq!(db.pending_count(), 1);
    assert!(!db.package_exists("nobody"));
}

#[test]
fn a_batch_reports_a_match_and_an_error_and_leaves_the_queue_empty() {
    let mut db = Packages::new();
    let good = db.get_package_num_inserting("good");
    let gone = db.get_package_num_inserting("gone");
    db.set_available_version(good, DebianVersionNum::parse("1.0").unwrap());
    db.set_available_version(gone, DebianVersionNum::parse("2.0").unwrap());
    db.set_md5sum(good, "0123abcd");
    assert!(db.enq_verify("good").is_some());
    assert!(db.enq_verify("gone").is_some());
    let responses = vec![answer(200, "0123abcd"), answer(404, "not found")];
    assert!(db.can_execute(&responses));
    let outcomes = db.execute(&responses);
    assert_eq!(
        outcomes,
        vec![
            VerifyOutcome::Verified { package: "good".to_string(), matches: true },
            VerifyOutcome::Failed {
                package: "gone".to_string(),
                version: "2.0".to_string(),
                status: 404,
            },
        ]
    );
    assert_eq!(db.pending_count(), 0);
    assert!(db.can_execute(&vec![]));
    assert_eq!(db.execute(&vec![]), vec![]);
    assert_eq!(db.pending_count(), 0);
    db.enq_verify("good");
    assert_eq!(
        db.execute(&vec![answer(200, "feed")]),
        vec![VerifyOutcome::Verified { package: "good".to_string(), matches: false }]
    );
}

#[test]
fn answers_are_matched_to_requests_in_the_order_of_queueing() {
    let mut db = Packages::new();
    let a = db.get_package_num_inserting("a");
    let b = db.get_package_num_inserting("b");
    db.set_md5sum(a, "aa");
    db.set_md5sum(b, "bb");
    db.enq_verify_with_version("b", "1");
    db.enq_verify_with_version("a", "2");
    db.enq_verify_with_version("b", "3");
    let outcomes = db.execute(&vec![answer(200, "bb"), answer(200, "bb"), answer(500, "")]);
    assert_eq!(
        outcomes,
        vec![
            VerifyOutcome::Verified { package: "b".to_string(), matches: true },
            VerifyOutcome::Verified { package: "a".to_string(), matches: false },
            VerifyOutcome::Failed { package: "b".to_string(), version: "3".to_string(), status: 500 },
        ]
    );
}

#[test]
fn answers_that_cannot_be_judged_are_told() {
    let mut db = Packages::new();
    db.enq_verify_with_version("a", "1");
    assert!(!db.can_execute(&vec![]));
    assert!(!db.can_execute(&vec![answer(200, "x"), answer(200, "y")]));
    assert!(!db.can_execute(&vec![answer(200, "x")]));
    assert!(db.can_execute(&vec![answer(404, "x")]));
    db.set_md5sum(0, "x");
    assert!(db.can_execute(&vec![answer(200, "x")]));
}

#[test]
fn one_answer_is_judged_by_its_status() {
    let mut db = Packages::new();
    let a = db.get_package_num_inserting("a");
    db.set_md5sum(a, "sum");
    let request =
        PendingRequest { package_num: a, package_name: "a".to_string(), version: "1".to_string() };
    assert_eq!(
        db.judge(&request, &answer(200, "sum")),
        VerifyOutcome::Verified { package: "a".to_string(), matches: true }
    );
    assert_eq!(
        db.judge(&request, &answer(200, "sum\n")),
        VerifyOutcome::Verified { package: "a".to_string(), matches: false }
    );
    assert_eq!(
        db.judge(&request, &answer(201, "sum")),
        VerifyOutcome::Failed { package: "a".to_string(), version: "1".to_string(), status: 201 }
    );
    assert_eq!(
        db.judge(&request, &answer(400, "sum")),
        VerifyOutcome::Failed { package: "a".to_string(), version: "1".to_string(), status: 400 }
    );
}
