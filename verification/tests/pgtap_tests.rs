use promscale::pgtap_parse::{parse_pgtap_result, PgTapResult, PgTapTest, TestResult};

#[test]
fn given_no_pgtap_input_it_returns_null() {
    let result = parse_pgtap_result("");
    assert!(result.is_none());
}

#[test]
fn given_pgtap_success_it_returns_success() {
    let result = parse_pgtap_result(
        r#"
 plan
-------
 1..1
(1 row)

                  ok
---------------------------------------
 ok 1 - none of the chunks are deleted
(1 row)
        "#,
    );
    assert_eq!(
        result.unwrap(),
        PgTapResult {
            planned_test_count: 1,
            executed_test_count: 1,
            success_count: 1,
            test_results: vec!(PgTapTest {
                test_name: String::from("none of the chunks are deleted"),
                test_result: TestResult::PASS
            })
        }
    );
}

#[test]
fn given_pgtap_success_no_test_name_it_returns_success() {
    let result = parse_pgtap_result(
        r#"
 plan
-------
 1..1
(1 row)

                  ok
---------------------------------------
 ok 1
(1 row)
        "#,
    );
    assert_eq!(
        result.unwrap(),
        PgTapResult {
            planned_test_count: 1,
            executed_test_count: 1,
            success_count: 1,
            test_results: vec!(PgTapTest {
                test_name: String::from(""),
                test_result: TestResult::PASS
            })
        }
    );
}

#[test]
fn given_pgtap_failure_it_returns_failure() {
    let input = r#"
 plan
-------
 1..1
(1 row)

                  ok
---------------------------------------
 not ok 1 - none of the chunks are deleted
(1 row)
        "#;
    let result = parse_pgtap_result(input);
    assert_eq!(
        result.unwrap(),
        PgTapResult {
            planned_test_count: 1,
            executed_test_count: 1,
            success_count: 0,
            test_results: vec!(PgTapTest {
                test_name: String::from("none of the chunks are deleted"),
                test_result: TestResult::FAIL
            })
        }
    );
}

#[test]
fn given_pgtap_missing_test_it_returns_failure() {
    let input = r#"
 plan
-------
 1..1
(1 row)
        "#;
    let result = parse_pgtap_result(input);
    assert_eq!(
        result.unwrap(),
        PgTapResult {
            planned_test_count: 1,
            executed_test_count: 0,
            success_count: 0,
            test_results: vec!()
        }
    );
}

#[test]
fn given_pgtap_test_count_after_results_it_parses_correctly() {
    let input = r#"
 plan
-------
 ok 1 - public.test_create_ingest_temp_table
 1..1
(2 rows)
        "#;
    let result = parse_pgtap_result(input);
    assert_eq!(
        result.unwrap(),
        PgTapResult {
            planned_test_count: 1,
            executed_test_count: 1,
            success_count: 1,
            test_results: vec!(PgTapTest {
                test_name: String::from("public.test_create_ingest_temp_table"),
                test_result: TestResult::PASS
            })
        }
    );
}

#[test]
fn given_pgtap_subtest_it_parses_correctly() {
    let input = r#"
                                               runtests
------------------------------------------------------------------------------------------------------
     # Subtest: subtest_one()
     ok 1 - subtest one test one
     ok 2 - subtest one test two
     1..2
     # Subtest: subtest_two()
     ok 1 - subtest two test one
     1..1
 ok 1 - subtest_one()
 ok 2 - subtest_two()
 1..2
(10 rows)
        "#;
    let result = parse_pgtap_result(input);
    assert_eq!(
        result.unwrap(),
        PgTapResult {
            planned_test_count: 2,
            executed_test_count: 2,
            success_count: 2,
            test_results: vec!(
                PgTapTest {
                    test_name: String::from("subtest_one()"),
                    test_result: TestResult::PASS
                },
                PgTapTest {
                    test_name: String::from("subtest_two()"),
                    test_result: TestResult::PASS
                }
            )
        }
    );
}

#[test]
fn given_pgtap_output_contains_multiple_results_per_line() {
    let input = r#"
 plan
-------
 1..2
(1 row)
           ok           |        ok
------------------------+-------------------
 ok 8 - subplan is used | ok 9 - uses index
(1 row)
"#;
    let result = parse_pgtap_result(input);
    assert_eq!(
        result.unwrap(),
        PgTapResult {
            planned_test_count: 2,
            executed_test_count: 2,
            success_count: 2,
            test_results: vec!(
                PgTapTest {
                    test_name: String::from("subplan is used"),
                    test_result: TestResult::PASS
                },
                PgTapTest {
                    test_name: String::from("uses index"),
                    test_result: TestResult::PASS
                }
            )
        }
    );
}
