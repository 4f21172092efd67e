use keepsorted::{process_lines, Strategy};

// Feed a text through a derive dialect and join the result.
fn process_derive(strategy: Strategy, text: &str) -> String {
    let mut lines: Vec<String> = Vec::new();
    for line in text.lines() {
        let mut owned = String::from(line);
        owned.push('\n');
        lines.push(owned);
    }
    let mut processed = process_lines(strategy, lines);
    if let Some(last) = processed.last_mut() {
        last.truncate(last.trim_end_matches('\n').len());
    }
    processed.concat()
}

fn check_derive(strategy: Strategy, input: &str, expected: &str) {
    let result = process_derive(strategy, input);
    assert!(
        result == expected,
        "Expected: {}\nActual: {}",
        expected,
        result
    );
}

#[test]
fn rust_derive_alphabetical() {
    check_derive(
        Strategy::RustDeriveAlphabetical,
        r#"
#[derive(serde::Serialize, C, B, A, Ord, Copy, c, b, a, Serialize)]
struct Data {}
        "#,
        r#"
#[derive(A, B, C, Copy, Ord, Serialize, serde::Serialize, a, b, c)]
struct Data {}
        "#,
    );
}

#[test]
fn rust_derive_canonical() {
    check_derive(
        Strategy::RustDeriveCanonical,
        r#"
#[derive(serde::Serialize, C, B, A, Ord, Copy, c, b, a, Serialize)]
struct Data {}
        "#,
        r#"
#[derive(Copy, Ord, A, B, C, Serialize, serde::Serialize, a, b, c)]
struct Data {}
        "#,
    );
}

#[test]
fn rust_derive_alphabetical_indented() {
    check_derive(
        Strategy::RustDeriveAlphabetical,
        r#"
mod foo {
    #[derive(C, B, A, Ord, Copy)]
    struct Data {}
}
        "#,
        r#"
mod foo {
    #[derive(A, B, C, Copy, Ord)]
    struct Data {}
}
        "#,
    );
}

#[test]
fn rust_derive_canonical_indented() {
    check_derive(
        Strategy::RustDeriveCanonical,
        r#"
mod foo {
    #[derive(C, B, A, Ord, Copy)]
    struct Data {}
}
        "#,
        r#"
mod foo {
    #[derive(Copy, Ord, A, B, C)]
    struct Data {}
}
        "#,
    );
}

#[test]
fn rust_derive_long_stays_one_line() {
    check_derive(
        Strategy::RustDeriveAlphabetical,
        r#"
#[derive(A01, A02, A03, A04, A05, A06, A07, A08, A09, A10, A11, A12, A13, A14, A15, A16, A17xx)]
struct Data {}
        "#,
        r#"
#[derive(A01, A02, A03, A04, A05, A06, A07, A08, A09, A10, A11, A12, A13, A14, A15, A16, A17xx)]
struct Data {}
        "#,
    );
}

#[test]
fn rust_derive_long_breaks_into_three_lines() {
    check_derive(
        Strategy::RustDeriveAlphabetical,
        r#"
#[derive(A01, A02, A03, A04, A05, A06, A07, A08, A09, A10, A11, A12, A13, A14, A15, A16, A17xxx)]
struct Data {}
        "#,
        r#"
#[derive(
    A01, A02, A03, A04, A05, A06, A07, A08, A09, A10, A11, A12, A13, A14, A15, A16, A17xxx,
)]
struct Data {}
        "#,
    );
}

#[test]
fn rust_derive_long_stays_three_lines() {
    check_derive(
        Strategy::RustDeriveAlphabetical,
        r#"
#[derive(
    A01, A02, A03, A04, A05, A06, A07, A08, A09, A10, A11, A12, A13, A14, A15, A16, A17xx, B01, B02x,
)]
struct Data {}
        "#,
        r#"
#[derive(
    A01, A02, A03, A04, A05, A06, A07, A08, A09, A10, A11, A12, A13, A14, A15, A16, A17xx, B01, B02x,
)]
struct Data {}
        "#,
    );
}

#[test]
fn rust_derive_long_breaks_into_many_lines() {
    check_derive(
        Strategy::RustDeriveAlphabetical,
        r#"
#[derive(
    A01, A02, A03, A04, A05, A06, A07, A08, A09, A10, A11, A12, A13, A14, A15, A16, A17xx, B01, B02xx,
)]
struct Data {}
        "#,
        r#"
#[derive(
    A01,
    A02,
    A03,
    A04,
    A05,
    A06,
    A07,
    A08,
    A09,
    A10,
    A11,
    A12,
    A13,
    A14,
    A15,
    A16,
    A17xx,
    B01,
    B02xx,
)]
struct Data {}
        "#,
    );
}

#[test]
fn rust_derive_one_line_ignored() {
    check_derive(
        Strategy::RustDeriveAlphabetical,
        r#"
// keepsorted: ignore block
#[derive(C, B, A, Ord, Copy)]
struct Data {}
        "#,
        r#"
// keepsorted: ignore block
#[derive(C, B, A, Ord, Copy)]
struct Data {}
        "#,
    );
}

#[test]
fn rust_derive_three_lines_ignored() {
    check_derive(
        Strategy::RustDeriveAlphabetical,
        r#"
// keepsorted: ignore block
#[derive(
    C, B, A, Ord, Copy,
)]
struct Data {}
        "#,
        r#"
// keepsorted: ignore block
#[derive(
    C, B, A, Ord, Copy,
)]
struct Data {}
        "#,
    );
}

#[test]
fn rust_derive_many_lines_ignored() {
    check_derive(
        Strategy::RustDeriveAlphabetical,
        r#"
// keepsorted: ignore block
#[derive(
    C,
    B,
    A,
    Ord,
    Copy,
)]
struct Data {}
        "#,
        r#"
// keepsorted: ignore block
#[derive(
    C,
    B,
    A,
    Ord,
    Copy,
)]
struct Data {}
        "#,
    );
}

#[test]
fn rust_derive_issue_25_1() {
    check_derive(
        Strategy::RustDeriveAlphabetical,
        r#"
#[derive(Parser, Debug)] // Some comment.
struct Data {}
        "#,
        r#"
#[derive(Debug, Parser)] // Some comment.
struct Data {}
        "#,
    );
}

#[test]
fn rust_derive_issue_25_2() {
    check_derive(
        Strategy::RustDeriveAlphabetical,
        r#"
#[derive(Parser, Debug)] // Some comment.
#[command(about = "description", long_about = None)]
struct Data {}
        "#,
        r#"
#[derive(Debug, Parser)] // Some comment.
#[command(about = "description", long_about = None)]
struct Data {}
        "#,
    );
}

#[test]
fn rust_derive_issue_25_3() {
    check_derive(
        Strategy::RustDeriveAlphabetical,
        r#"
#[derive(Parser, Debug)] // Some comment comment with #[derive(Parser, Debug)].
#[command(about = "description", long_about = None)]
struct Data {}
        "#,
        r#"
#[derive(Debug, Parser)] // Some comment comment with #[derive(Parser, Debug)].
#[command(about = "description", long_about = None)]
struct Data {}
        "#,
    );
}
