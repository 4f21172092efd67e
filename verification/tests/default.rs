use keepsorted::{process_lines, Strategy};

// Feed a text through the plain dialect line by line and join the result.
fn process_default(text: &str) -> String {
    let mut lines: Vec<String> = Vec::new();
    for line in text.lines() {
        let mut owned = String::from(line);
        owned.push('\n');
        lines.push(owned);
    }
    let mut processed = process_lines(Strategy::Generic, lines);
    if let Some(last) = processed.last_mut() {
        last.truncate(last.trim_end_matches('\n').len());
    }
    processed.concat()
}

fn check_default(input: &str, expected: &str) {
    let result = process_default(input);
    assert!(
        result == expected,
        "Expected: {}\nActual: {}",
        expected,
        result
    );
}

#[test]
fn default_empty() {
    check_default("", "");
}

#[test]
fn default_single_item() {
    check_default(
        r#"
            a
        "#,
        r#"
            a
        "#,
    );
}

#[test]
fn default_no_sorting_comment() {
    check_default(
        r#"
            b
            a
        "#,
        r#"
            b
            a
        "#,
    );
}

#[test]
fn default_simple_block() {
    check_default(
        r#"
            # Keep sorted.
            b
            a
        "#,
        r#"
            # Keep sorted.
            a
            b
        "#,
    );
}

#[test]
fn default_blocks_divided_by_newline() {
    check_default(
        r#"
            # Keep sorted.
            d
            c

            b
            a
        "#,
        r#"
            # Keep sorted.
            c
            d

            b
            a
        "#,
    );
}
