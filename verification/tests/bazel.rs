use keepsorted::bazel::BazelSortKey;
use keepsorted::{process_lines, Strategy};

// Feed a text through the Bazel dialect line by line and join the result.
fn process_bazel(text: &str) -> String {
    let mut lines: Vec<String> = Vec::new();
    for line in text.lines() {
        let mut owned = String::from(line);
        owned.push('\n');
        lines.push(owned);
    }
    let mut processed = process_lines(Strategy::Bazel, lines);
    if let Some(last) = processed.last_mut() {
        last.truncate(last.trim_end_matches('\n').len());
    }
    processed.concat()
}

fn check_bazel(input: &str, expected: &str) {
    let result = process_bazel(input);
    assert!(
        result == expected,
        "Expected: {}\nActual: {}",
        expected,
        result
    );
}

#[test]
fn bazel_test_bazel_sort_key() {
    let ordered_items = [
        r#""nested","#,
        r#"":aaa","#,
        r#"":bbb","#,
        r#""//dir/subdir:aaa","#,
        r#""//dir/subdir:bbb","#,
        r#""//dir/subdir/folder",  # Some in-line comment."#,
        r#""//dir/subdir/folder:xxx","#,
        r#""//dir/subdir/folder:yyy",  # TODO[yyy]"#,
        r#""@crate_index//:aaa","#,
        r#""@crate_index//:base","#,
        r#""@crate_index//:base32","#,
        r#""@crate_index//:base64-bytestring","#,
        r#""@crate_index//:bbb","#,
        r#""@crate_index//project","#,
        r#"requirement("gitpython"),"#,
        r#"requirement("python-gitlab"),"#,
        r#"requirement("pyyaml"),"#,
    ];
    for window in ordered_items.windows(2) {
        let left = BazelSortKey::new(window[0]);
        let right = BazelSortKey::new(window[1]);
        assert!(
            left <= right,
            "Sort order incorrect: {:?} > {:?}",
            left,
            right
        );
    }
}

#[test]
fn bazel_sort_key() {
    let ordered_items = [
        r#""nested","#,
        r#"":aaa","#,
        r#"":bbb","#,
        r#""//dir/subdir:aaa","#,
        r#""//dir/subdir:bbb","#,
        r#""//dir/subdir/folder",  # Some in-line comment."#,
        r#""//dir/subdir/folder:xxx","#,
        r#""//dir/subdir/folder:yyy",  # TODO[yyy]"#,
        r#""@crate_index//:aaa","#,
        r#""@crate_index//:base","#,
        r#""@crate_index//:base32","#,
        r#""@crate_index//:base64-bytestring","#,
        r#""@crate_index//:bbb","#,
        r#""@crate_index//project","#,
        r#"requirement("gitpython"),"#,
        r#"requirement("python-gitlab"),"#,
        r#"requirement("pyyaml"),"#,
    ];
    for window in ordered_items.windows(2) {
        let left = BazelSortKey::new(window[0]);
        let right = BazelSortKey::new(window[1]);
        assert!(
            left <= right,
            "Sort order incorrect: {:?} > {:?}",
            left,
            right
        );
    }
}

#[test]
fn bazel_single_block() {
    check_bazel(
        r#"
            block = [
                # Keep sorted.
                "b",
                "a",
            ]
        "#,
        r#"
            block = [
                # Keep sorted.
                "a",
                "b",
            ]
        "#,
    );
}

#[test]
fn bazel_inline_comment() {
    check_bazel(
        r#"
            block = [
                # Keep sorted.
                "y",
                "x",  # Some in-line comment.
                "b",
                "a",
            ]
        "#,
        r#"
            block = [
                # Keep sorted.
                "a",
                "b",
                "x",  # Some in-line comment.
                "y",
            ]
        "#,
    );
}

#[test]
fn bazel_inline_comment_with_braces() {
    check_bazel(
        r#"
            block = [
                # Keep sorted.
                "y",
                "x",  # TODO[xxx].
                "b",
                "a",
            ]
        "#,
        r#"
            block = [
                # Keep sorted.
                "a",
                "b",
                "x",  # TODO[xxx].
                "y",
            ]
        "#,
    );
}

#[test]
fn bazel_multi_line_comment() {
    check_bazel(
        r#"
            block = [
                # Keep sorted.
                "y",
                # Some multi-line comment,
                # for the line below.,
                "x",
                "b",
                "a",
            ]
        "#,
        r#"
            block = [
                # Keep sorted.
                "a",
                "b",
                # Some multi-line comment,
                # for the line below.,
                "x",
                "y",
            ]
        "#,
    );
}

#[test]
fn bazel_multi_line_trailing_comment() {
    check_bazel(
        r#"
            block = [
                # Keep sorted.
                "b",
                "a",
                # Some multi-line comment
                # trailing comment.
            ]
        "#,
        r#"
            block = [
                # Keep sorted.
                "a",
                "b",
                # Some multi-line comment
                # trailing comment.
            ]
        "#,
    );
}

#[test]
fn bazel_several_multi_line_comments() {
    check_bazel(
        r#"
            block = [
                # Keep sorted.
                "y",
                # Some multi-line comment
                # for the line below.
                "x",
                "b",
                "a",
                # Some multi-line comment
                # trailing comment.
            ]
        "#,
        r#"
            block = [
                # Keep sorted.
                "a",
                "b",
                # Some multi-line comment
                # for the line below.
                "x",
                "y",
                # Some multi-line comment
                # trailing comment.
            ]
        "#,
    );
}

#[test]
fn bazel_single_block_with_comment() {
    check_bazel(
        r#"
            block = [
                # Keep sorted.
                "d",
                # Some comment about the line below.
                "c",
                "b",  # TODO[bbb]
                "a",
                # Trailing comment.
            ]
        "#,
        r#"
            block = [
                # Keep sorted.
                "a",
                "b",  # TODO[bbb]
                # Some comment about the line below.
                "c",
                "d",
                # Trailing comment.
            ]
        "#,
    );
}

#[test]
fn bazel_bazel_blocks() {
    check_bazel(
        r#"
            block_1 = [
                # Keep sorted.
                "b",
                "a",
            ],
            block_2 = [
                "y",
                "x",
            ],
        "#,
        r#"
            block_1 = [
                # Keep sorted.
                "a",
                "b",
            ],
            block_2 = [
                "y",
                "x",
            ],
        "#,
    );
}

#[test]
fn bazel_blocks_with_select() {
    check_bazel(
        r#"
            deps = [
                # Keep sorted.
                "b",
                "a",
            ] + select({
                "@platforms//os:osx": [
                    # Keep sorted.
                    "y",
                    "x",
                ],
                "//conditions:default": [
                    # Keep sorted.
                    "m",
                    "k",
                ],
            })
        "#,
        r#"
            deps = [
                # Keep sorted.
                "a",
                "b",
            ] + select({
                "@platforms//os:osx": [
                    # Keep sorted.
                    "x",
                    "y",
                ],
                "//conditions:default": [
                    # Keep sorted.
                    "k",
                    "m",
                ],
            })
        "#,
    );
}

#[test]
fn bazel_bazel_order() {
    check_bazel(
        r#"
            block = [
                # Keep sorted.
                ":bbb",
                ":aaa",
                "nested",
                "//dir/subdir/folder:yyy",  # TODO[yyy]
                "//dir/subdir/folder:xxx",
                "//dir/subdir/folder",  # Some in-line comment.
                "//dir/subdir:bbb",
                "//dir/subdir:aaa",
                "@crate_index//project",
                "@crate_index//:base64-bytestring",
                "@crate_index//:base32",
                "@crate_index//:base",
                "@crate_index//:bbb",
                "@crate_index//:aaa",
                requirement("gitpython"),
                requirement("python-gitlab"),
                requirement("pyyaml"),
            ]
        "#,
        r#"
            block = [
                # Keep sorted.
                "nested",
                ":aaa",
                ":bbb",
                "//dir/subdir:aaa",
                "//dir/subdir:bbb",
                "//dir/subdir/folder",  # Some in-line comment.
                "//dir/subdir/folder:xxx",
                "//dir/subdir/folder:yyy",  # TODO[yyy]
                "@crate_index//:aaa",
                "@crate_index//:base",
                "@crate_index//:base32",
                "@crate_index//:base64-bytestring",
                "@crate_index//:bbb",
                "@crate_index//project",
                requirement("gitpython"),
                requirement("python-gitlab"),
                requirement("pyyaml"),
            ]
        "#,
    );
}
