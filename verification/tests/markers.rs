use keepsorted::directives::{is_ignore_block_line, is_ignore_file_line, is_keep_sorted_line};
use keepsorted::{process_lines, process_text, Strategy};

#[test]
fn test_re_keyword_keep_sorted() {
    for line in [
        "  # Keep sorted  ",
        "  # Keep   sorted .  ",
        "  #   keepsorted  : keep   sorted  .  ",
        "  //  Keep sorted   .  ",
        "  //   keepsorted  : keep   sorted  .  ",
    ] {
        assert!(
            is_keep_sorted_line(line),
            "The matcher failed on the valid line: '{}'",
            line
        );
    }
}

#[test]
fn test_re_keyword_ignore_file() {
    for line in [
        "  #   keepsorted  : ignore   file  .  ",
        "  //   keepsorted  : ignore   file  .  ",
    ] {
        assert!(
            is_ignore_file_line(line),
            "The matcher failed on the valid line: '{}'",
            line
        );
    }
}

#[test]
fn test_re_keyword_ignore_block() {
    for line in [
        "  #   keepsorted  : ignore   block  .  ",
        "  //   keepsorted  : ignore   block  .  ",
    ] {
        assert!(
            is_ignore_block_line(line),
            "The matcher failed on the valid line: '{}'",
            line
        );
    }
}

#[test]
fn markers_reject_other_lines() {
    for line in [
        "Keep sorted.",
        "# Keep",
        "# Keep sorted, please",
        "# keepsorted",
        "code = 1  # Keep sorted.",
        "",
    ] {
        assert!(!is_keep_sorted_line(line), "falsely matched: '{}'", line);
    }
    assert!(!is_ignore_file_line("# keepsorted: ignore block"));
    assert!(!is_ignore_block_line("# keepsorted: ignore file"));
    assert!(!is_ignore_file_line("# keepsorted: ignorefile"));
    assert!(is_ignore_file_line("# keepsorted:ignore-file"));
    assert!(is_ignore_block_line("keepsorted: ignore block"));
    assert!(!is_keep_sorted_line("# keepsorted ignore file"));
}

#[test]
fn scenario_generic_simple() {
    let out = process_text(Strategy::Generic, "# Keep sorted.\nb\na\n");
    assert_eq!(out, "# Keep sorted.\na\nb\n");
}

#[test]
fn scenario_cargo_simple() {
    let out = process_text(Strategy::CargoToml, "[dependencies]\nb = \"2\"\na = \"1\"\n");
    assert_eq!(out, "[dependencies]\na = \"1\"\nb = \"2\"\n");
}

#[test]
fn scenario_derive_alphabetical() {
    let out = process_text(
        Strategy::RustDeriveAlphabetical,
        "#[derive(C, B, A, Ord, Copy)]\n",
    );
    assert_eq!(out, "#[derive(A, B, C, Copy, Ord)]\n");
}

#[test]
fn scenario_derive_canonical() {
    let out = process_text(
        Strategy::RustDeriveCanonical,
        "#[derive(C, B, A, Ord, Copy)]\n",
    );
    assert_eq!(out, "#[derive(Copy, Ord, A, B, C)]\n");
}

#[test]
fn scenario_ignore_block_shields_region() {
    let input = "// keepsorted: ignore block\n// Keep sorted.\nb\na\n";
    let out = process_text(Strategy::Generic, input);
    assert_eq!(out, input);
}

#[test]
fn trailing_newline_absent_is_kept_absent() {
    let out = process_text(Strategy::Generic, "# Keep sorted.\nb\na");
    assert_eq!(out, "# Keep sorted.\na\nb");
}

#[test]
fn trailing_newline_present_is_kept_present() {
    let out = process_text(Strategy::Generic, "# Keep sorted.\nb\na\n");
    assert_eq!(out, "# Keep sorted.\na\nb\n");
}

#[test]
fn untouched_lines_reproduced_exactly() {
    let input = "no trigger here\n\tweird   spacing \nsecond\n";
    let out = process_text(Strategy::Generic, input);
    assert_eq!(out, input);
}

#[test]
fn processing_is_idempotent_on_sorted_output() {
    let input = "# Keep sorted.\nc\n# note\nb\na\n\nrest\n";
    let once = process_text(Strategy::Generic, input);
    let twice = process_text(Strategy::Generic, &once);
    assert_eq!(once, twice);
    assert_eq!(once, "# Keep sorted.\na\n# note\nb\nc\n\nrest\n");
}

#[test]
fn equal_keys_keep_their_order() {
    let input = "# Keep sorted.\n# first note\nx\n# second note\nx\na\n";
    let out = process_text(Strategy::Generic, input);
    assert_eq!(out, "# Keep sorted.\na\n# first note\nx\n# second note\nx\n");
}

#[test]
fn comment_moves_with_its_code_line() {
    let input = "# Keep sorted.\nz\n# belongs to m\nm\na\n";
    let out = process_text(Strategy::Generic, input);
    assert_eq!(out, "# Keep sorted.\na\n# belongs to m\nm\nz\n");
}

#[test]
fn bazel_empty_region() {
    let input = "block = [\n    # Keep sorted.\n]\n";
    let out = process_text(Strategy::Bazel, input);
    assert_eq!(out, input);
}

#[test]
fn derive_without_traits_is_kept() {
    let out = process_text(Strategy::RustDeriveAlphabetical, "#[derive()]\n");
    assert_eq!(out, "#[derive()]\n");
}

#[test]
fn ignore_file_wins_over_every_region() {
    let input = "# keepsorted: ignore file\n# Keep sorted.\nb\na\n";
    let out = process_text(Strategy::Generic, input);
    assert_eq!(out, input);
}

#[test]
fn process_lines_keeps_terminators() {
    let lines = vec![
        String::from("# Keep sorted.\n"),
        String::from("b\n"),
        String::from("a\n"),
    ];
    let out = process_lines(Strategy::Generic, lines);
    assert_eq!(
        out,
        vec![
            String::from("# Keep sorted.\n"),
            String::from("a\n"),
            String::from("b\n"),
        ]
    );
}

#[test]
fn unterminated_region_closes_at_end_of_input() {
    let lines = vec![
        String::from("# Keep sorted.\n"),
        String::from("b\n"),
        String::from("a\n"),
    ];
    let out = process_lines(Strategy::Generic, lines);
    assert_eq!(out.len(), 3);
    assert_eq!(out[1], "a\n");
    assert_eq!(out[2], "b\n");
}

#[test]
fn bazel_phase_order_groups() {
    let input = "block = [\n    # Keep sorted.\n    \":bbb\",\n    \":aaa\",\n    \"nested\",\n    \"//dir:bbb\",\n    \"//dir:aaa\",\n    \"@crate//:bbb\",\n    \"@crate//:aaa\",\n]\n";
    let expected = "block = [\n    # Keep sorted.\n    \"nested\",\n    \":aaa\",\n    \":bbb\",\n    \"//dir:aaa\",\n    \"//dir:bbb\",\n    \"@crate//:aaa\",\n    \"@crate//:bbb\",\n]\n";
    let out = process_text(Strategy::Bazel, input);
    assert_eq!(out, expected);
}

#[test]
fn derive_threshold_97_stays_98_breaks() {
    // 96 characters plus the newline: exactly 97, stays on one line.
    let line97 = "#[derive(A01, A02, A03, A04, A05, A06, A07, A08, A09, A10, A11, A12, A13, A14, A15, A16xxxxxxx)]\n";
    assert_eq!(line97.len(), 97);
    let out = process_text(Strategy::RustDeriveAlphabetical, line97);
    assert_eq!(out, line97);

    // one character more: 98 with the newline, breaks into the 3-line form.
    let line98 = "#[derive(A01, A02, A03, A04, A05, A06, A07, A08, A09, A10, A11, A12, A13, A14, A15, A16xxxxxxxx)]\n";
    assert_eq!(line98.len(), 98);
    let out2 = process_text(Strategy::RustDeriveAlphabetical, line98);
    assert_eq!(out2, "#[derive(\n    A01, A02, A03, A04, A05, A06, A07, A08, A09, A10, A11, A12, A13, A14, A15, A16xxxxxxxx,\n)]\n");
}

#[test]
fn cargo_adjacent_tables_close_and_reopen() {
    let input = "[dependencies]\nb = \"2\"\na = \"1\"\n[dev-dependencies]\ny = \"4\"\nx = \"3\"\n";
    let expected = "[dependencies]\na = \"1\"\nb = \"2\"\n[dev-dependencies]\nx = \"3\"\ny = \"4\"\n";
    assert_eq!(process_text(Strategy::CargoToml, input), expected);
}

#[test]
fn bazel_pass_is_idempotent() {
    let input = "deps = [\n    # Keep sorted.\n    \"b\",\n    # note\n    \"a\",\n    \"c\",\n]\n";
    let once = process_text(Strategy::Bazel, input);
    let twice = process_text(Strategy::Bazel, &once);
    assert_eq!(once, twice);
}

#[test]
fn gitignore_pass_is_idempotent() {
    let input = "# [Header]\n/z\n# note\n/m\n/a\n\n/b\n/c\n";
    let once = process_text(Strategy::Gitignore, input);
    let twice = process_text(Strategy::Gitignore, &once);
    assert_eq!(once, twice);
}

#[test]
fn cargo_pass_is_idempotent() {
    let input = "[dependencies]\nz = \"1\"\n# note\nm = { version = \"2\", features = [\n    \"x\",\n] }\na = \"3\"\n";
    let once = process_text(Strategy::CargoToml, input);
    let twice = process_text(Strategy::CargoToml, &once);
    assert_eq!(once, twice);
}
