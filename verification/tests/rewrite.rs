use mv_nix::edits::{apply_edits, Edit};
use mv_nix::engine::{rewrite_file, MoveOp, RewriteOutcome};
use mv_nix::paths::{
    join_segments, normalize_rel_path, relative_segs, render_rel_literal, resolve_literal,
    split_literal,
};
use mv_nix::plan::token_matches;

fn bytes(s: &str) -> Vec<u8> {
    s.as_bytes().to_vec()
}

fn segs(s: &str) -> Vec<Vec<u8>> {
    split_literal(&bytes(s))
}

fn text_of(v: &[u8]) -> String {
    String::from_utf8(v.to_vec()).unwrap()
}

#[test]
fn normalize_drops_dot_segments() {
    let n = normalize_rel_path(&segs("./a/../b"));
    assert_eq!(join_segments(&n), bytes("b"));
}

#[test]
fn normalize_keeps_leading_climbs() {
    let n = normalize_rel_path(&segs("../../x"));
    assert_eq!(join_segments(&n), bytes("../../x"));
}

#[test]
fn normalize_climb_after_name_cancels() {
    let n = normalize_rel_path(&segs("a/b/../../.."));
    assert_eq!(join_segments(&n), bytes(".."));
}

#[test]
fn normalize_skips_empty_segments() {
    let n = normalize_rel_path(&segs("a//b/./c"));
    assert_eq!(join_segments(&n), bytes("a/b/c"));
}

#[test]
fn relative_descends_with_dot_prefix() {
    // From docs/index.md (directory docs) to docs/guides/guide.md.
    let base = segs("docs");
    let target = segs("docs/guides/guide.md");
    let rel = relative_segs(&base, &target);
    assert_eq!(render_rel_literal(&rel), bytes("./guides/guide.md"));
}

#[test]
fn relative_climbs_without_dot_prefix() {
    let base = segs("src/a");
    let target = segs("src/lib/utils/util");
    let rel = relative_segs(&base, &target);
    assert_eq!(render_rel_literal(&rel), bytes("../lib/utils/util"));
}

#[test]
fn round_trip_rewrite_and_resolve() {
    // A file src/a/b.cfg refers to src/lib/util as ../lib/util; the file
    // moves to src/lib/utils/util.  The rewritten literal, resolved back
    // from src/a/b.cfg, lands exactly on the new path.
    let text = bytes("util = ../lib/util;\n");
    let mv = MoveOp::from_literals(&bytes("src/lib/util"), &bytes("src/lib/utils/util")).unwrap();
    let file = segs("src/a/b.cfg");
    match rewrite_file(&text, &mv, &file) {
        RewriteOutcome::Rewritten { edits, new_text } => {
            assert_eq!(edits.len(), 1);
            assert_eq!(text_of(&new_text), "util = ../lib/utils/util;\n");
            let parent = segs("src/a");
            let resolved = resolve_literal(&parent, &edits[0].replacement);
            assert_eq!(join_segments(&resolved), bytes("src/lib/utils/util"));
        }
        _ => panic!("expected a rewrite"),
    }
}

#[test]
fn noop_move_leaves_all_content_untouched() {
    // No reference in the file denotes the moved path: zero edits, and the
    // file is reported unchanged rather than rewritten byte-identical.
    let text = bytes("{ a = ./other.nix; b = ../up/x; }\n");
    let mv = MoveOp::from_literals(&bytes("docs/guide.md"), &bytes("docs/guides/guide.md"))
        .unwrap();
    let file = segs("pkgs/default.nix");
    match rewrite_file(&text, &mv, &file) {
        RewriteOutcome::Unchanged => {}
        _ => panic!("expected no change"),
    }
}

#[test]
fn planned_edits_are_pairwise_disjoint() {
    let text = bytes("{ a = ./guide.md; b = ./sub/../guide.md; c = ./guide.md; }\n");
    let mv = MoveOp::from_literals(&bytes("docs/guide.md"), &bytes("docs/guides/guide.md"))
        .unwrap();
    let file = segs("docs/index.md");
    match rewrite_file(&text, &mv, &file) {
        RewriteOutcome::Rewritten { edits, .. } => {
            assert_eq!(edits.len(), 3);
            for i in 0..edits.len() {
                assert!(edits[i].start <= edits[i].end);
                for j in (i + 1)..edits.len() {
                    assert!(edits[i].end <= edits[j].start || edits[j].end <= edits[i].start);
                }
            }
        }
        _ => panic!("expected a rewrite"),
    }
}

#[test]
fn multi_edit_preserves_unmatched_regions() {
    // Two matches whose replacements have different lengths than their
    // spans: one longer, one shorter.  Unmatched regions stay unchanged and
    // both substitutions equal their planned replacement.
    let text = bytes("{ a = ./guide.md; b = ./x/y/../../guide.md; }\n");
    let mv = MoveOp::from_literals(&bytes("docs/guide.md"), &bytes("docs/guides/guide.md"))
        .unwrap();
    let file = segs("docs/index.md");
    match rewrite_file(&text, &mv, &file) {
        RewriteOutcome::Rewritten { edits, new_text } => {
            assert_eq!(edits.len(), 2);
            assert_eq!(
                text_of(&new_text),
                "{ a = ./guides/guide.md; b = ./guides/guide.md; }\n"
            );
        }
        _ => panic!("expected a rewrite"),
    }
}

#[test]
fn equivalent_climbing_literals_match_alike() {
    // ./a/../b and ./b resolved from the same containing file normalize to
    // the same target, so both match (or both fail to match) any old path.
    let parent = segs("src");
    let old_match = segs("src/b");
    let old_other = segs("src/c");
    let l1 = bytes("./a/../b");
    let l2 = bytes("./b");
    let r1 = resolve_literal(&parent, &l1);
    let r2 = resolve_literal(&parent, &l2);
    assert_eq!(join_segments(&r1), join_segments(&r2));
    assert_eq!(
        token_matches(&l1, &parent, &old_match),
        token_matches(&l2, &parent, &old_match)
    );
    assert!(token_matches(&l1, &parent, &old_match));
    assert_eq!(
        token_matches(&l1, &parent, &old_other),
        token_matches(&l2, &parent, &old_other)
    );
    assert!(!token_matches(&l2, &parent, &old_other));
}

#[test]
fn scenario_guide_moved_into_subdirectory() {
    let mv = MoveOp::from_literals(&bytes("docs/guide.md"), &bytes("docs/guides/guide.md"))
        .unwrap();

    let index = bytes("{ guide = ./guide.md; }\n");
    match rewrite_file(&index, &mv, &segs("docs/index.md")) {
        RewriteOutcome::Rewritten { new_text, .. } => {
            assert_eq!(text_of(&new_text), "{ guide = ./guides/guide.md; }\n");
        }
        _ => panic!("expected a rewrite of docs/index.md"),
    }

    let readme = bytes("{ guide = ./docs/guide.md; }\n");
    match rewrite_file(&readme, &mv, &segs("README.md")) {
        RewriteOutcome::Rewritten { new_text, .. } => {
            assert_eq!(text_of(&new_text), "{ guide = ./docs/guides/guide.md; }\n");
        }
        _ => panic!("expected a rewrite of README.md"),
    }
}

#[test]
fn self_reference_rewritten_for_new_location() {
    // The moved file refers to itself; the new literal must be relative to
    // its own new home.
    let text = bytes("{ me = ./util.nix; }\n");
    let mv = MoveOp::from_literals(&bytes("lib/util.nix"), &bytes("lib/deep/util.nix")).unwrap();
    let file = segs("lib/util.nix");
    match rewrite_file(&text, &mv, &file) {
        RewriteOutcome::Rewritten { new_text, .. } => {
            assert_eq!(text_of(&new_text), "{ me = ./util.nix; }\n");
            // Resolved from the new parent lib/deep, the literal still
            // denotes the file itself.
            let resolved = resolve_literal(&segs("lib/deep"), &bytes("./util.nix"));
            assert_eq!(join_segments(&resolved), bytes("lib/deep/util.nix"));
        }
        _ => panic!("expected a rewrite"),
    }
}

#[test]
fn not_text_input_is_skipped() {
    let text = vec![0x66u8, 0xff, 0xfe, 0x67];
    let mv = MoveOp::from_literals(&bytes("a/b"), &bytes("a/c")).unwrap();
    match rewrite_file(&text, &mv, &segs("d/e.nix")) {
        RewriteOutcome::NotText => {}
        _ => panic!("expected the file to be skipped as non-text"),
    }
}

#[test]
fn move_op_rejects_malformed_paths() {
    assert!(MoveOp::from_literals(&bytes(""), &bytes("a/b")).is_none());
    assert!(MoveOp::from_literals(&bytes("a/b"), &bytes("/abs/b")).is_none());
    assert!(MoveOp::from_literals(&bytes("a/./b"), &bytes("a/b")).is_none());
    assert!(MoveOp::from_literals(&bytes("../up"), &bytes("a/b")).is_none());
    assert!(MoveOp::from_literals(&bytes("a//b"), &bytes("a/b")).is_none());
    assert!(MoveOp::from_literals(&bytes("a/b"), &bytes("c/d")).is_some());
}

#[test]
fn unresolvable_climb_is_left_unmatched() {
    // A reference climbing past the project root cannot be decided; it is
    // left unmatched rather than guessed.
    let parent = segs("a");
    let old = segs("x");
    assert!(!token_matches(&bytes("../../x"), &parent, &old));
    // The same target reached without leaving the root does match.
    assert!(token_matches(&bytes("../x"), &parent, &old));
}

#[test]
fn parse_errors_do_not_block_rewriting() {
    // The parser is error-tolerant: references inside otherwise broken
    // content are still found and rewritten.
    let text = bytes("]] ./guide.md &&\n");
    let mv = MoveOp::from_literals(&bytes("docs/guide.md"), &bytes("docs/guides/guide.md"))
        .unwrap();
    match rewrite_file(&text, &mv, &segs("docs/index.md")) {
        RewriteOutcome::Rewritten { edits, new_text } => {
            assert_eq!(edits.len(), 1);
            assert_eq!(text_of(&new_text), "]] ./guides/guide.md &&\n");
        }
        _ => panic!("expected a rewrite despite parse errors"),
    }
}

#[test]
fn apply_edits_exact_expected_value() {
    // "hello world": replace [0,5) by "goodbye" and [6,11) by "ya".
    let text = bytes("hello world");
    let edits = vec![
        Edit { start: 0, end: 5, replacement: bytes("goodbye") },
        Edit { start: 6, end: 11, replacement: bytes("ya") },
    ];
    let out = apply_edits(&text, &edits);
    assert_eq!(text_of(&out), "goodbye ya");
}

#[test]
fn parser_tokens_drive_real_edits() {
    // End-to-end through the real parser: if the parser wrapper handed its
    // input back unchanged (no tokens, wrong ranges), no edit could be
    // planned and the rewritten text would not change.
    let text = bytes("import ./guide.md\n");
    let mv = MoveOp::from_literals(&bytes("docs/guide.md"), &bytes("docs/guides/guide.md"))
        .unwrap();
    match rewrite_file(&text, &mv, &segs("docs/main.nix")) {
        RewriteOutcome::Rewritten { edits, new_text } => {
            assert_eq!(edits.len(), 1);
            assert_eq!(edits[0].start, 7);
            assert_eq!(edits[0].end, 17);
            assert_eq!(text_of(&new_text), "import ./guides/guide.md\n");
        }
        _ => panic!("expected a rewrite"),
    }
}
