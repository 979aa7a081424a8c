use bokfell::diff::{diff_blocks, diff_from_runs, similar_alignment, similar_texts, word_changes_html, word_diff_html, BlockChange, BlockUnit, DiffRun, WordTag};

fn unit(kind: &str, text: &str) -> BlockUnit {
    BlockUnit {
        kind: kind.to_string(),
        text: text.to_string(),
    }
}

#[test]
fn identical_sequences_are_unchanged() {
    let blocks = vec![unit("paragraph", "One."), unit("listing", "code")];
    let diff = diff_blocks(&blocks, &blocks);
    assert!(!diff.is_changed());
    assert_eq!(
        diff.changes,
        vec![
            BlockChange::Unchanged { old: 0, new: 0 },
            BlockChange::Unchanged { old: 1, new: 1 },
        ]
    );
    assert_eq!(diff.new_block_tokens(2), vec![None, None]);
}

#[test]
fn additions_removals_and_edits_classify() {
    let old = vec![
        unit("paragraph", "The quick brown fox jumps over the dog."),
        unit("listing", "let x = 1;"),
        unit("paragraph", "Stays the same."),
    ];
    let new = vec![
        unit("paragraph", "The quick red fox jumps over the dog."),
        unit("paragraph", "Stays the same."),
        unit("paragraph", "Entirely new closing thought."),
    ];

    let diff = diff_blocks(&old, &new);
    assert!(diff.is_changed());
    assert_eq!((diff.added, diff.removed, diff.edited), (1, 1, 1));
    let edited = diff
        .changes
        .iter()
        .find_map(|c| match c {
            BlockChange::Edited { diff_html, .. } => Some(diff_html.clone()),
            _ => None,
        })
        .expect("one edited block");
    assert!(edited.contains("<del>brown</del>"), "html: {edited}");
    assert!(edited.contains("<ins>red</ins>"));
    assert!(diff.changes.contains(&BlockChange::Removed { old: 1 }));
    assert_eq!(
        diff.new_block_tokens(3),
        vec![Some("edited"), None, Some("added")]
    );
}

#[test]
fn dissimilar_replacement_is_add_plus_remove() {
    let old = vec![unit("paragraph", "Alpha beta gamma delta.")];
    let new = vec![unit("paragraph", "Completely unrelated words here now.")];
    let diff = diff_blocks(&old, &new);
    assert_eq!((diff.added, diff.removed, diff.edited), (1, 1, 0));
}

#[test]
fn kind_change_never_pairs_as_edit() {
    let old = vec![unit("paragraph", "some shared words in here")];
    let new = vec![unit("listing", "some shared words in here")];
    let diff = diff_blocks(&old, &new);
    assert_eq!((diff.added, diff.removed, diff.edited), (1, 1, 0));
}

#[test]
fn word_diff_escapes_html() {
    let html = word_diff_html("a <b> c", "a <i> c");
    assert!(html.contains("<del>&lt;b&gt;</del>"));
    assert!(html.contains("<ins>&lt;i&gt;</ins>"));
}

#[test]
fn similarity_threshold_is_two_fifths_of_all_words() {
    assert!(similar_texts("", ""));
    assert!(similar_texts("a b c", "a b c"));
    // Words and the spaces between them both count: two shared spaces of
    // ten tokens reach the threshold exactly.
    assert!(similar_texts("a b c", "x y z"));
    assert!(!similar_texts("alpha beta", "gamma delta epsilon"));
}

#[test]
fn runs_outside_the_sequences_are_ignored_and_replacements_pair_in_order() {
    let old = vec![unit("paragraph", "one two three"), unit("paragraph", "four five six")];
    let new = vec![unit("paragraph", "four five six seven")];
    let runs = [
        DiffRun::Replace { old_index: 0, old_len: 2, new_index: 0, new_len: 1 },
        DiffRun::Equal { old_index: 5, new_index: 5, len: 1 },
    ];
    let d = diff_from_runs(&old, &new, &runs);
    assert_eq!((d.added, d.removed, d.edited), (0, 1, 1));
    assert_eq!(d.changes[0], BlockChange::Removed { old: 0 });
    assert!(matches!(d.changes[1], BlockChange::Edited { old: 1, new: 0, .. }));
    assert_eq!(d.changes.len(), 2);
}

#[test]
fn word_changes_render_as_marked_up_html() {
    let changes = vec![
        (WordTag::Equal, "a <b> ".to_string()),
        (WordTag::Delete, "old".to_string()),
        (WordTag::Insert, "new & more".to_string()),
    ];
    assert_eq!(word_changes_html(&changes), "a &lt;b&gt; <del>old</del><ins>new &amp; more</ins>");
    assert_eq!(word_changes_html(&[]), "");
}

#[test]
fn similarity_needs_two_fifths_of_the_words_equal() {
    let equal = |len| DiffRun::Equal { old_index: 0, new_index: 0, len };
    // 2 equal words of 5 + 5: 5 * 2 >= 10.
    assert!(similar_alignment(&[equal(2)], 5, 5));
    // 1 equal word of 5 + 5 is too few.
    assert!(!similar_alignment(&[equal(1), DiffRun::Replace { old_index: 1, old_len: 4, new_index: 1, new_len: 4 }], 5, 5));
    // Two empty texts are identical.
    assert!(similar_alignment(&[], 0, 0));
}
