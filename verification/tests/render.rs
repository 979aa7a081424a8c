use bokfell::coverage::model::StructuralKind;
use bokfell::diff::BlockUnit;
use bokfell::model::catalog::Coords;
use bokfell::model::resource::Family;
use bokfell::render::{
    section_ids,
    base_version_label, client_selector, imagesdir_for, overlay_blocks, overlay_contexts, overlay_units,
    page_diff_against, pick_base, structural_kind, BlockNode, PageBlockChange, PageDiff, RenderError,
};

fn coords(module: &str, path: &str) -> Coords {
    Coords {
        component: "html5".to_string(),
        version: None,
        module: module.to_string(),
        family: Family::Page,
        path: path.to_string(),
    }
}

#[test]
fn imagesdir_relative_to_page_depth() {
    assert_eq!(
        imagesdir_for("html5/index.html", &coords("ROOT", "index.adoc")).as_deref(),
        Some("_images")
    );
    assert_eq!(
        imagesdir_for("html5/api/options.html", &coords("api", "options.adoc")).as_deref(),
        Some("_images")
    );
    assert_eq!(
        imagesdir_for("html5/sub/deep.html", &coords("ROOT", "sub/deep.adoc")).as_deref(),
        Some("../_images")
    );
    assert_eq!(imagesdir_for("html5/x.html", &coords("ROOT", "x.txt")), None);
    assert_eq!(imagesdir_for("html5/y.html", &coords("ROOT", "x.adoc")), None);
}

#[test]
fn selector_is_nonempty_and_comma_joined() {
    let selector = client_selector();
    assert!(selector.contains(".paragraph"));
    assert!(selector.contains("table.tableblock"));
    assert!(selector.split(',').count() == overlay_contexts().len());
}

#[test]
fn structural_kinds() {
    for context in ["example", "listing", "literal", "image", "audio", "video", "stem"] {
        assert_eq!(structural_kind(context), StructuralKind::NonNormative, "{context}");
    }
    for context in ["paragraph", "admonition", "table", "list", "quote", "open"] {
        assert_eq!(structural_kind(context), StructuralKind::Prose, "{context}");
    }
}

#[test]
fn the_walk_emits_outermost_overlay_blocks_with_their_sections() {
    let doc = vec![
        BlockNode::Preamble {
            children: vec![BlockNode::Other { context: "paragraph".into(), start_line: 3, text: "Lead.".into() }],
        },
        BlockNode::Section {
            id: Some("_a".into()),
            children: vec![
                BlockNode::List { start_line: 7, text: "* one\n* two".into() },
                BlockNode::Other { context: "thematic_break".into(), start_line: 9, text: "'''".into() },
                BlockNode::Section {
                    id: None,
                    children: vec![BlockNode::Other { context: "listing".into(), start_line: 11, text: "a\nb\nc\n".into() }],
                },
            ],
        },
    ];
    let blocks = overlay_blocks(&doc);
    assert_eq!(blocks.len(), 3);
    assert_eq!(blocks[0].unit.kind, "paragraph");
    assert!(blocks[0].sections.is_empty());
    assert_eq!(blocks[1].unit.kind, "list");
    assert_eq!(blocks[1].line_count, 2);
    assert_eq!(blocks[1].sections, vec!["_a".to_string()]);
    assert_eq!(blocks[2].kind, StructuralKind::NonNormative);
    assert_eq!(blocks[2].line_count, 3);
    assert_eq!(blocks[2].start_line, 11);
    let units = overlay_units(blocks);
    assert_eq!(units[2], BlockUnit { kind: "listing".into(), text: "a\nb\nc\n".into() });
}

#[test]
fn pages_without_a_base_are_new_and_fully_added() {
    let units = vec![BlockUnit { kind: "paragraph".into(), text: "x".into() }];
    let d = page_diff_against("1.0".into(), None, &units);
    assert!(d.new_page && d.is_changed());
    assert_eq!((d.added, d.removed, d.edited), (1, 0, 0));
    assert!(matches!(d.blocks[0], PageBlockChange::Added));
    let same = page_diff_against("1.0".into(), Some(units.clone()), &units);
    assert!(!same.is_changed());
    assert!(matches!(same.blocks[0], PageBlockChange::Unchanged));
}

#[test]
fn base_labels_and_candidates() {
    assert_eq!(base_version_label(&Some("Two".into()), &Some("2.0".into())), "Two");
    assert_eq!(base_version_label(&None, &Some("2.0".into())), "2.0");
    assert_eq!(base_version_label(&None, &None), "default");
    let cands = vec![Some("1.0".to_string()), Some("2.0".to_string())];
    assert_eq!(pick_base(&cands, &Some("2.0".into())), Some(1));
    assert_eq!(pick_base(&cands, &Some("3.0".into())), None);
    assert_eq!(pick_base(&[None], &Some("3.0".into())), Some(0));
    let e = RenderError::UnknownComponent("x@y".into());
    assert_eq!(e.to_string(), "page x@y belongs to unknown component");
    let _ = PageDiff { base_label: String::new(), new_page: false, added: 0, removed: 0, edited: 0, blocks: vec![] };
}

#[test]
fn section_ids_list_every_section_in_document_order() {
    let tree = vec![
        BlockNode::Preamble {
            children: vec![BlockNode::Section { id: Some("_in_preamble".into()), children: Vec::new() }],
        },
        BlockNode::Section {
            id: Some("_outer".into()),
            children: vec![
                BlockNode::Other { context: "paragraph".into(), start_line: 4, text: "Text.".into() },
                BlockNode::Section { id: None, children: vec![BlockNode::Section { id: Some("_deep".into()), children: Vec::new() }] },
                BlockNode::Section { id: Some("_inner".into()), children: Vec::new() },
            ],
        },
        BlockNode::List { start_line: 9, text: "* item".into() },
        BlockNode::Section { id: Some("_last".into()), children: Vec::new() },
    ];
    assert_eq!(section_ids(&tree), vec!["_in_preamble", "_outer", "_deep", "_inner", "_last"]);
    assert!(section_ids(&[]).is_empty());
}
