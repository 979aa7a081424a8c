use bokfell::coverage::legacy::{CoverageData, JsonValue, LineStatus};
use bokfell::coverage::model::{BlockState, PageCoverage, SpecBlock, StructuralKind};
use bokfell::model::catalog::Coords;
use bokfell::model::resource::Family;

fn coords(path: &str) -> Coords {
    Coords {
        component: "demo".to_string(),
        version: None,
        module: "ROOT".to_string(),
        family: Family::Page,
        path: path.to_string(),
    }
}

fn block(page_lines: Option<(u32, u32)>) -> SpecBlock {
    SpecBlock {
        context: "paragraph".to_string(),
        text: String::new(),
        start_line: page_lines.map_or(0, |(s, _)| s),
        line_count: page_lines.map_or(1, |(_, c)| c),
        page_lines,
        sections: Vec::new(),
        kind: StructuralKind::Prose,
    }
}

#[test]
fn loads_and_addresses_by_coords() {
    let mut data = CoverageData::new();
    data.load_str(
        r#"{ "coverage": {
            "docs/modules/ROOT/pages/index.adoc": { "3": 1, "5": 0, "9": 1 }
        } }"#,
    )
    .unwrap();

    let lines = data.page_lines("docs", &coords("index.adoc")).unwrap();
    assert_eq!(lines.get(&3), Some(&LineStatus::Verified));
    assert_eq!(lines.get(&5), Some(&LineStatus::Uncovered));
    assert_eq!(lines.get(&4), None);

    assert!(data.page_lines("docs", &coords("other.adoc")).is_none());
    assert!(data.page_lines("other", &coords("index.adoc")).is_none());
}

#[test]
fn merging_prefers_verified() {
    let mut data = CoverageData::new();
    data.load_str(r#"{ "coverage": { "docs/modules/ROOT/pages/a.adoc": { "1": 0 } } }"#)
        .unwrap();
    data.load_str(r#"{ "coverage": { "docs/modules/ROOT/pages/a.adoc": { "1": 1 } } }"#)
        .unwrap();
    data.load_str(r#"{ "coverage": { "docs/modules/ROOT/pages/a.adoc": { "1": 0 } } }"#)
        .unwrap();

    let lines = data.page_lines("docs", &coords("a.adoc")).unwrap();
    assert_eq!(lines.get(&1), Some(&LineStatus::Verified));
}

#[test]
fn block_states_from_lines() {
    let mut data = CoverageData::new();
    data.load_str(
        r#"{ "coverage": {
            "docs/modules/ROOT/pages/p.adoc": { "1": 1, "2": 1, "5": 0, "8": 1, "9": 0 }
        } }"#,
    )
    .unwrap();
    let lines = data.page_lines("docs", &coords("p.adoc")).unwrap();

    // Blocks: lines 1-2 (all verified), 4-5 (uncovered), 7-9 (mixed →
    // uncovered), 11-12 (no coverage → non-normative), and an
    // include-origin block (no page lines → non-normative).
    let blocks = [
        block(Some((1, 2))),
        block(Some((4, 2))),
        block(Some((7, 3))),
        block(Some((11, 2))),
        block(None),
    ];
    let coverage = PageCoverage::from_legacy_lines(lines, &blocks);
    let states: Vec<BlockState> = coverage.blocks.iter().map(|b| b.state).collect();
    assert_eq!(
        states,
        vec![
            BlockState::Verified,
            BlockState::Uncovered,
            BlockState::Uncovered,
            BlockState::NonNormative,
            BlockState::NonNormative,
        ]
    );
    assert_eq!(coverage.counts.verified, 1);
    assert_eq!(coverage.counts.uncovered, 2);
    assert_eq!(coverage.counts.non_normative, 2);
    assert_eq!(coverage.percent_verified(), 33);
}

#[test]
fn invalid_json_is_reported() {
    let mut data = CoverageData::new();
    assert!(data.load_str("{}").is_err());
    assert!(data.load_str("not json").is_err());

    // Only 0 and 1 are valid statuses; anything else would silently
    // skew percentages if accepted.
    assert!(data
        .load_str(r#"{ "coverage": { "a.adoc": { "1": 2 } } }"#)
        .is_err());
    assert!(data
        .load_str(r#"{ "coverage": { "a.adoc": { "1": -1 } } }"#)
        .is_err());
}

#[test]
fn a_parsed_document_merges_like_its_text() {
    let doc = JsonValue::Object(vec![(
        "coverage".to_string(),
        JsonValue::Object(vec![(
            "docs/modules/ROOT/pages/a.adoc".to_string(),
            JsonValue::Object(vec![("1".to_string(), JsonValue::Number(Some(1))), ("2".to_string(), JsonValue::Number(Some(0)))]),
        )]),
    )]);
    let mut data = CoverageData::new();
    data.load_value(Ok(doc)).unwrap();
    let lines = data.page_lines("docs", &coords("a.adoc")).unwrap();
    assert_eq!(lines.get(&1), Some(&LineStatus::Verified));
    assert_eq!(lines.get(&2), Some(&LineStatus::Uncovered));
    let err = data.load_value(Ok(JsonValue::Array(Vec::new()))).unwrap_err();
    assert_eq!(err, "missing top-level \"coverage\" object");
    let err = data.load_value(Err("EOF while parsing".to_string())).unwrap_err();
    assert_eq!(err, "EOF while parsing");
}
