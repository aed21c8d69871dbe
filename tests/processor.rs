use timetable_core::processor::{
    fill_spans, patch_document, process_map, MapHighlight, MapNode, ProcessorError,
};

fn highlight(id: &str, color: &str) -> MapHighlight {
    MapHighlight { id: id.into(), color: color.into() }
}

#[test]
fn process_map_replaces_fill() {
    let content = r###"<?xml version="1.0"?>
<svg>
    <g id="Maths_Rooms">
        <path fill="#000000" d="M0" />
    </g>
    <g id="Other">
        <rect fill="#ffffff" />
    </g>
</svg>"###;

    let highlights = vec![MapHighlight {
        id: "Maths_Rooms".into(),
        color: "#ff0000".into(),
    }];
    let out = process_map(content, &highlights).unwrap();
    assert!(out.contains("fill=\"#ff0000\""));
}

#[test]
fn process_map_scenario_changes_only_the_region() {
    let content = "<svg>\n  <g id=\"Maths_Rooms\">\n    <path fill=\"#000000\"/>\n  </g>\n  <rect fill=\"#ffffff\"/>\n</svg>";
    let out = process_map(content, &vec![highlight("Maths_Rooms", "#ff0000")]).unwrap();
    assert_eq!(
        out,
        "<svg>\n  <g id=\"Maths_Rooms\">\n    <path fill=\"#ff0000\"/>\n  </g>\n  <rect fill=\"#ffffff\"/>\n</svg>"
    );
}

#[test]
fn no_highlights_returns_input() {
    let content = "<svg>\n  <g id=\"A\"><path fill='#000'  d=\"M0\"/></g>\n</svg>";
    assert_eq!(process_map(content, &vec![]).unwrap(), content);
}

#[test]
fn two_fills_in_one_region_are_both_rewritten() {
    let content = "<svg><g data-name=\"Lab\">\n  <path d=\"M0\" fill = '#111'  stroke=\"#222\"/>\n  <circle fill=\"#333\" r=\"2\"/>\n</g><rect fill=\"#444\"/></svg>";
    let out = process_map(content, &vec![highlight("Lab", "#0a0")]).unwrap();
    assert_eq!(
        out,
        "<svg><g data-name=\"Lab\">\n  <path d=\"M0\" fill=\"#0a0\"  stroke=\"#222\"/>\n  <circle fill=\"#0a0\" r=\"2\"/>\n</g><rect fill=\"#444\"/></svg>"
    );
}

#[test]
fn same_start_is_rewritten_once_with_the_first_color() {
    let content = "<svg><g id=\"R\"><path fill=\"#000\"/></g></svg>";
    let out = process_map(content, &vec![highlight("R", "#aaa"), highlight("R", "#bbb")]).unwrap();
    assert_eq!(out, "<svg><g id=\"R\"><path fill=\"#aaa\"/></g></svg>");
}

#[test]
fn group_with_its_own_fill_and_nested_groups() {
    let content = "<svg><g id=\"R\" fill=\"#1\"><g><path fill=\"#2\"/></g></g><path fill=\"#3\"/></svg>";
    let out = process_map(content, &vec![highlight("R", "#f00")]).unwrap();
    assert_eq!(out, "<svg><g id=\"R\" fill=\"#f00\"><g><path fill=\"#f00\"/></g></g><path fill=\"#3\"/></svg>");
}

#[test]
fn missing_region_is_skipped() {
    let content = "<svg><g id=\"R\"><path fill=\"#000\"/></g></svg>";
    let out = process_map(content, &vec![highlight("Nowhere", "#f00"), highlight("R", "#0f0")]).unwrap();
    assert_eq!(out, "<svg><g id=\"R\"><path fill=\"#0f0\"/></g></svg>");
}

#[test]
fn malformed_document_is_an_xml_error() {
    let r = process_map("<svg><g></svg>", &vec![highlight("R", "#f00")]);
    assert!(matches!(r, Err(ProcessorError::Xml(_))));
}

#[test]
fn fill_spans_locate_assignments() {
    let text = "<a><b fill=\"x\"/><c/></a>";
    let nodes = vec![
        MapNode { start: 0, id: None, data_name: None, has_fill: false, descendants: 3 },
        MapNode { start: 3, id: None, data_name: None, has_fill: true, descendants: 1 },
        MapNode { start: 16, id: None, data_name: None, has_fill: true, descendants: 1 },
    ];
    let spans = fill_spans(text, &nodes).unwrap();
    assert_eq!(spans, vec![None, Some((6, 14)), None]);
}

#[test]
fn patch_document_drops_out_of_bounds_edits() {
    let text = "<a fill=\"1\"/>";
    let nodes = vec![
        MapNode { start: 0, id: Some("a".into()), data_name: None, has_fill: true, descendants: 2 },
        MapNode { start: 0, id: None, data_name: None, has_fill: true, descendants: 1 },
    ];
    let spans = vec![Some((3, 11)), Some((20, 30))];
    let out = patch_document(text, &nodes, &spans, &vec![highlight("a", "#9")]);
    assert_eq!(out, "<a fill=\"#9\"/>");
}

#[test]
fn patch_document_applies_from_the_end() {
    let text = "<a fill=\"1\"><b fill=\"22\"/></a>";
    let nodes = vec![
        MapNode { start: 0, id: Some("a".into()), data_name: None, has_fill: true, descendants: 2 },
        MapNode { start: 12, id: None, data_name: None, has_fill: true, descendants: 1 },
    ];
    let spans = vec![Some((3, 11)), Some((15, 24))];
    let out = patch_document(text, &nodes, &spans, &vec![highlight("a", "#long")]);
    assert_eq!(out, "<a fill=\"#long\"><b fill=\"#long\"/></a>");
}
