use roxmltree::{Document, Node};
use testdiff::format::{
    annotation_line, build_annotation, derive_location, escape_for_github, first_child,
    format_junit, location_from_captures, pick_message, testcase_name, FormatArgs, ReportChild,
    ReportNode,
};

fn child_of(node: &Node) -> ReportChild {
    ReportChild {
        is_element: node.is_element(),
        tag: node.tag_name().name().to_string(),
        message: node.attribute("message").map(|s| s.to_string()),
        text: node.text().map(|s| s.to_string()),
    }
}

fn node_of(node: &Node) -> ReportNode {
    ReportNode {
        tag: node.tag_name().name().to_string(),
        classname: node.attribute("classname").map(|s| s.to_string()),
        name: node.attribute("name").map(|s| s.to_string()),
        file: node.attribute("file").map(|s| s.to_string()),
        line: node.attribute("line").map(|s| s.to_string()),
        children: node.children().map(|c| child_of(&c)).collect(),
    }
}

fn nodes_of(xml: &str) -> Vec<ReportNode> {
    let doc = Document::parse(xml).unwrap();
    doc.descendants().map(|n| node_of(&n)).collect()
}

fn testcase_of(xml: &str) -> ReportNode {
    let doc = Document::parse(xml).unwrap();
    let case = doc.descendants().find(|n| n.has_tag_name("testcase")).unwrap();
    node_of(&case)
}

#[test]
fn derives_locations_from_attributes() {
    let xml = r#"<testsuite><testcase classname="pkg.test" name="test_it" file="/tmp/test.py" line="10"><failure message="boom">Traceback</failure></testcase></testsuite>"#;

    let case = testcase_of(xml);
    let failure = first_child(&case, &["failure"]).unwrap();
    let (file, line) = derive_location(&case, failure.text.as_deref());

    assert_eq!(file.unwrap(), "/tmp/test.py");
    assert_eq!(line, Some(10));
}

#[test]
fn derives_locations_from_traceback() {
    let xml = r#"<testsuite><testcase classname="pkg.test" name="test_it"><failure><![CDATA[Traceback (most recent call last):
  File "/tmp/test.py", line 22, in test_it
    assert False]]></failure></testcase></testsuite>"#;

    let case = testcase_of(xml);
    let failure = first_child(&case, &["failure"]).unwrap();
    let (file, line) = derive_location(&case, failure.text.as_deref());

    assert_eq!(file.unwrap(), "/tmp/test.py");
    assert_eq!(line, Some(22));
}

#[test]
fn escape_for_github_replaces_specials() {
    let input = "line1%\r\nline2";
    let escaped = escape_for_github(input);
    assert_eq!(escaped, "line1%25%0D%0Aline2");
}

#[test]
fn pick_message_prefers_attribute_then_first_line() {
    let xml_attr = r#"<failure message="boom">ignored body</failure>"#;
    let doc_attr = Document::parse(xml_attr).unwrap();
    let node_attr = child_of(&doc_attr.root_element());
    assert_eq!(pick_message(&node_attr, "fallback"), "boom");

    let xml_body = r#"<failure>

line1
line2
</failure>"#;
    let doc_body = Document::parse(xml_body).unwrap();
    let node_body = child_of(&doc_body.root_element());
    assert_eq!(pick_message(&node_body, "fallback"), "line1");
}

#[test]
fn build_annotation_formats_rel_and_line() {
    let cwd = "/repo";
    let file = "/repo/tests/test_example.py";
    let msg = "fail!";
    let out = build_annotation("error", Some(file), Some(12), msg, cwd);
    assert_eq!(out, "::error file=tests/test_example.py,line=12::fail!");
}

#[test]
fn escape_leaves_plain_text_alone() {
    assert_eq!(escape_for_github(""), "");
    assert_eq!(escape_for_github("héllo: 100"), "héllo: 100");
}

#[test]
fn escape_does_not_escape_its_own_output() {
    assert_eq!(escape_for_github("%0A"), "%250A");
    assert_eq!(escape_for_github("%%"), "%25%25");
}

#[test]
fn annotation_without_place_has_no_properties() {
    assert_eq!(build_annotation("warning", None, None, "a\nb", "/repo"), "::warning::a%0Ab");
    assert_eq!(build_annotation("error", None, Some(0), "m", "/repo"), "::error line=0::m");
    assert_eq!(
        build_annotation("error", Some("/elsewhere/t.py"), None, "m", "/repo"),
        "::error file=../elsewhere/t.py::m"
    );
    assert_eq!(
        build_annotation("error", Some("rel/t.py"), None, "m", "/repo"),
        "::error file=rel/t.py::m"
    );
}

#[test]
fn pick_message_falls_back_to_default() {
    let blank = ReportChild {
        is_element: true,
        tag: "failure".to_string(),
        message: Some("   ".to_string()),
        text: Some(" \n\t\r\n ".to_string()),
    };
    assert_eq!(pick_message(&blank, "Test failed"), "Test failed");
    let none = ReportChild { is_element: true, tag: "error".to_string(), message: None, text: None };
    assert_eq!(pick_message(&none, "Test failed"), "Test failed");
    let padded = ReportChild {
        is_element: true,
        tag: "error".to_string(),
        message: Some("  boom \u{a0}".to_string()),
        text: None,
    };
    assert_eq!(pick_message(&padded, "d"), "boom");
    let body = ReportChild {
        is_element: true,
        tag: "error".to_string(),
        message: Some("".to_string()),
        text: Some("\r\n  first line \r\nsecond".to_string()),
    };
    assert_eq!(pick_message(&body, "d"), "first line");
}

#[test]
fn testcase_name_joins_class_and_name() {
    let mut case = ReportNode {
        tag: "testcase".to_string(),
        classname: Some("pkg.test".to_string()),
        name: Some("test_it".to_string()),
        file: None,
        line: None,
        children: vec![],
    };
    assert_eq!(testcase_name(&case), "pkg.test.test_it");
    case.classname = None;
    assert_eq!(testcase_name(&case), "test_it");
    case.classname = Some("pkg.test".to_string());
    case.name = None;
    assert_eq!(testcase_name(&case), "(unknown test)");
}

#[test]
fn first_child_skips_other_nodes() {
    let case = testcase_of(
        r#"<testsuite><testcase name="t">text<system-out>x</system-out><error>e</error><failure>f</failure></testcase></testsuite>"#,
    );
    assert_eq!(first_child(&case, &["failure", "error"]).unwrap().tag, "error");
    assert_eq!(first_child(&case, &["failure"]).unwrap().tag, "failure");
    assert!(first_child(&case, &["skipped"]).is_none());
    assert!(first_child(&case, &[]).is_none());
    assert!(first_child(&case, &[""]).is_none());
}

#[test]
fn location_prefers_attributes_even_when_partial() {
    let case = ReportNode {
        tag: "testcase".to_string(),
        classname: None,
        name: None,
        file: None,
        line: Some("7".to_string()),
        children: vec![],
    };
    let body = "File \"/tmp/x.py\", line 3";
    assert_eq!(derive_location(&case, Some(body)), (None, Some(7)));
    let bad_line = ReportNode { line: Some("seven".to_string()), ..case };
    assert_eq!(
        derive_location(&bad_line, Some(body)),
        (Some("/tmp/x.py".to_string()), Some(3))
    );
    assert_eq!(derive_location(&bad_line, Some("no traceback here")), (None, None));
    assert_eq!(derive_location(&bad_line, None), (None, None));
}

#[test]
fn location_takes_first_traceback_line() {
    let case = ReportNode {
        tag: "testcase".to_string(),
        classname: None,
        name: None,
        file: None,
        line: None,
        children: vec![],
    };
    let body = "x File \"\", line 1\n File \"a.py\", line 99999999999999999999999\n File \"b.py\", line 2";
    assert_eq!(derive_location(&case, Some(body)), (Some("a.py".to_string()), None));
}

#[test]
fn location_from_captures_reads_groups() {
    let groups = Some(vec![
        Some("whole".to_string()),
        Some("f.py".to_string()),
        Some("+12".to_string()),
    ]);
    assert_eq!(location_from_captures(&groups), (Some("f.py".to_string()), Some(12)));
    let short = Some(vec![Some("whole".to_string())]);
    assert_eq!(location_from_captures(&short), (None, None));
    assert_eq!(location_from_captures(&None), (None, None));
    let odd = Some(vec![None, None, Some("x1".to_string())]);
    assert_eq!(location_from_captures(&odd), (None, None));
}

#[test]
fn format_junit_annotates_failures_and_skips() {
    let xml = r#"<testsuites><testsuite>
<testcase classname="pkg.t" name="ok"/>
<testcase classname="pkg.t" name="bad" file="/repo/tests/t.py" line="4"><failure message="boom"/></testcase>
<testcase classname="pkg.t" name="skip"><skipped message="later"/></testcase>
<testcase name="err"><error>
E   ValueError: 100% wrong
</error></testcase>
</testsuite></testsuites>"#;
    let nodes = nodes_of(xml);
    let args = FormatArgs { path: "report.xml".to_string(), include_skipped: false };
    let out = format_junit(&args, &nodes, "/repo");
    assert_eq!(
        out.lines,
        vec![
            "::error file=tests/t.py,line=4::pkg.t.bad: boom".to_string(),
            "::error::err: E   ValueError: 100%25 wrong".to_string(),
        ]
    );
    assert_eq!(out.notice, None);

    let args = FormatArgs { path: "report.xml".to_string(), include_skipped: true };
    let out = format_junit(&args, &nodes, "/repo");
    assert_eq!(
        out.lines,
        vec![
            "::error file=tests/t.py,line=4::pkg.t.bad: boom".to_string(),
            "::warning::pkg.t.skip: later".to_string(),
            "::error::err: E   ValueError: 100%25 wrong".to_string(),
        ]
    );
}

#[test]
fn format_junit_says_so_when_nothing_is_found() {
    let nodes = nodes_of(r#"<testsuite><testcase name="ok"/><other><failure/></other></testsuite>"#);
    let args = FormatArgs { path: "out/report.xml".to_string(), include_skipped: true };
    let out = format_junit(&args, &nodes, "/repo");
    assert!(out.lines.is_empty());
    assert_eq!(
        out.notice,
        Some("No failures, errors, or skipped tests found in out/report.xml".to_string())
    );
}

#[test]
fn annotation_line_lists_properties() {
    assert_eq!(annotation_line("error", Some("t.py"), Some(3), "m"), "::error file=t.py,line=3::m");
    assert_eq!(annotation_line("error", Some("t.py"), None, "m"), "::error file=t.py::m");
    assert_eq!(annotation_line("notice", None, None, ""), "::notice::");
    assert_eq!(annotation_line("", None, Some(10), "100%"), ":: line=10::100%25");
}
