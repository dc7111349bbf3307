//! Annotations for a continuous-integration log, made from the cases of a test report.

use crate::number::{decimal, decimal_of, parse_usize, parsed_usize};
use crate::paths::{opt_text, path_relative_to, relative_to};
use crate::text::{
    chars_of, join, join_with, lemma_texts_push, split, split_on, str_eq, texts, trim_str, trimmed,
};
use vstd::prelude::*;
use vstd::string::*;

verus! {

/// The options that turn a test report into annotations.
#[derive(Debug)]
pub struct FormatArgs {
    /// The path of the report.
    pub path: String,
    /// Annotate skipped tests too.
    pub include_skipped: bool,
}

/// A node directly below a node of a report.
#[derive(Debug)]
pub struct ReportChild {
    /// Whether the node is an element.
    pub is_element: bool,
    /// The name of the element.
    pub tag: String,
    /// Its `message` attribute.
    pub message: Option<String>,
    /// The text it begins with.
    pub text: Option<String>,
}

/// A node of a report, with what an annotation is made of.
#[derive(Debug)]
pub struct ReportNode {
    /// The name of the element.
    pub tag: String,
    /// Its `classname` attribute.
    pub classname: Option<String>,
    /// Its `name` attribute.
    pub name: Option<String>,
    /// Its `file` attribute.
    pub file: Option<String>,
    /// Its `line` attribute.
    pub line: Option<String>,
    /// The nodes directly below it, in order.
    pub children: Vec<ReportChild>,
}

/// A child node as plain values.
pub struct ReportChildView {
    pub is_element: bool,
    pub tag: Seq<char>,
    pub message: Option<Seq<char>>,
    pub text: Option<Seq<char>>,
}

/// A report node as plain values.
pub struct ReportNodeView {
    pub tag: Seq<char>,
    pub classname: Option<Seq<char>>,
    pub name: Option<Seq<char>>,
    pub file: Option<Seq<char>>,
    pub line: Option<Seq<char>>,
    pub children: Seq<ReportChildView>,
}

impl View for ReportChild {
    type V = ReportChildView;

    open spec fn view(&self) -> ReportChildView {
        ReportChildView {
            is_element: self.is_element,
            tag: self.tag@,
            message: opt_text(self.message),
            text: opt_text(self.text),
        }
    }
}

/// The children of a node as plain values.
pub open spec fn child_views(children: Seq<ReportChild>) -> Seq<ReportChildView> {
    Seq::new(children.len(), |i: int| children[i]@)
}

impl View for ReportNode {
    type V = ReportNodeView;

    open spec fn view(&self) -> ReportNodeView {
        ReportNodeView {
            tag: self.tag@,
            classname: opt_text(self.classname),
            name: opt_text(self.name),
            file: opt_text(self.file),
            line: opt_text(self.line),
            children: child_views(self.children@),
        }
    }
}

/// The nodes of a report as plain values.
pub open spec fn node_views(nodes: Seq<ReportNode>) -> Seq<ReportNodeView> {
    Seq::new(nodes.len(), |i: int| nodes[i]@)
}

/// What stands for one character in the message of an annotation: the percent sign, the
/// carriage return and the line feed are written as a percent sign and two digits.
pub open spec fn escaped_char(c: char) -> Seq<char> {
    if c == '%' {
        seq!['%', '2', '5']
    } else if c == '\r' {
        seq!['%', '0', 'D']
    } else if c == '\n' {
        seq!['%', '0', 'A']
    } else {
        seq![c]
    }
}

/// The message of an annotation: each character of `message` in its escaped form.
pub open spec fn escaped(message: Seq<char>) -> Seq<char>
    decreases message.len(),
{
    if message.len() == 0 {
        Seq::empty()
    } else {
        escaped(message.drop_last()) + escaped_char(message.last())
    }
}

/// The message as it may stand in an annotation.
pub fn escape_for_github(message: &str) -> (out: String)
    ensures
        out@ == escaped(message@),
{
    let chars = chars_of(message);
    let mut out = String::new();
    let mut i: usize = 0;
    while i < chars.len()
        invariant
            i <= chars.len(),
            out@ == escaped(chars@.take(i as int)),
        decreases chars.len() - i,
    {
        let c = chars[i];
        proof {
            let next = chars@.take(i + 1);
            assert(next.drop_last() =~= chars@.take(i as int));
            assert(next.last() == c);
        }
        let ghost before = out@;
        if c == '%' {
            out.push('%');
            out.push('2');
            out.push('5');
        } else if c == '\r' {
            out.push('%');
            out.push('0');
            out.push('D');
        } else if c == '\n' {
            out.push('%');
            out.push('0');
            out.push('A');
        } else {
            out.push(c);
        }
        assert(out@ =~= before + escaped_char(c));
        i += 1;
    }
    assert(chars@.take(chars.len() as int) =~= chars@);
    out
}

/// `tag` is one of `names`.
pub open spec fn is_named(tag: Seq<char>, names: Seq<&str>) -> bool {
    exists|i: int| 0 <= i < names.len() && (#[trigger] names[i])@ == tag
}

/// The child is an element with one of the names.
pub open spec fn is_wanted(child: ReportChildView, names: Seq<&str>) -> bool {
    child.is_element && is_named(child.tag, names)
}

/// The position of the first child that is an element with one of the names.
pub open spec fn first_wanted(children: Seq<ReportChildView>, names: Seq<&str>) -> Option<int>
    decreases children.len(),
{
    if children.len() == 0 {
        None
    } else {
        match first_wanted(children.drop_last(), names) {
            Some(i) => Some(i),
            None => if is_wanted(children.last(), names) {
                Some(children.len() - 1)
            } else {
                None
            },
        }
    }
}

/// Whether `tag` is one of `names`.
pub fn tag_is_named(tag: &str, names: &[&str]) -> (named: bool)
    ensures
        named == is_named(tag@, names@),
{
    let mut i: usize = 0;
    while i < names.len()
        invariant
            i <= names.len(),
            forall|j: int| 0 <= j < i ==> (#[trigger] names@[j])@ != tag@,
        decreases names.len() - i,
    {
        if str_eq(names[i], tag) {
            return true;
        }
        i += 1;
    }
    false
}

/// The first child of `case` that is an element with one of the names.
pub fn first_child<'a>(case: &'a ReportNode, names: &[&str]) -> (child: Option<&'a ReportChild>)
    ensures
        match first_wanted(case@.children, names@) {
            Some(i) => 0 <= i < case.children@.len() && child == Some(&case.children@[i]),
            None => child is None,
        },
{
    let ghost all = case@.children;
    let mut i: usize = 0;
    assert(all.take(0) =~= Seq::<ReportChildView>::empty());
    while i < case.children.len()
        invariant
            i <= case.children.len(),
            all == case@.children,
            first_wanted(all.take(i as int), names@) is None,
        decreases case.children.len() - i,
    {
        let child = &case.children[i];
        let ghost next = all.take(i + 1);
        proof {
            assert(next.drop_last() =~= all.take(i as int));
            assert(next.last() == child@);
        }
        if child.is_element && tag_is_named(child.tag.as_str(), names) {
            proof {
                lemma_first_wanted_stays(all, names@, i + 1);
            }
            return Some(child);
        }
        i += 1;
    }
    assert(all.take(case.children.len() as int) =~= all);
    None
}

/// A child found among the first `k` is found among all.
pub proof fn lemma_first_wanted_stays(children: Seq<ReportChildView>, names: Seq<&str>, k: int)
    requires
        0 <= k <= children.len(),
        first_wanted(children.take(k), names) is Some,
    ensures
        first_wanted(children, names) == first_wanted(children.take(k), names),
    decreases children.len() - k,
{
    if k == children.len() {
        assert(children.take(k) =~= children);
    } else {
        let next = children.take(k + 1);
        assert(next.drop_last() =~= children.take(k));
        lemma_first_wanted_stays(children, names, k + 1);
    }
}

/// The name under which a case is reported: class and name with a dot between them; the
/// name alone where there is no class; a stand-in where there is no name.
pub open spec fn case_name(case: ReportNodeView) -> Seq<char> {
    match case.name {
        Some(name) => match case.classname {
            Some(class) => class + seq!['.'] + name,
            None => name,
        },
        None => "(unknown test)"@,
    }
}

/// The name under which `case` is reported.
pub fn testcase_name(case: &ReportNode) -> (name: String)
    ensures
        name@ == case_name(case@),
{
    match &case.name {
        Some(name) => match &case.classname {
            Some(class) => {
                let mut out = class.clone();
                proof {
                    reveal_strlit(".");
                    assert("."@ =~= seq!['.']);
                }
                out.append(".");
                out.append(name.as_str());
                out
            },
            None => name.clone(),
        },
        None => "(unknown test)".to_owned(),
    }
}

/// The first of the lines that is not blank, without the white space around it.
pub open spec fn first_nonblank(lines: Seq<Seq<char>>) -> Option<Seq<char>>
    decreases lines.len(),
{
    if lines.len() == 0 {
        None
    } else if trimmed(lines[0]).len() > 0 {
        Some(trimmed(lines[0]))
    } else {
        first_nonblank(lines.drop_first())
    }
}

/// The text of an optional text, or the empty text.
pub open spec fn text_or_empty(text: Option<Seq<char>>) -> Seq<char> {
    match text {
        Some(t) => t,
        None => Seq::empty(),
    }
}

/// The message of a result node: its `message` attribute without the white space around
/// it, unless that is empty; else the first line of its text that is not blank; else the
/// default.
pub open spec fn picked_message(node: ReportChildView, default: Seq<char>) -> Seq<char> {
    let attribute = trimmed(text_or_empty(node.message));
    if node.message is Some && attribute.len() > 0 {
        attribute
    } else {
        match first_nonblank(split(trimmed(text_or_empty(node.text)), '\n')) {
            Some(line) => line,
            None => default,
        }
    }
}

/// The message of the result node `node`.
pub fn pick_message(node: &ReportChild, default: &str) -> (message: String)
    ensures
        message@ == picked_message(node@, default@),
{
    match &node.message {
        Some(m) => {
            let attribute = trim_str(m.as_str());
            if !attribute.as_str().is_empty() {
                return attribute;
            }
        },
        None => {},
    }
    let text = match &node.text {
        Some(t) => trim_str(t.as_str()),
        None => String::new(),
    };
    assert(trimmed(Seq::<char>::empty()) =~= Seq::<char>::empty());
    let lines = split_on(text.as_str(), '\n');
    let ghost all = texts(lines@);
    let mut i: usize = 0;
    assert(all.skip(0) =~= all);
    assert(picked_message(node@, default@) == match first_nonblank(all) {
        Some(line) => line,
        None => default@,
    });
    while i < lines.len()
        invariant
            i <= lines.len(),
            all == texts(lines@),
            first_nonblank(all) == first_nonblank(all.skip(i as int)),
            picked_message(node@, default@) == match first_nonblank(all) {
                Some(line) => line,
                None => default@,
            },
        decreases lines.len() - i,
    {
        let ghost rest = all.skip(i as int);
        assert(rest[0] == lines@[i as int]@);
        assert(rest.drop_first() =~= all.skip(i + 1));
        let line = trim_str(lines[i].as_str());
        if !line.as_str().is_empty() {
            return line;
        }
        i += 1;
    }
    default.to_owned()
}

/// What `regex::Regex::captures` finds for a pattern in a text: none where the pattern
/// does not match or is no pattern; else the text of each group, the whole match first.
pub uninterp spec fn regex_captures(pattern: Seq<char>, text: Seq<char>) -> Option<
    Seq<Option<Seq<char>>>,
>;

/// The texts of a list of optional strings.
pub open spec fn group_texts(groups: Seq<Option<String>>) -> Seq<Option<Seq<char>>> {
    Seq::new(groups.len(), |i: int| opt_text(groups[i]))
}

/// The texts of the groups of a match.
pub open spec fn capture_texts(groups: Option<Vec<Option<String>>>) -> Option<
    Seq<Option<Seq<char>>>,
> {
    match groups {
        Some(g) => Some(group_texts(g@)),
        None => None,
    }
}

/// Compiles `pattern` with `regex::Regex::new` and searches `text` with
/// `regex::Regex::captures`: the leftmost match and the text of each of its groups.
#[verifier::external_body]
pub(crate) fn find_captures(pattern: &str, text: &str) -> (groups: Option<Vec<Option<String>>>)
    ensures
        capture_texts(groups) == regex_captures(pattern@, text@),
{
    let re = regex::Regex::new(pattern).ok()?;
    let found = re.captures(text)?;
    Some(found.iter().map(|m| m.map(|m| m.as_str().to_string())).collect())
}

/// The pattern of the line of a traceback that names a file and a line.
pub open spec fn traceback_pattern() -> Seq<char> {
    "File \"([^\"]+)\", line (\\d+)"@
}

/// The text of group `i` of a match.
pub open spec fn group_text(groups: Seq<Option<Seq<char>>>, i: int) -> Option<Seq<char>> {
    if 0 <= i < groups.len() {
        groups[i]
    } else {
        None
    }
}

/// The number that an optional text stands for.
pub open spec fn parsed_line(text: Option<Seq<char>>) -> Option<usize> {
    match text {
        Some(t) => parsed_usize(t),
        None => None,
    }
}

/// The file and line that the groups of a traceback match give: the first group is the
/// file, the second the line where it is a number.
pub open spec fn location_in(groups: Option<Seq<Option<Seq<char>>>>) -> (
    Option<Seq<char>>,
    Option<usize>,
) {
    match groups {
        Some(g) => (group_text(g, 1), parsed_line(group_text(g, 2))),
        None => (None, None),
    }
}

/// Where a case failed: its `file` and `line` attributes where it has either; else what
/// the first traceback line of the body names.
pub open spec fn location_of(case: ReportNodeView, body: Option<Seq<char>>) -> (
    Option<Seq<char>>,
    Option<usize>,
) {
    if case.file is Some || parsed_line(case.line) is Some {
        (case.file, parsed_line(case.line))
    } else {
        match body {
            Some(b) => location_in(regex_captures(traceback_pattern(), b)),
            None => (None, None),
        }
    }
}

/// The file and line that the groups of a traceback match give.
pub fn location_from_captures(groups: &Option<Vec<Option<String>>>) -> (place: (
    Option<String>,
    Option<usize>,
))
    ensures
        opt_text(place.0) == location_in(capture_texts(*groups)).0,
        place.1 == location_in(capture_texts(*groups)).1,
{
    match groups {
        Some(g) => {
            let file = if g.len() > 1 {
                g[1].clone()
            } else {
                None
            };
            let line = if g.len() > 2 {
                match &g[2] {
                    Some(text) => parse_usize(text.as_str()),
                    None => None,
                }
            } else {
                None
            };
            (file, line)
        },
        None => (None, None),
    }
}

/// Where `case` failed, `body` being the text of its result node.
pub fn derive_location(case: &ReportNode, body: Option<&str>) -> (place: (
    Option<String>,
    Option<usize>,
))
    ensures
        opt_text(place.0) == location_of(
            case@,
            match body {
                Some(b) => Some(b@),
                None => None,
            },
        ).0,
        place.1 == location_of(
            case@,
            match body {
                Some(b) => Some(b@),
                None => None,
            },
        ).1,
{
    let line_attr = match &case.line {
        Some(text) => parse_usize(text.as_str()),
        None => None,
    };
    if case.file.is_some() || line_attr.is_some() {
        return (case.file.clone(), line_attr);
    }
    match body {
        Some(b) => {
            let groups = find_captures("File \"([^\"]+)\", line (\\d+)", b);
            location_from_captures(&groups)
        },
        None => (None, None),
    }
}

/// The file as an annotation shows it: relative to the working directory where a
/// relative path can be made.
pub open spec fn shown_file(file: Seq<char>, cwd: Seq<char>) -> Seq<char> {
    match relative_to(file, cwd) {
        Some(rest) => rest,
        None => file,
    }
}

/// The properties of an annotation: its file as shown, then its line, as far as they
/// are known.
pub open spec fn annotation_parts(shown: Option<Seq<char>>, line: Option<usize>) -> Seq<Seq<char>> {
    (match shown {
        Some(f) => seq!["file="@ + f],
        None => Seq::empty(),
    }) + (match line {
        Some(l) => seq!["line="@ + decimal(l as nat)],
        None => Seq::empty(),
    })
}

/// An annotation: two colons and the level; a space and the properties with commas
/// between them, where there are any; two colons and the escaped message.
pub open spec fn annotation_text(
    level: Seq<char>,
    shown: Option<Seq<char>>,
    line: Option<usize>,
    message: Seq<char>,
) -> Seq<char> {
    let parts = annotation_parts(shown, line);
    let prefix = "::"@ + level + if parts.len() > 0 {
        seq![' '] + join(parts, seq![','])
    } else {
        Seq::empty()
    };
    prefix + "::"@ + escaped(message)
}

/// The annotation for a file, shown relative to the working directory where it can be.
pub open spec fn annotation(
    level: Seq<char>,
    file: Option<Seq<char>>,
    line: Option<usize>,
    message: Seq<char>,
    cwd: Seq<char>,
) -> Seq<char> {
    annotation_text(
        level,
        match file {
            Some(f) => Some(shown_file(f, cwd)),
            None => None,
        },
        line,
        message,
    )
}

/// The annotation of the given level with the file as it is to be shown.
pub fn annotation_line(level: &str, shown: Option<&str>, line: Option<usize>, message: &str) -> (out:
    String)
    ensures
        out@ == annotation_text(
            level@,
            match shown {
                Some(f) => Some(f@),
                None => None,
            },
            line,
            message@,
        ),
{
    let ghost shown_text: Option<Seq<char>> = match shown {
        Some(f) => Some(f@),
        None => None,
    };
    let mut parts: Vec<String> = Vec::new();
    assert(texts(parts@) =~= Seq::<Seq<char>>::empty());
    match shown {
        Some(f) => {
            let mut part = "file=".to_owned();
            part.append(f);
            proof {
                lemma_texts_push(parts@, part);
            }
            parts.push(part);
        },
        None => {},
    }
    match line {
        Some(l) => {
            let mut part = "line=".to_owned();
            part.append(decimal_of(l).as_str());
            proof {
                lemma_texts_push(parts@, part);
            }
            parts.push(part);
        },
        None => {},
    }
    assert(texts(parts@) =~= annotation_parts(shown_text, line));
    let mut out = "::".to_owned();
    out.append(level);
    if parts.len() > 0 {
        proof {
            reveal_strlit(" ");
            reveal_strlit(",");
            assert(" "@ =~= seq![' ']);
            assert(","@ =~= seq![',']);
        }
        out.append(" ");
        out.append(join_with(&parts, ",").as_str());
    }
    out.append("::");
    out.append(escape_for_github(message).as_str());
    assert(out@ =~= annotation_text(level@, shown_text, line, message@));
    out
}

/// The annotation of the given level for a place and a message.
pub fn build_annotation(
    level: &str,
    file: Option<&str>,
    line: Option<usize>,
    message: &str,
    cwd: &str,
) -> (out: String)
    ensures
        out@ == annotation(
            level@,
            match file {
                Some(f) => Some(f@),
                None => None,
            },
            line,
            message@,
            cwd@,
        ),
{
    let shown: Option<String> = match file {
        Some(f) => Some(
            match path_relative_to(f, cwd) {
                Some(rest) => rest,
                None => f.to_owned(),
            },
        ),
        None => None,
    };
    let shown_ref: Option<&str> = match &shown {
        Some(f) => Some(f.as_str()),
        None => None,
    };
    annotation_line(level, shown_ref, line, message)
}

/// The annotation that a node of a report gives: none unless it is a test case; an
/// error for a case with a failure or an error; a warning for a skipped case where
/// those are asked for.
pub open spec fn node_annotation(node: ReportNodeView, include_skipped: bool, cwd: Seq<char>) -> Option<
    Seq<char>,
> {
    if node.tag != "testcase"@ {
        None
    } else {
        match first_wanted(node.children, seq!["failure", "error"]) {
            Some(i) => Some(result_annotation(node, node.children[i], "error"@, "Test failed"@, cwd)),
            None => if include_skipped {
                match first_wanted(node.children, seq!["skipped"]) {
                    Some(i) => Some(
                        result_annotation(
                            node,
                            node.children[i],
                            "warning"@,
                            "Test skipped"@,
                            cwd,
                        ),
                    ),
                    None => None,
                }
            } else {
                None
            },
        }
    }
}

/// The annotation for the result node `child` of the case `node`.
pub open spec fn result_annotation(
    node: ReportNodeView,
    child: ReportChildView,
    level: Seq<char>,
    default: Seq<char>,
    cwd: Seq<char>,
) -> Seq<char> {
    let place = location_of(node, child.text);
    annotation(
        level,
        place.0,
        place.1,
        case_name(node) + ": "@ + picked_message(child, default),
        cwd,
    )
}

/// The annotations of the first `count` nodes, in order.
pub open spec fn report_annotations(
    nodes: Seq<ReportNodeView>,
    include_skipped: bool,
    cwd: Seq<char>,
    count: nat,
) -> Seq<Seq<char>>
    decreases count,
{
    if count == 0 {
        Seq::empty()
    } else {
        let before = report_annotations(nodes, include_skipped, cwd, (count - 1) as nat);
        match node_annotation(nodes[count - 1], include_skipped, cwd) {
            Some(a) => before.push(a),
            None => before,
        }
    }
}

/// What is said where a report gives no annotation.
pub open spec fn empty_notice(path: Seq<char>) -> Seq<char> {
    "No failures, errors, or skipped tests found in "@ + path
}

/// What a report comes to.
#[derive(Debug)]
pub struct Annotations {
    /// The annotations, in the order of the report.
    pub lines: Vec<String>,
    /// What to say on the diagnostic stream where there are none.
    pub notice: Option<String>,
}

/// The annotation for the result node `child` of the case `node`.
pub fn annotate(node: &ReportNode, child: &ReportChild, level: &str, default: &str, cwd: &str) -> (out:
    String)
    ensures
        out@ == result_annotation(node@, child@, level@, default@, cwd@),
{
    let body: Option<&str> = match &child.text {
        Some(t) => Some(t.as_str()),
        None => None,
    };
    let (file, line) = derive_location(node, body);
    let mut message = testcase_name(node);
    message.append(": ");
    message.append(pick_message(child, default).as_str());
    let file_ref: Option<&str> = match &file {
        Some(f) => Some(f.as_str()),
        None => None,
    };
    build_annotation(level, file_ref, line, message.as_str(), cwd)
}

/// The annotations for the nodes of a report, each test case with a failure or an error
/// as an error, and each skipped one as a warning where `args` asks for them.
pub fn format_junit(args: &FormatArgs, nodes: &Vec<ReportNode>, cwd: &str) -> (out: Annotations)
    ensures
        texts(out.lines@) == report_annotations(
            node_views(nodes@),
            args.include_skipped,
            cwd@,
            nodes@.len(),
        ),
        opt_text(out.notice) == if out.lines@.len() == 0 {
            Some(empty_notice(args.path@))
        } else {
            None
        },
{
    let ghost all = node_views(nodes@);
    let mut lines: Vec<String> = Vec::new();
    assert(texts(lines@) =~= report_annotations(all, args.include_skipped, cwd@, 0));
    let mut i: usize = 0;
    while i < nodes.len()
        invariant
            i <= nodes.len(),
            all == node_views(nodes@),
            texts(lines@) == report_annotations(all, args.include_skipped, cwd@, i as nat),
        decreases nodes.len() - i,
    {
        let node = &nodes[i];
        assert(all[i as int] == node@);
        if str_eq(node.tag.as_str(), "testcase") {
            let failing: [&str; 2] = ["failure", "error"];
            let skipped: [&str; 1] = ["skipped"];
            assert(failing@ =~= seq!["failure", "error"]);
            assert(skipped@ =~= seq!["skipped"]);
            match first_child(node, &failing) {
                Some(child) => {
                    let line = annotate(node, child, "error", "Test failed", cwd);
                    proof {
                        lemma_texts_push(lines@, line);
                    }
                    lines.push(line);
                },
                None => {
                    if args.include_skipped {
                        match first_child(node, &skipped) {
                            Some(child) => {
                                let line = annotate(node, child, "warning", "Test skipped", cwd);
                                proof {
                                    lemma_texts_push(lines@, line);
                                }
                                lines.push(line);
                            },
                            None => {},
                        }
                    }
                },
            }
        }
        i += 1;
    }
    let notice = if lines.len() == 0 {
        let mut text = "No failures, errors, or skipped tests found in ".to_owned();
        text.append(args.path.as_str());
        Some(text)
    } else {
        None
    };
    Annotations { lines, notice }
}

} // verus!
