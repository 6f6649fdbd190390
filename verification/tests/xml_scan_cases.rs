use xgrep::reader::xml_scan::{attr, for_each_self_closing_tag, for_each_tag, next_self_closing_tag, next_tag, xml_unescape};

/// (attrs, body) of each element, copied out.
fn elements(xml: &[u8], tag: &str) -> Vec<(Vec<u8>, Vec<u8>)> {
    for_each_tag(xml, tag)
        .into_iter()
        .map(|s| (xml[s.attrs_start..s.attrs_end].to_vec(), xml[s.body_start..s.body_end].to_vec()))
        .collect()
}

/// attrs of each self-closing element, copied out.
fn self_closing(xml: &[u8], tag: &str) -> Vec<Vec<u8>> {
    for_each_self_closing_tag(xml, tag)
        .into_iter()
        .map(|s| xml[s.attrs_start..s.attrs_end].to_vec())
        .collect()
}

#[test]
fn for_each_tag_finds_single_element() {
    let hits = elements(b"<a>body</a>", "a");
    assert_eq!(hits.len(), 1);
    assert_eq!(hits[0].0, b"");
    assert_eq!(hits[0].1, b"body");
}

#[test]
fn for_each_tag_returns_attrs_slice() {
    let hits = elements(b"<a x=\"1\" y=\"2\">b</a>", "a");
    assert_eq!(hits.len(), 1);
    assert_eq!(hits[0].0, b" x=\"1\" y=\"2\"");
    assert_eq!(hits[0].1, b"b");
}

#[test]
fn for_each_tag_finds_multiple_elements() {
    let bodies: Vec<Vec<u8>> = elements(b"<a>1</a><a>2</a><a>3</a>", "a").into_iter().map(|e| e.1).collect();
    assert_eq!(bodies, vec![b"1".to_vec(), b"2".to_vec(), b"3".to_vec()]);
}

#[test]
fn for_each_tag_break_stops_iteration_and_returns_true() {
    // Stepping element by element with `next_tag` and stopping at the
    // second one visits exactly two elements.
    let xml = b"<a>1</a><a>2</a><a>3</a>";
    let mut count = 0;
    let mut pos = 0;
    let mut broken = false;
    while let Some(s) = next_tag(xml, "a", pos) {
        count += 1;
        if count == 2 {
            broken = true;
            break;
        }
        pos = s.next;
    }
    assert!(broken);
    assert_eq!(count, 2);
}

#[test]
fn for_each_tag_continue_throughout_returns_false() {
    let xml = b"<a>1</a>";
    let mut pos = 0;
    let mut visited = 0;
    let broken = false;
    while let Some(s) = next_tag(xml, "a", pos) {
        visited += 1;
        pos = s.next;
    }
    assert!(!broken);
    assert_eq!(visited, 1);
}

#[test]
fn for_each_tag_handles_nested_elements_with_lazy_close() {
    // First open at offset 0; the first `</a>` is the inner close at
    // offset 11, so one outer match with body "<a>inner".
    let hits = elements(b"<a><a>inner</a></a>", "a");
    assert_eq!(hits.len(), 1);
    assert_eq!(hits[0].1, b"<a>inner");
}

#[test]
fn for_each_tag_does_not_collide_with_prefix_match() {
    // `<sst>` must NOT match `tag="s"`: the tag must be followed by a boundary.
    let hits = elements(b"<sst><s>1</s></sst>", "s");
    assert_eq!(hits.len(), 1, "must match <s> exactly, not <sst>");
}

#[test]
fn for_each_tag_empty_input_yields_nothing() {
    assert_eq!(elements(b"", "a").len(), 0);
}

#[test]
fn for_each_tag_missing_close_yields_nothing_no_panic() {
    assert_eq!(elements(b"<a>body never closed", "a").len(), 0);
}

#[test]
fn for_each_tag_skips_self_closing_form() {
    let hits = elements(b"<a/><a>body</a>", "a");
    assert_eq!(hits.len(), 1, "only the non-self-closing element counts");
}

#[test]
fn for_each_tag_handles_empty_body() {
    let bodies: Vec<Vec<u8>> = elements(b"<a></a>", "a").into_iter().map(|e| e.1).collect();
    assert_eq!(bodies, vec![b"".to_vec()]);
}

#[test]
fn for_each_tag_recursion_finds_t_inside_si() {
    let xml = b"<si><r><t>hello</t></r></si>";
    let mut t_bodies: Vec<Vec<u8>> = Vec::new();
    for (_si_attrs, si_body) in elements(xml, "si") {
        for (_t_attrs, t_body) in elements(&si_body, "t") {
            t_bodies.push(t_body);
        }
    }
    assert_eq!(t_bodies, vec![b"hello".to_vec()]);
}

#[test]
fn for_each_tag_rich_text_concatenates_multiple_t_per_si() {
    let xml = b"<si><r><t>hel</t></r><r><t>lo</t></r></si>";
    let mut concat = String::new();
    for (_a, body) in elements(xml, "si") {
        for (_a2, t_body) in elements(&body, "t") {
            concat.push_str(std::str::from_utf8(&t_body).unwrap());
        }
    }
    assert_eq!(concat, "hello");
}

#[test]
fn for_each_self_closing_tag_finds_simple_element() {
    let hits = self_closing(b"<a x=\"1\"/>", "a");
    assert_eq!(hits.len(), 1);
    assert_eq!(hits[0], b" x=\"1\"");
}

#[test]
fn for_each_self_closing_tag_skips_non_self_closing() {
    assert_eq!(self_closing(b"<a>body</a>", "a").len(), 0, "non-self-closing element must not match");
}

#[test]
fn for_each_self_closing_tag_finds_multiple_relationships() {
    let xml = br#"<Relationships>
<Relationship Id="rId1" Target="../theme.xml" Type="theme"/>
<Relationship Id="rId2" Target="../comments1.xml" Type="comments"/>
</Relationships>"#;
    let mut targets: Vec<String> = Vec::new();
    for attrs in self_closing(xml, "Relationship") {
        if let Some(t) = attr(&attrs, "Target") {
            targets.push(std::str::from_utf8(t).unwrap().to_string());
        }
    }
    assert_eq!(targets, vec!["../theme.xml".to_string(), "../comments1.xml".to_string()]);
}

#[test]
fn for_each_self_closing_tag_break_stops_iteration() {
    let xml = b"<a/><a/><a/>";
    let mut count = 0;
    let mut pos = 0;
    let mut broken = false;
    while let Some(s) = next_self_closing_tag(xml, "a", pos) {
        count += 1;
        if count == 2 {
            broken = true;
            break;
        }
        pos = s.next;
    }
    assert!(broken);
    assert_eq!(count, 2);
}

#[test]
fn for_each_self_closing_tag_empty_input_yields_nothing() {
    assert_eq!(self_closing(b"", "a").len(), 0);
}

#[test]
fn for_each_self_closing_tag_missing_gt_yields_nothing_no_panic() {
    assert_eq!(self_closing(b"<a x=\"unterm", "a").len(), 0);
}

#[test]
fn for_each_self_closing_tag_does_not_collide_with_prefix_match() {
    assert_eq!(self_closing(b"<ab/><a/>", "a").len(), 1, "must match <a/> exactly, not <ab/>");
}

#[test]
fn next_tag_resumes_after_the_closing_marker() {
    let xml = b"<t>a</t><t>b</t>";
    let first = next_tag(xml, "t", 0).unwrap();
    assert_eq!(first.next, 8);
    let second = next_tag(xml, "t", first.next).unwrap();
    assert_eq!(&xml[second.body_start..second.body_end], b"b");
    assert!(next_tag(xml, "t", second.next).is_none());
}

#[test]
fn xml_unescape_round_trips_escaped_text_and_keeps_plain_text() {
    let s = "a<b> & \"c\" 'd' 张三";
    let escaped = s
        .replace('&', "&amp;")
        .replace('<', "&lt;")
        .replace('>', "&gt;")
        .replace('"', "&quot;")
        .replace('\'', "&apos;");
    assert_eq!(xml_unescape(escaped.as_bytes()), s);
    assert_eq!(xml_unescape("plain 张三 text".as_bytes()), "plain 张三 text");
}
