use easy_scraper::Pattern;

#[test]
fn empty_document_no_match() {
    let pat = Pattern::new("<ul><li>{{x}}</li></ul>").unwrap();
    let ms = pat.matches("");
    assert_eq!(ms.len(), 0);
}

#[test]
fn empty_pattern_body_one_trivial_binding() {
    let pat = Pattern::new("<ul></ul>").unwrap();
    let ms = pat.matches("<ul><li>1</li></ul>");
    assert_eq!(ms.len(), 1);
    assert!(ms[0].get(b"x").is_none());
}

#[test]
fn no_variables_counts_embeddings() {
    let pat = Pattern::new("<li></li>").unwrap();
    let ms = pat.matches("<ul><li>1</li><li>2</li><li>3</li></ul>");
    assert_eq!(ms.len(), 3);
    assert!(ms[0].get(b"x").is_none());
    assert!(ms[1].get(b"x").is_none());
    assert!(ms[2].get(b"x").is_none());
}

#[test]
fn whitespace_in_document_is_irrelevant() {
    let pat = Pattern::new("<ul><li>{{a}}</li><li>{{b}}</li></ul>").unwrap();
    let compact = pat.matches("<ul><li>1</li><li>2</li><li>3</li></ul>");
    let airy = pat.matches(
        "\n<ul>\n\n  <li>\n    1\n  </li>\n  <li>2</li>\n\n  <li>3</li>\n</ul>\n",
    );
    assert_eq!(compact.len(), airy.len());
    for (m, n) in compact.iter().zip(airy.iter()) {
        assert_eq!(m.get(b"a").unwrap(), n.get(b"a").unwrap());
        assert_eq!(m.get(b"b").unwrap(), n.get(b"b").unwrap());
    }
    assert_eq!(compact.len(), 2);
    assert_eq!(compact[0].get(b"a").unwrap().as_slice(), b"1");
    assert_eq!(compact[0].get(b"b").unwrap().as_slice(), b"2");
}

#[test]
fn trailing_skip_is_vacuous() {
    let doc = "<ul><li>1</li><li>2</li><li>3</li></ul>";
    let plain = Pattern::new("<ul><li>{{a}}</li></ul>").unwrap().matches(doc);
    let skipped = Pattern::new("<ul><li>{{a}}</li>...</ul>").unwrap().matches(doc);
    assert_eq!(plain.len(), skipped.len());
    for (m, n) in plain.iter().zip(skipped.iter()) {
        assert_eq!(m.get(b"a").unwrap(), n.get(b"a").unwrap());
    }
}

#[test]
fn leading_skip_keeps_the_same_binding_set() {
    let doc = "<ul><li>1</li><li>2</li><li>3</li></ul>";
    let ms = Pattern::new("<ul>...<li>{{a}}</li></ul>").unwrap().matches(doc);
    // Offsets are enumerated in ascending order and every embedding counts:
    // the skip may absorb zero or more nodes at each starting offset, so
    // later items recur once per extra way of reaching them.
    let got: Vec<&[u8]> = ms.iter().map(|m| m.get(b"a").unwrap().as_slice()).collect();
    assert_eq!(got, vec![b"1" as &[u8], b"2", b"3", b"2", b"3", b"3"]);
    let set: std::collections::BTreeSet<&[u8]> = got.into_iter().collect();
    let plain = Pattern::new("<ul><li>{{a}}</li></ul>").unwrap().matches(doc);
    let plain_set: std::collections::BTreeSet<&[u8]> =
        plain.iter().map(|m| m.get(b"a").unwrap().as_slice()).collect();
    assert_eq!(set, plain_set);
}

#[test]
fn greedy_template_capture() {
    let pat = Pattern::new("<li>Test {{foo}}, {{bar}}</li>").unwrap();
    let ms = pat.matches("<ul><li>Test 1, 2, 3</li></ul>");
    assert_eq!(ms.len(), 1);
    assert_eq!(ms[0].get(b"foo").unwrap().as_slice(), b"1, 2");
    assert_eq!(ms[0].get(b"bar").unwrap().as_slice(), b"3");
}

#[test]
fn whole_capture_with_void_element() {
    let pat = Pattern::new("<div>{{b:*}}</div>").unwrap();
    let ms = pat.matches("<div>a<br>b</div>");
    assert_eq!(ms.len(), 1);
    assert_eq!(ms[0].get(b"b").unwrap().as_slice(), b"a<br>b");
}

#[test]
fn whole_capture_keeps_attributes() {
    let pat = Pattern::new("<div>{{b:*}}</div>").unwrap();
    let ms = pat.matches(r#"<div><span class="x">hi</span></div>"#);
    assert_eq!(ms.len(), 1);
    assert_eq!(ms[0].get(b"b").unwrap().as_slice(), br#"<span class="x">hi</span>"#);
}

#[test]
fn consecutive_siblings_need_adjacency() {
    // A sibling pattern only matches consecutive children of one parent.
    let pat = Pattern::new("<ul><li>{{foo}}</li><li>{{bar}}</li></ul>").unwrap();
    let ms = pat.matches("<ul><li>123</li><div><li>456</li></div></ul>");
    assert_eq!(ms.len(), 0);
}

#[test]
fn descendant_matching_through_intermediate_elements() {
    let pat = Pattern::new("<div><li>{{id}}</li></div>").unwrap();
    let ms = pat.matches("<div><ul><li>1</li></ul></div>");
    assert_eq!(ms.len(), 1);
    assert_eq!(ms[0].get(b"id").unwrap().as_slice(), b"1");
}

#[test]
fn text_placeholder_reaches_nested_text() {
    // The sibling pattern as a whole may match inside any descendant, so a
    // sole text placeholder under <ul> still finds text nested in <li>.
    let pat = Pattern::new("<ul>{{x}}</ul>").unwrap();
    let ms = pat.matches("<ul><li>deep</li></ul>");
    assert_eq!(ms.len(), 1);
    assert_eq!(ms[0].get(b"x").unwrap().as_slice(), b"deep");
}

#[test]
fn duplicate_embeddings_are_kept() {
    let pat = Pattern::new("<li>a</li>").unwrap();
    let ms = pat.matches("<ul><li>a</li><li>a</li></ul>");
    assert_eq!(ms.len(), 2);
}

#[test]
fn binding_lookup_by_name_only() {
    let pat = Pattern::new("<li>{{value}}</li>").unwrap();
    let ms = pat.matches("<ul><li>42</li></ul>");
    assert_eq!(ms.len(), 1);
    assert_eq!(ms[0].get(b"value").unwrap().as_slice(), b"42");
    assert!(ms[0].get(b"other").is_none());
    assert!(ms[0].get(b"").is_none());
}
