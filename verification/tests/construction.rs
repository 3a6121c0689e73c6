use easy_scraper::Pattern;

#[test]
fn whole_placeholder_inside_text_is_a_plain_hole() {
    // Mixed text around the braces makes this one text template, whose hole
    // happens to be named "foo:*"; it is not a whole-subtree capture.
    let pat = Pattern::new("<div>hoge {{foo:*}}</div>").unwrap();
    let ms = pat.matches("<div>hoge xyz</div>");
    assert_eq!(ms.len(), 1);
    assert_eq!(ms[0].get(b"foo:*").unwrap().as_slice(), b"xyz");
}

#[test]
fn whole_placeholder_must_be_sole_child() {
    let r = Pattern::new("<div><span></span>{{foo:*}}</div>");
    assert!(r.is_err());
    let msg = r.err().unwrap();
    assert!(msg.starts_with("ill-formed pattern"));
}

#[test]
fn whole_placeholder_rejected_between_siblings() {
    let r = Pattern::new("<ul><li></li>{{foo:*}}<li></li></ul>");
    assert!(r.is_err());
}

#[test]
fn whole_placeholder_rejected_in_attribute() {
    let r = Pattern::new(r#"<div class="{{foo:*}}"></div>"#);
    assert!(r.is_err());
}

#[test]
fn unclosed_hole_rejected() {
    // The text reads as a template (it holds both braces) but its second
    // `{{` is never closed.
    let r = Pattern::new("<div>a{{x}} and {{y</div>");
    assert!(r.is_err());
}

#[test]
fn sole_whole_placeholder_accepted() {
    let r = Pattern::new("<div>{{foo:*}}</div>");
    assert!(r.is_ok());
}

#[test]
fn benign_pattern_accepted() {
    assert!(Pattern::new("<ul><li>{{x}}</li></ul>").is_ok());
    assert!(Pattern::new("").is_ok());
}

#[test]
fn parse_diagnostics_fail_construction() {
    let r = Pattern::new("<!DOCTYPE foo><div></div>");
    assert_eq!(r.err().unwrap(), "Bad DOCTYPE");

    let r = Pattern::new("<div>");
    assert_eq!(r.err().unwrap(), "Unexpected open tag at end of body");
}

#[test]
fn parse_diagnostics_are_joined_and_deduplicated() {
    let r = Pattern::new("<!DOCTYPE foo><div>");
    assert_eq!(r.err().unwrap(), "Bad DOCTYPE, Unexpected open tag at end of body");

    let r = Pattern::new("<div/><div/><p></p>");
    assert_eq!(
        r.err().unwrap(),
        "Unacknowledged self-closing tag, Unexpected open tag at end of body"
    );
}
