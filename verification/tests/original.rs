use easy_scraper::Pattern;

#[test]
fn test_basic() {
    let doc = r#"
<!DOCTYPE html>
<html lang="en">
    <head>
    </head>
    <body>
        <ul>
            <li>1</li>
            <li>2</li>
            <li>3</li>
        </ul>
    </body>
</html>
"#;

    let pat = Pattern::new(
        r#"
<ul>
    <li>{{hoge}}</li>
</ul>
"#,
    )
    .unwrap();

    let ms = pat.matches(doc);
    assert_eq!(ms.len(), 3);
    assert_eq!(ms[0].get(b"hoge").unwrap().as_slice(), b"1");
    assert_eq!(ms[1].get(b"hoge").unwrap().as_slice(), b"2");
    assert_eq!(ms[2].get(b"hoge").unwrap().as_slice(), b"3");

    let pat = Pattern::new(
        r#"
<ul>
    <li>{{hoge}}</li>
    <li>{{moge}}</li>
</ul>
"#,
    )
    .unwrap();

    let ms = pat.matches(doc);
    assert_eq!(ms.len(), 2);
    assert_eq!(ms[0].get(b"hoge").unwrap().as_slice(), b"1");
    assert_eq!(ms[0].get(b"moge").unwrap().as_slice(), b"2");
    assert_eq!(ms[1].get(b"hoge").unwrap().as_slice(), b"2");
    assert_eq!(ms[1].get(b"moge").unwrap().as_slice(), b"3");
}

#[test]
fn test_attribute() {
    let doc = r#"
<!DOCTYPE html>
<html lang="en">
    <head>
    </head>
    <body>
        <div class="foo bar baz">
            hello
        </div>
    </body>
</html>
"#;

    let pat = Pattern::new(r#"<div>{{foo}}</div>"#).unwrap();
    let ms = pat.matches(doc);
    assert_eq!(ms.len(), 1);
    assert_eq!(ms[0].get(b"foo").unwrap().as_slice(), b"hello");

    let pat = Pattern::new(r#"<div class="">{{foo}}</div>"#).unwrap();
    let ms = pat.matches(doc);
    assert_eq!(ms.len(), 1);
    assert_eq!(ms[0].get(b"foo").unwrap().as_slice(), b"hello");

    let pat = Pattern::new(r#"<div class="foo">{{foo}}</div>"#).unwrap();
    let ms = pat.matches(doc);
    assert_eq!(ms.len(), 1);
    assert_eq!(ms[0].get(b"foo").unwrap().as_slice(), b"hello");

    let pat = Pattern::new(r#"<div class="foo bar">{{foo}}</div>"#).unwrap();
    let ms = pat.matches(doc);
    assert_eq!(ms.len(), 1);
    assert_eq!(ms[0].get(b"foo").unwrap().as_slice(), b"hello");

    let pat = Pattern::new(r#"<div class="foo bar baz">{{foo}}</div>"#).unwrap();
    let ms = pat.matches(doc);
    assert_eq!(ms.len(), 1);
    assert_eq!(ms[0].get(b"foo").unwrap().as_slice(), b"hello");

    let pat = Pattern::new(r#"<div class="baz foo bar">{{foo}}</div>"#).unwrap();
    let ms = pat.matches(doc);
    assert_eq!(ms.len(), 1);
    assert_eq!(ms[0].get(b"foo").unwrap().as_slice(), b"hello");

    let pat = Pattern::new(r#"<div class="hoge">{{foo}}</div>"#).unwrap();
    let ms = pat.matches(doc);
    assert_eq!(ms.len(), 0);

    let pat = Pattern::new(r#"<div id="">{{foo}}</div>"#).unwrap();
    let ms = pat.matches(doc);
    assert_eq!(ms.len(), 0);
}

#[test]
fn test_attribute_pattern() {
    let doc = r#"
<!DOCTYPE html>
<html lang="en">
    <head>
    </head>
    <body>
        <a href="https://www.google.com">Google</a>
        <p>
            <a href="https://github.com">GitHub</a>
        </p>
    </body>
</html>
"#;

    let pat = Pattern::new(r#"<a href="{{url}}">{{link}}</a>"#).unwrap();
    let ms = pat.matches(doc);
    assert_eq!(ms.len(), 2);
    assert_eq!(ms[0].get(b"url").unwrap().as_slice(), b"https://www.google.com");
    assert_eq!(ms[0].get(b"link").unwrap().as_slice(), b"Google");
    assert_eq!(ms[1].get(b"url").unwrap().as_slice(), b"https://github.com");
    assert_eq!(ms[1].get(b"link").unwrap().as_slice(), b"GitHub");
}

#[test]
fn test_skip() {
    let doc = r#"
<!DOCTYPE html>
<html lang="en">
    <head>
    </head>
    <body>
        <ul>
            <li>1</li>
            <li>2</li>
            <li>3</li>
        </ul>
    </body>
</html>
"#;

    let pat = Pattern::new(
        r#"
<ul>
    <li>{{hoge}}</li>
    ...
    <li>{{moge}}</li>
</ul>
"#,
    )
    .unwrap();

    let ms = pat.matches(doc);
    assert_eq!(ms.len(), 3);
    assert_eq!(ms[0].get(b"hoge").unwrap().as_slice(), b"1");
    assert_eq!(ms[0].get(b"moge").unwrap().as_slice(), b"2");
    assert_eq!(ms[1].get(b"hoge").unwrap().as_slice(), b"1");
    assert_eq!(ms[1].get(b"moge").unwrap().as_slice(), b"3");
    assert_eq!(ms[2].get(b"hoge").unwrap().as_slice(), b"2");
    assert_eq!(ms[2].get(b"moge").unwrap().as_slice(), b"3");
}

#[test]
fn test_all_match() {
    let doc = r#"
<!DOCTYPE html>
<html lang="en">
    <head>
    </head>
    <body>
        Hello
        <span>hoge</span>
        World
    </body>
</html>
"#;

    let pat = Pattern::new(r#"<body>{{body:*}}</body>"#).unwrap();

    let ms = pat.matches(doc);
    assert_eq!(ms.len(), 1);
    assert_eq!(ms[0].get(b"body").unwrap().as_slice(), b"Hello<span>hoge</span>World");
}

#[test]
fn test_partial() {
    let doc = r#"
<!DOCTYPE html>
<html lang="en">
    <head>
    </head>
    <body>
        <ul>
            <li>Test 1, 2</li>
            <li>Test 3, 4</li>
            <li>Test 5, 6</li>
        </ul>
    </body>
</html>
"#;

    let pat = Pattern::new(r#"<ul>Test {{foo}}, {{bar}}</ul>"#).unwrap();

    let ms = pat.matches(doc);
    assert_eq!(ms.len(), 3);
    assert_eq!(ms[0].get(b"foo").unwrap().as_slice(), b"1");
    assert_eq!(ms[0].get(b"bar").unwrap().as_slice(), b"2");
    assert_eq!(ms[1].get(b"foo").unwrap().as_slice(), b"3");
    assert_eq!(ms[1].get(b"bar").unwrap().as_slice(), b"4");
    assert_eq!(ms[2].get(b"foo").unwrap().as_slice(), b"5");
    assert_eq!(ms[2].get(b"bar").unwrap().as_slice(), b"6");
}

#[test]
fn test_attr_partial() {
    let doc = r#"
<!DOCTYPE html>
<html lang="en">
    <head>
    </head>
    <body>
        <a href="/users/foo/info"></a>
        <a href="/users/bar/info"></a>
        <a href="/users/baz/info"></a>
    </body>
</html>
"#;

    let pat = Pattern::new(r#"<a href="/users/{{user}}/info"></a>"#).unwrap();

    let ms = pat.matches(doc);
    assert_eq!(ms.len(), 3);
    assert_eq!(ms[0].get(b"user").unwrap().as_slice(), b"foo");
    assert_eq!(ms[1].get(b"user").unwrap().as_slice(), b"bar");
    assert_eq!(ms[2].get(b"user").unwrap().as_slice(), b"baz");
}

#[test]
fn test_table_skip() {
    let doc = r#"
<!DOCTYPE html>
<html lang="en">
    <head>
    </head>
    <body>
        <table>
            <tr><th>AAA</th><td>aaa</td></tr>
            <tr><th>BBB</th><td>bbb</td></tr>
            <tr><th>CCC</th><td>ccc</td></tr>
            <tr><th>DDD</th><td>ddd</td></tr>
            <tr><th>EEE</th><td>eee</td></tr>
        </table>
    </body>
</html>
"#;

    let pat = Pattern::new(
        r#"
<table subseq>
    <tr><th>AAA</th><td>{{a}}</td></tr>
    <tr><th>BBB</th><td>{{b}}</td></tr>
    <tr><th>DDD</th><td>{{d}}</td></tr>
</table>
"#,
    )
    .unwrap();

    let ms = pat.matches(doc);
    assert_eq!(ms.len(), 1);
    assert_eq!(ms[0].get(b"a").unwrap().as_slice(), b"aaa");
    assert_eq!(ms[0].get(b"b").unwrap().as_slice(), b"bbb");
    assert_eq!(ms[0].get(b"d").unwrap().as_slice(), b"ddd");
}
