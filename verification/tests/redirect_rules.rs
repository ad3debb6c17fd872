use wisp_cli::redirects::{
    convert_path_to_regex, escape, group_placeholders, match_redirect_rule, parse_redirect_line,
    parse_redirects_file, ParsedLine, RedirectMatch, MAX_REDIRECT_RULES,
};
use wisp_cli::string_map::StringMap;

fn query(pairs: &[(&str, &str)]) -> StringMap<String> {
    let mut map = StringMap::new();
    for (k, v) in pairs {
        map.insert(k.to_string(), v.to_string());
    }
    map
}

#[test]
fn test_parse_simple_redirect() {
    let content = "/old-path /new-path";
    let rules = parse_redirects_file(content);
    assert_eq!(rules.len(), 1);
    assert_eq!(rules[0].from, "/old-path");
    assert_eq!(rules[0].to, "/new-path");
    assert_eq!(rules[0].status, 301);
    assert!(!rules[0].force);
}

#[test]
fn test_parse_with_status() {
    let content = "/temp /target 302";
    let rules = parse_redirects_file(content);
    assert_eq!(rules[0].status, 302);
}

#[test]
fn test_parse_force_redirect() {
    let content = "/force /target 301!";
    let rules = parse_redirects_file(content);
    assert!(rules[0].force);
}

#[test]
fn test_match_exact_path() {
    let rules = parse_redirects_file("/old-path /new-path");
    let m = match_redirect_rule("/old-path", &rules, None);
    assert!(m.is_some());
    assert_eq!(m.unwrap().target_path, "/new-path");
}

#[test]
fn test_match_splat() {
    let rules = parse_redirects_file("/news/* /blog/:splat");
    let m = match_redirect_rule("/news/2024/01/15/post", &rules, None);
    assert!(m.is_some());
    assert_eq!(m.unwrap().target_path, "/blog/2024/01/15/post");
}

#[test]
fn test_match_placeholders() {
    let rules = parse_redirects_file("/blog/:year/:month/:day /posts/:year-:month-:day");
    let m = match_redirect_rule("/blog/2024/01/15", &rules, None);
    assert!(m.is_some());
    assert_eq!(m.unwrap().target_path, "/posts/2024-01-15");
}

#[test]
fn patterns_become_regular_expressions() {
    assert_eq!(
        convert_path_to_regex("/old-path"),
        Some(("^/old-path/?$".to_string(), vec![]))
    );
    assert_eq!(
        convert_path_to_regex("/blog/:year/:month"),
        Some((
            "^/blog/([^/?]+)/([^/?]+)/?$".to_string(),
            vec!["year".to_string(), "month".to_string()]
        ))
    );
    assert_eq!(
        convert_path_to_regex("/news/*"),
        Some(("^/news/(.*)/?$".to_string(), vec!["splat".to_string()]))
    );
    assert_eq!(
        convert_path_to_regex("/a.b/(c)?x=1"),
        Some(("^/a\\.b/\\(c\\)/?$".to_string(), vec![]))
    );
    assert_eq!(
        convert_path_to_regex("/:id/*/x*"),
        Some((
            "^/([^/?]+)/(.*)/x(.*)/?$".to_string(),
            vec!["id".to_string(), "splat".to_string()]
        ))
    );
    assert_eq!(convert_path_to_regex(""), Some(("^/?$".to_string(), vec![])));
}

#[test]
fn escape_marks_special_characters() {
    assert_eq!(escape("a.b+c"), "a\\.b\\+c");
    assert_eq!(escape("^${}()|[]\\"), "\\^\\$\\{\\}\\(\\)\\|\\[\\]\\\\");
    assert_eq!(escape("/plain/path-*:x"), "/plain/path-*:x");
    assert_eq!(escape(""), "");
}

#[test]
fn placeholders_are_found_by_their_names() {
    assert_eq!(
        group_placeholders("/:a/:b_2/x:3/:_/:"),
        ("/([^/?]+)/([^/?]+)/x:3/([^/?]+)/:".to_string(), vec![
            "a".to_string(),
            "b_2".to_string(),
            "_".to_string()
        ])
    );
    assert_eq!(group_placeholders("::x"), (":([^/?]+)".to_string(), vec!["x".to_string()]));
    assert_eq!(group_placeholders("plain"), ("plain".to_string(), vec![]));
}

#[test]
fn lines_that_are_no_rules() {
    for line in ["", "/only-one", "/from key=value", "   ", "/from a=b c=d"] {
        assert!(matches!(parse_redirect_line(line), ParsedLine::NoRule));
    }
}

#[test]
fn a_line_with_conditions_and_status() {
    match parse_redirect_line("/store id=:id tag=new =x y= /shop/:id 302! Country=us") {
        ParsedLine::Rule(rule) => {
            assert_eq!(rule.from, "/store");
            assert_eq!(rule.to, "/shop/:id");
            assert_eq!(rule.status, 302);
            assert!(rule.force);
            let conditions = rule.query_params.unwrap();
            assert_eq!(conditions.len(), 2);
            assert_eq!(conditions.get("id"), Some(&":id".to_string()));
            assert_eq!(conditions.get("tag"), Some(&"new".to_string()));
            assert_eq!(rule.from_pattern, "^/store/?$");
            assert!(rule.from_params.is_empty());
        }
        other => panic!("{:?}", other),
    }
}

#[test]
fn status_words() {
    let status = |line: &str| match parse_redirect_line(line) {
        ParsedLine::Rule(rule) => (rule.status, rule.force),
        other => panic!("{:?}", other),
    };
    assert_eq!(status("/a /b"), (301, false));
    assert_eq!(status("/a /b 200"), (200, false));
    assert_eq!(status("/a /b 404!"), (404, true));
    assert_eq!(status("/a /b 301! 302"), (302, true));
    assert_eq!(status("/a /b abc! 307"), (307, false));
    assert_eq!(status("/a /b 70000"), (301, false));
    assert_eq!(status("/a /b +302"), (302, false));
    assert_eq!(status("/a /b -302"), (301, false));
    assert_eq!(status("/a /b 65535"), (65535, false));
    assert_eq!(status("/a /b 65536"), (301, false));
    assert_eq!(status("/a /b !"), (301, false));
    assert_eq!(status("/a https://example.com/x 302"), (302, false));
}

#[test]
fn a_file_of_rules() {
    let content = "# redirects\n\n/a /b\r\n   /c   /d   302  \n#/e /f\n/only-one\n\t/g /h 200!\n";
    let rules = parse_redirects_file(content);
    let froms: Vec<&str> = rules.iter().map(|r| r.from.as_str()).collect();
    assert_eq!(froms, vec!["/a", "/c", "/g"]);
    assert_eq!(rules[1].status, 302);
    assert_eq!(rules[2].status, 200);
    assert!(rules[2].force);
    assert!(parse_redirects_file("").is_empty());
}

#[test]
fn a_file_brings_at_most_the_limit() {
    let mut content = String::new();
    for i in 0..(MAX_REDIRECT_RULES + 5) {
        content.push_str(&format!("/from{} /to{}\n", i, i));
    }
    let rules = parse_redirects_file(&content);
    assert_eq!(rules.len(), 1000);
    assert_eq!(rules[999].from, "/from999");
}

#[test]
fn the_first_matching_rule_wins() {
    let rules = parse_redirects_file("/a/:x /first/:x\n/a/* /second/:splat\n/b /third 302!");
    assert_eq!(
        match_redirect_rule("/a/1", &rules, None),
        Some(RedirectMatch { target_path: "/first/1".to_string(), status: 301, force: false })
    );
    assert_eq!(
        match_redirect_rule("/a/1/2", &rules, None),
        Some(RedirectMatch { target_path: "/second/1/2".to_string(), status: 301, force: false })
    );
    assert_eq!(
        match_redirect_rule("b", &rules, None),
        Some(RedirectMatch { target_path: "/third".to_string(), status: 302, force: true })
    );
    assert_eq!(
        match_redirect_rule("/b/", &rules, None),
        Some(RedirectMatch { target_path: "/third".to_string(), status: 302, force: true })
    );
    assert_eq!(match_redirect_rule("/c", &rules, None), None);
    assert_eq!(match_redirect_rule("/a/1", &[], None), None);
}

#[test]
fn conditions_on_the_query() {
    let rules = parse_redirects_file("/store id=:id kind=book /shop/:id 308\n/store /all 308");
    let both = query(&[("id", "42"), ("kind", "book")]);
    assert_eq!(
        match_redirect_rule("/store", &rules, Some(&both)).unwrap().target_path,
        "/shop/42"
    );
    let other = query(&[("id", "42"), ("kind", "film")]);
    assert_eq!(match_redirect_rule("/store", &rules, Some(&other)).unwrap().target_path, "/all");
    let less = query(&[("kind", "book")]);
    assert_eq!(match_redirect_rule("/store", &rules, Some(&less)).unwrap().target_path, "/all");
    assert_eq!(match_redirect_rule("/store", &rules, None).unwrap().target_path, "/all");
}

#[test]
fn the_query_is_passed_on() {
    let rules = parse_redirects_file("/a /b\n/c /d?x=1\n/e /f 307\n/g /h 200");
    let q = query(&[("p", "1"), ("q", "two")]);
    assert_eq!(match_redirect_rule("/a", &rules, Some(&q)).unwrap().target_path, "/b?p=1&q=two");
    assert_eq!(match_redirect_rule("/c", &rules, Some(&q)).unwrap().target_path, "/d?x=1");
    assert_eq!(match_redirect_rule("/e", &rules, Some(&q)).unwrap().target_path, "/f");
    assert_eq!(match_redirect_rule("/g", &rules, Some(&q)).unwrap().target_path, "/h?p=1&q=two");
    assert_eq!(match_redirect_rule("/a", &rules, Some(&query(&[]))).unwrap().target_path, "/b");
    assert_eq!(match_redirect_rule("/a", &rules, None).unwrap().target_path, "/b");
}
