use zenith_router_core::manifest::{build_route_record, generate_route_manifest};
use zenith_router_core::pattern::route_path_to_regex_pattern;
use zenith_router_core::resolve::{parse_query_string, resolve_route};
use zenith_router_core::segments::{file_path_to_route_path, parse_route_segments};
use zenith_router_core::score::calculate_route_score;
use zenith_router_core::types::{RouteRecord, SegmentType};

fn lookup<'a>(pairs: &'a [(String, String)], key: &str) -> Option<&'a str> {
    pairs.iter().find(|p| p.0 == key).map(|p| p.1.as_str())
}

fn manifest_for(files: &[&str], root: &str) -> Vec<RouteRecord> {
    let pages: Vec<String> = files.iter().map(|f| f.to_string()).collect();
    generate_route_manifest(&pages, root)
}

#[test]
fn derives_dynamic_route_with_score() {
    let path = file_path_to_route_path("pages/posts/[id].zen", "pages/");
    assert_eq!(path, "/posts/:id");
    let segs = parse_route_segments(&path);
    assert_eq!(segs.len(), 2);
    assert_eq!(segs[0].segment_type, SegmentType::Static);
    assert_eq!(segs[0].param_name, None);
    assert_eq!(segs[1].segment_type, SegmentType::Dynamic);
    assert_eq!(segs[1].param_name.as_deref(), Some("id"));
    assert_eq!(calculate_route_score(&segs), 17);
}

#[test]
fn index_file_derives_root_route() {
    let path = file_path_to_route_path("pages/index.zen", "pages/");
    assert_eq!(path, "/");
    let segs = parse_route_segments(&path);
    assert!(segs.is_empty());
    assert_eq!(calculate_route_score(&segs), 100);
}

#[test]
fn nested_index_derives_like_its_directory() {
    let once = file_path_to_route_path("pages/blog/index.zen", "pages");
    let twice = file_path_to_route_path("pages/blog/index/index.zen", "pages");
    assert_eq!(once, "/blog");
    assert_eq!(twice, "/blog");
}

#[test]
fn derives_catch_all_forms() {
    assert_eq!(file_path_to_route_path("pages/[...rest].zen", "pages"), "/*rest");
    assert_eq!(file_path_to_route_path("pages/[[...slug]].zen", "pages"), "/*slug?");
    assert_eq!(
        file_path_to_route_path("pages/docs/[[...path]].zen", "pages"),
        "/docs/*path?"
    );
}

#[test]
fn unrecognized_brackets_stay_static() {
    let path = file_path_to_route_path("pages/a[b.zen", "pages");
    assert_eq!(path, "/a[b");
    let segs = parse_route_segments(&path);
    assert_eq!(segs[0].segment_type, SegmentType::Static);
}

#[test]
fn reparse_reflects_bracket_segments_in_order() {
    let path = file_path_to_route_path("pages/a/[b]/[...c].zen", "pages");
    assert_eq!(path, "/a/:b/*c");
    let segs = parse_route_segments(&path);
    let kinds: Vec<SegmentType> = segs.iter().map(|s| s.segment_type).collect();
    assert_eq!(
        kinds,
        vec![SegmentType::Static, SegmentType::Dynamic, SegmentType::CatchAll]
    );
    assert_eq!(segs[1].param_name.as_deref(), Some("b"));
    assert_eq!(segs[2].param_name.as_deref(), Some("c"));
}

#[test]
fn static_beats_dynamic_and_catchall_beats_optional() {
    let dynamic = calculate_route_score(&parse_route_segments("/a/:b"));
    let static_ = calculate_route_score(&parse_route_segments("/a/b"));
    assert!(static_ > dynamic);
    let catch_all = calculate_route_score(&parse_route_segments("/a/*c"));
    let optional = calculate_route_score(&parse_route_segments("/a/*c?"));
    assert!(catch_all > optional);
}

#[test]
fn score_examples_match_formula() {
    assert_eq!(calculate_route_score(&parse_route_segments("/posts/:id")), 17);
    assert_eq!(calculate_route_score(&parse_route_segments("/a/b/:id")), 29);
    assert_eq!(calculate_route_score(&parse_route_segments("/*rest")), 1);
    assert_eq!(calculate_route_score(&parse_route_segments("/*rest?")), 0);
}

#[test]
fn root_route_pattern_is_exact() {
    assert_eq!(route_path_to_regex_pattern("/"), r"^\/$");
}

#[test]
fn patterns_follow_the_compiled_grammar() {
    assert_eq!(route_path_to_regex_pattern("/posts/:id"), r"^\/posts\/([^/]+)\/?$");
    assert_eq!(route_path_to_regex_pattern("/*rest"), r"^\/(.+)\/?$");
    assert_eq!(route_path_to_regex_pattern("/*slug?"), r"^(?:\/(.*))?\/?$");
}

#[test]
fn static_segments_are_escaped() {
    let pattern = route_path_to_regex_pattern("/a.b");
    assert_eq!(pattern, r"^\/a\.b\/?$");
    let re = regex::Regex::new(&pattern).unwrap();
    assert!(re.is_match("/a.b"));
    assert!(!re.is_match("/aXb"));
}

#[test]
fn static_pattern_matches_exactly_itself() {
    let routes = manifest_for(&["pages/about/team.zen"], "pages");
    assert_eq!(routes[0].path, "/about/team");
    assert!(resolve_route("/about/team", &routes).unwrap().is_some());
    assert!(resolve_route("/about/team/", &routes).unwrap().is_some());
    assert!(resolve_route("/about", &routes).unwrap().is_none());
    assert!(resolve_route("/about/teamX", &routes).unwrap().is_none());
    assert!(resolve_route("/about/team/x", &routes).unwrap().is_none());

    // The stored pattern agrees with its regular-expression reading.
    let re = regex::Regex::new(&routes[0].regex).unwrap();
    assert!(re.is_match("/about/team"));
    assert!(re.is_match("/about/team/"));
    assert!(!re.is_match("/about"));
    assert!(!re.is_match("/about/teamX"));
}

#[test]
fn optional_catch_all_matches_root_and_deep_paths() {
    let routes = manifest_for(&["pages/[[...slug]].zen"], "pages");
    assert_eq!(routes[0].path, "/*slug?");

    let at_root = resolve_route("/", &routes).unwrap().unwrap();
    assert!(lookup(&at_root.params, "slug").is_none());

    let one = resolve_route("/a", &routes).unwrap().unwrap();
    assert_eq!(lookup(&one.params, "slug"), Some("a"));

    let two = resolve_route("/a/b", &routes).unwrap().unwrap();
    assert_eq!(lookup(&two.params, "slug"), Some("a/b"));
}

#[test]
fn manifest_orders_by_score_and_keeps_discovery_order_on_ties() {
    let routes = manifest_for(
        &[
            "pages/[...catchall].zen",
            "pages/posts/[id].zen",
            "pages/alpha.zen",
            "pages/beta.zen",
        ],
        "pages",
    );
    let paths: Vec<&str> = routes.iter().map(|r| r.path.as_str()).collect();
    // /posts/:id scores 17; the two static pages tie at 12 in discovery
    // order; the catch-all trails with 1.
    assert_eq!(paths, vec!["/posts/:id", "/alpha", "/beta", "/*catchall"]);
    for pair in routes.windows(2) {
        assert!(pair[0].score >= pair[1].score);
    }
}

#[test]
fn higher_scoring_route_wins_and_query_last_value_wins() {
    let routes = manifest_for(
        &["pages/[...catchall].zen", "pages/posts/[id].zen"],
        "pages",
    );
    let state = resolve_route("/posts/42?sort=new&sort=old", &routes)
        .unwrap()
        .unwrap();
    assert_eq!(state.matched.as_ref().unwrap().path, "/posts/:id");
    assert_eq!(state.path, "/posts/42");
    assert_eq!(lookup(&state.params, "id"), Some("42"));
    assert_eq!(lookup(&state.query, "sort"), Some("old"));
}

#[test]
fn unmatched_path_resolves_to_none() {
    let routes = manifest_for(&["pages/posts/[id].zen"], "pages");
    let state = resolve_route("/unknown/path", &routes).unwrap();
    assert!(state.is_none());
}

#[test]
fn resolution_is_deterministic() {
    let routes = manifest_for(
        &["pages/[...catchall].zen", "pages/posts/[id].zen"],
        "pages",
    );
    let a = resolve_route("/posts/7?x=1", &routes).unwrap().unwrap();
    let b = resolve_route("/posts/7?x=1", &routes).unwrap().unwrap();
    assert_eq!(a.path, b.path);
    assert_eq!(a.params, b.params);
    assert_eq!(a.query, b.query);
    assert_eq!(
        a.matched.as_ref().unwrap().path,
        b.matched.as_ref().unwrap().path
    );
}

#[test]
fn malformed_stored_pattern_aborts_resolution() {
    let routes = vec![RouteRecord {
        path: "/broken".to_string(),
        regex: "oops(".to_string(),
        param_names: vec![],
        score: 12,
        file_path: "pages/broken.zen".to_string(),
    }];
    let err = resolve_route("/broken", &routes).unwrap_err();
    assert_eq!(err.pattern, "oops(");
}

#[test]
fn query_string_parsing_rules() {
    let q = parse_query_string("a=1&b&=dropped&a=2&c=");
    assert_eq!(lookup(&q, "a"), Some("2"));
    assert_eq!(lookup(&q, "b"), Some(""));
    assert_eq!(lookup(&q, "c"), Some(""));
    assert_eq!(lookup(&q, ""), None);
    assert_eq!(q.len(), 3);
    assert!(parse_query_string("").is_empty());
}

#[test]
fn record_carries_all_route_data() {
    let rec = build_route_record("pages/docs/[page].zen", "pages");
    assert_eq!(rec.path, "/docs/:page");
    assert_eq!(rec.regex, r"^\/docs\/([^/]+)\/?$");
    assert_eq!(rec.param_names, vec!["page".to_string()]);
    assert_eq!(rec.score, 17);
    assert_eq!(rec.file_path, "pages/docs/[page].zen");
}

#[test]
fn file_outside_root_keeps_its_full_path() {
    let path = file_path_to_route_path("other/a.zen", "pages");
    assert_eq!(path, "/other/a");
}

#[test]
fn catch_all_captures_to_the_end_of_the_path() {
    let routes = manifest_for(&["pages/files/[...path].zen"], "pages");
    let deep = resolve_route("/files/a/b/c", &routes).unwrap().unwrap();
    assert_eq!(lookup(&deep.params, "path"), Some("a/b/c"));
    // A trailing separator is part of the greedy capture.
    let trailing = resolve_route("/files/a/", &routes).unwrap().unwrap();
    assert_eq!(lookup(&trailing.params, "path"), Some("a/"));
    // The catch-all needs at least one character after its separator.
    assert!(resolve_route("/files", &routes).unwrap().is_none());
}

#[test]
fn query_pair_splits_at_first_equals_only() {
    let q = parse_query_string("filter=a=b&x=1");
    assert_eq!(lookup(&q, "filter"), Some("a=b"));
    assert_eq!(lookup(&q, "x"), Some("1"));
}

#[test]
fn root_route_resolves_only_the_root_path() {
    let routes = manifest_for(&["pages/index.zen"], "pages");
    let root = resolve_route("/", &routes).unwrap().unwrap();
    assert_eq!(root.matched.as_ref().unwrap().path, "/");
    assert!(root.params.is_empty());
    assert!(resolve_route("/anything", &routes).unwrap().is_none());
}

#[test]
fn stored_patterns_agree_with_their_regex_reading() {
    let routes = manifest_for(
        &[
            "pages/posts/[id].zen",
            "pages/files/[...path].zen",
            "pages/[[...slug]].zen",
            "pages/about.zen",
        ],
        "pages",
    );
    let targets = ["/", "/about", "/about/", "/posts/7", "/posts/7/8", "/files/a/b", "/files"];
    for route in &routes {
        let re = regex::Regex::new(&route.regex).unwrap();
        for target in &targets {
            let ours = resolve_route(target, &std::vec![route.clone()])
                .unwrap()
                .is_some();
            assert_eq!(re.is_match(target), ours, "{} vs {}", route.regex, target);
        }
    }
}
