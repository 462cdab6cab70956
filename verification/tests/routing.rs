use mimo_proxy::route::{base_url, clean_path, resolve_path, target_url, upstream_path, DEFAULT_TARGET};

#[test]
fn escaped_blanks_are_cleaned_away() {
    assert_eq!(resolve_path("/v1%20%20%20/chat/completions"), "/chat/completions");
    assert_eq!(resolve_path("/v1%20%20/chat/completions"), "/chat/completions");
}

#[test]
fn version_prefix_is_dropped() {
    assert_eq!(resolve_path("/v1/models"), "/models");
    assert_eq!(resolve_path("/v1"), "/");
    assert_eq!(resolve_path("/v1/"), "/");
    assert_eq!(resolve_path("/"), "/");
    assert_eq!(resolve_path(""), "/");
    assert_eq!(resolve_path("%20"), "/");
}

#[test]
fn version_prefix_may_be_missing() {
    assert_eq!(resolve_path("/chat/completions"), resolve_path("/v1/chat/completions"));
    assert_eq!(resolve_path("//models//"), resolve_path("/v1///models"));
}

#[test]
fn only_one_whole_version_segment_is_dropped() {
    assert_eq!(resolve_path("/v1/v1/models"), "/v1/models");
    assert_eq!(resolve_path("/v10/models"), "/v10/models");
    assert_eq!(resolve_path("/v2/models"), "/v2/models");
    assert_eq!(resolve_path("/x/v1/models"), "/x/v1/models");
}

#[test]
fn blanks_inside_a_segment_split_it() {
    assert_eq!(resolve_path("/chat%20completions"), "/chat/completions");
    assert_eq!(clean_path("/a\u{3000}b\tc"), "/a/b/c");
    assert_eq!(clean_path("a//b/ /c/"), "/a/b/c");
}

#[test]
fn cleaning_twice_is_cleaning_once() {
    let once = clean_path(" //v1 / x//y ");
    assert_eq!(once, "/v1/x/y");
    assert_eq!(clean_path(&once), once);
}

#[test]
fn escapes_are_decoded() {
    assert_eq!(resolve_path("/%61%2Fb"), "/a/b");
    assert_eq!(resolve_path("/caf%C3%A9"), "/caf\u{e9}");
    assert_eq!(resolve_path("/50%"), "/50%");
    assert_eq!(resolve_path("/%zz%4"), "/%zz%4");
    assert_eq!(resolve_path("/a%FFb"), "/a\u{fffd}b");
    assert_eq!(resolve_path("/%2525"), "/%25");
}

#[test]
fn clean_paths_lose_their_version() {
    assert_eq!(upstream_path("/v1/a"), "/a");
    assert_eq!(upstream_path("/v1"), "/");
    assert_eq!(upstream_path("/a"), "/a");
}

#[test]
fn urls_are_put_together() {
    assert_eq!(
        target_url("https://host/v1", "/chat/completions", None),
        "https://host/v1/chat/completions"
    );
    assert_eq!(target_url("https://host/v1", "/models", Some("a=b&c")), "https://host/v1/models?a=b&c");
    assert_eq!(target_url("https://host", "/", Some("")), "https://host/?");
}

#[test]
fn base_address_has_no_slash_at_its_end() {
    assert_eq!(base_url(None), "https://token-plan-cn.xiaomimimo.com/v1");
    assert_eq!(base_url(None), DEFAULT_TARGET);
    assert_eq!(base_url(Some("http://host/x//".to_string())), "http://host/x");
    assert_eq!(base_url(Some("///".to_string())), "");
    assert_eq!(base_url(Some(String::new())), "");
}

#[test]
fn address_and_path_meet_at_one_slash() {
    let base = base_url(Some("http://host/v1//".to_string()));
    assert_eq!(target_url(&base, &resolve_path("///v1//models/"), None), "http://host/v1/models");
    assert_eq!(target_url(&base, &resolve_path("/v1"), None), "http://host/v1/");
}
