use js_block_tidy::candidates::{remove_entries_from_json, sites_to_remove};
use js_block_tidy::json::PreferencesError;
use js_block_tidy::preferences::{parse_site_from_key, sites_on_javascript_safelist, SiteWithJs};

#[test]
fn reads_js_enabled_sites() {
    let example = r#"
    {
        "profile": { "content_settings": { "exceptions": { "javascript": {
            "https://www.google.com:443,*": {
                "expiration": "0",
                "last_modified": "16188888000000",
                "model": 0,
                "setting": 1
            }
        }}}}
    }"#;

    let output = sites_on_javascript_safelist(example).unwrap();

    assert_eq!(output.len(), 1);
    assert_eq!(
        output[0],
        SiteWithJs {
            url: "https://www.google.com".to_owned(),
            json_key: "https://www.google.com:443,*".to_owned()
        }
    )
}

#[test]
fn sites_without_setting_one_are_excluded() {
    let example = r#"
    {
        "profile": { "content_settings": { "exceptions": { "javascript": {
            "https://blocked.example:443,*": { "setting": 2 },
            "https://missing.example:443,*": { "model": 0 },
            "https://odd.example:443,*": { "setting": "1" },
            "https://allowed.example:443,*": { "setting": 1 }
        }}}}
    }"#;

    let output = sites_on_javascript_safelist(example).unwrap();

    assert_eq!(output.len(), 1);
    assert_eq!(output[0].url, "https://allowed.example".to_owned());
}

#[test]
fn unmatched_key_is_excluded_and_never_a_candidate() {
    let example = r#"
    {
        "profile": { "content_settings": { "exceptions": { "javascript": {
            "https://www.google.com": { "setting": 1 }
        }}}}
    }"#;

    let safelist = sites_on_javascript_safelist(example).unwrap();
    assert!(safelist.is_empty());

    let candidates = sites_to_remove(safelist, vec![], 10);
    assert!(candidates.is_empty());
}

#[test]
fn parse_site_from_key_takes_the_address_before_the_port() {
    let site = parse_site_from_key("https://www.google.com:443,*".to_owned()).unwrap();
    assert_eq!(site.url, "https://www.google.com".to_owned());
    assert_eq!(site.json_key, "https://www.google.com:443,*".to_owned());
}

#[test]
fn parse_site_from_key_is_greedy() {
    let site = parse_site_from_key("https://x:8080,rest:90,z".to_owned()).unwrap();
    assert_eq!(site.url, "https://x:8080,rest".to_owned());
}

#[test]
fn parse_site_from_key_rejects_keys_without_port_and_comma() {
    assert!(parse_site_from_key("https://www.google.com".to_owned()).is_none());
    assert!(parse_site_from_key("https://x:443".to_owned()).is_none());
    assert!(parse_site_from_key("https://x:,y".to_owned()).is_none());
    assert!(parse_site_from_key("https://x:4x4,y".to_owned()).is_none());
    assert!(parse_site_from_key("".to_owned()).is_none());
}

#[test]
fn safelist_of_unparsable_text_is_reported() {
    assert_eq!(sites_on_javascript_safelist("]["), Err(PreferencesError::Unparsable));
}

#[test]
fn safelist_of_document_without_structure_is_reported() {
    assert_eq!(
        sites_on_javascript_safelist(r#"{"profile": {}}"#),
        Err(PreferencesError::SchemaMismatch)
    );
}

#[test]
fn end_to_end_stale_exception_is_found_and_removed() {
    let document = r#"
    {
        "other": "state",
        "profile": { "content_settings": { "exceptions": { "javascript": {
            "https://www.google.com:443,*": { "setting": 1 }
        }}}}
    }"#;

    let safelist = sites_on_javascript_safelist(document).unwrap();
    assert_eq!(safelist.len(), 1);
    assert_eq!(safelist[0].url, "https://www.google.com".to_owned());

    let candidates = sites_to_remove(safelist, vec![], 10);
    assert_eq!(candidates.len(), 1);
    assert_eq!(candidates[0].json_key, "https://www.google.com:443,*".to_owned());

    let rewritten = remove_entries_from_json(candidates, &document.to_owned()).unwrap();
    assert!(!rewritten.contains("https://www.google.com:443,*"));
    assert!(rewritten.contains("other"));
    assert!(rewritten.contains("state"));
    assert!(rewritten.contains("javascript"));
}
