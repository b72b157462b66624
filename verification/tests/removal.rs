use js_block_tidy::candidates::remove_entries_from_json;
use js_block_tidy::json::PreferencesError;
use js_block_tidy::preferences::SiteWithJs;

fn google_site() -> SiteWithJs {
    SiteWithJs {
        url: String::from("http://google.com"),
        json_key: String::from("https://www.google.com:443,*"),
    }
}

#[test]
fn remove_entry_from_preferences_json() {
    let sites_to_remove = vec![SiteWithJs {
        url: String::from("http://google.com"),
        json_key: String::from("https://www.google.com:443,*"),
    }];

    let old_file = r#"
    {
        "profile": { "content_settings": { "exceptions": { "javascript": {
            "https://www.google.com:443,*": {
                "expiration": "0",
                "last_modified": "16188888000000",
                "model": 0,
                "setting": 1
            }
        }}}}
    }"#
    .to_owned();

    assert!(!remove_entries_from_json(sites_to_remove, &old_file)
        .unwrap()
        .contains("https://www.google.com:443,*"));
}

#[test]
fn removal_keeps_unrelated_entries() {
    let old_file = r#"
    {
        "profile": { "content_settings": { "exceptions": { "javascript": {
            "https://www.google.com:443,*": { "setting": 1 },
            "https://kept.example:443,*": { "setting": 1 }
        }}}},
        "unrelated": { "keep": "me" }
    }"#
    .to_owned();

    let out = remove_entries_from_json(vec![google_site()], &old_file).unwrap();

    assert!(!out.contains("https://www.google.com:443,*"));
    assert!(out.contains("https://kept.example:443,*"));
    assert!(out.contains("unrelated"));
    assert!(out.contains("keep"));
    assert!(out.contains("me"));
}

#[test]
fn removing_an_absent_key_changes_nothing() {
    let old_file = r#"
    {
        "profile": { "content_settings": { "exceptions": { "javascript": {
            "https://kept.example:443,*": { "setting": 1 }
        }}}}
    }"#
    .to_owned();

    let once = remove_entries_from_json(vec![google_site()], &old_file).unwrap();

    assert!(once.contains("https://kept.example:443,*"));
}

#[test]
fn removal_twice_is_a_no_op() {
    let old_file = r#"
    {
        "profile": { "content_settings": { "exceptions": { "javascript": {
            "https://www.google.com:443,*": { "setting": 1 },
            "https://kept.example:443,*": { "setting": 1 }
        }}}}
    }"#
    .to_owned();

    let once = remove_entries_from_json(vec![google_site()], &old_file).unwrap();
    let twice = remove_entries_from_json(vec![google_site()], &once).unwrap();

    assert_eq!(once, twice);
}

#[test]
fn rewritten_document_is_pretty_printed_exactly() {
    let old_file =
        r#"{"profile":{"content_settings":{"exceptions":{"javascript":{}}}},"z":[1,true,null,"x\"y"]}"#
        .to_owned();

    let out = remove_entries_from_json(vec![], &old_file).unwrap();

    let expected = "{\n  \"profile\": {\n    \"content_settings\": {\n      \"exceptions\": {\n        \"javascript\": {}\n      }\n    }\n  },\n  \"z\": [\n    1,\n    true,\n    null,\n    \"x\\\"y\"\n  ]\n}";
    assert_eq!(out, expected);
}

#[test]
fn string_values_are_escaped_in_the_output() {
    let old_file =
        r#"{"profile":{"content_settings":{"exceptions":{"javascript":{}}}},"s":"a\nb\\c"}"#
        .to_owned();

    let out = remove_entries_from_json(vec![], &old_file).unwrap();

    assert!(out.contains("\"a\\nb\\\\c\""));
}

#[test]
fn unparsable_document_is_reported() {
    let r = remove_entries_from_json(vec![], "not json {{");
    assert_eq!(r, Err(PreferencesError::Unparsable));
}

#[test]
fn document_without_exception_structure_is_reported() {
    let r = remove_entries_from_json(vec![], "{}");
    assert_eq!(r, Err(PreferencesError::SchemaMismatch));

    let r = remove_entries_from_json(vec![], r#"{"profile": {"content_settings": 3}}"#);
    assert_eq!(r, Err(PreferencesError::SchemaMismatch));
}
