use js_block_tidy::candidates::sites_to_remove;
use js_block_tidy::history::VisitedSite;
use js_block_tidy::preferences::SiteWithJs;

fn visited(url: &str, visit: u64) -> VisitedSite {
    VisitedSite { url: String::from(url), visits: visit }
}

fn safelisted(url: &str) -> SiteWithJs {
    SiteWithJs { url: String::from(url), json_key: String::from("some_key") }
}

#[test]
fn sites_on_safelist_below_threshold() {
    let visited = vec![visited("https://one.com/some-site", 1)];
    let safelist = vec![safelisted("https://one.com")];

    let remove_from_safelist = sites_to_remove(safelist, visited, 2);

    assert_eq!(remove_from_safelist, vec![safelisted("https://one.com")]);
}

#[test]
fn ignore_sites_on_safelist_above_threshold() {
    let visited = vec![visited("https://one.com/some-site", 2)];
    let safelist = vec![safelisted("https://one.com")];

    let remove_from_safelist = sites_to_remove(safelist, visited, 1);

    assert!(remove_from_safelist.is_empty());
}

#[test]
fn sites_on_safelist_with_multiple_visits_below_threshold() {
    let visited = vec![
        visited("https://one.com/some-site", 1),
        visited("https://one.com/some-other-site", 1),
    ];
    let safelist = vec![safelisted("https://one.com")];

    let remove_from_safelist = sites_to_remove(safelist, visited, 3);

    assert_eq!(remove_from_safelist, vec![safelisted("https://one.com")]);
}

#[test]
fn ignore_sites_on_safelist_with_multiple_visits_above_threshold() {
    let visited = vec![
        visited("https://one.com/some-site", 2),
        visited("https://one.com/some-other-site", 2),
    ];
    let safelist = vec![safelisted("https://one.com")];

    let remove_from_safelist = sites_to_remove(safelist, visited, 3);

    assert!(remove_from_safelist.is_empty());
}

#[test]
fn aggregated_visits_at_threshold_are_not_candidates() {
    let visited = vec![
        visited("https://one.com/some-site", 1),
        visited("https://one.com/some-other-site", 1),
    ];
    let safelist = vec![safelisted("https://one.com")];

    let remove_from_safelist = sites_to_remove(safelist, visited, 2);

    assert!(remove_from_safelist.is_empty());
}

#[test]
fn visits_exactly_at_threshold_are_not_candidates() {
    let visited = vec![visited("https://one.com/some-site", 3)];
    let safelist = vec![safelisted("https://one.com")];

    assert!(sites_to_remove(safelist, visited, 3).is_empty());
}

#[test]
fn visits_one_below_threshold_are_candidates() {
    let visited = vec![visited("https://one.com/some-site", 2)];
    let safelist = vec![safelisted("https://one.com")];

    let remove_from_safelist = sites_to_remove(safelist, visited, 3);

    assert_eq!(remove_from_safelist, vec![safelisted("https://one.com")]);
}

#[test]
fn prefix_matching_does_not_cross_origins() {
    let visited = vec![visited("https://one.com/page", 5)];
    let safelist = vec![safelisted("https://one.com"), safelisted("https://onetwo.com")];

    let remove_from_safelist = sites_to_remove(safelist, visited, 3);

    // The visits count only for https://one.com; https://onetwo.com gets
    // nothing and stays below the threshold.
    assert_eq!(remove_from_safelist, vec![safelisted("https://onetwo.com")]);
}

#[test]
fn unvisited_sites_are_always_candidates() {
    let safelist = vec![safelisted("https://one.com")];

    let remove_from_safelist = sites_to_remove(safelist, vec![], 1);

    assert_eq!(remove_from_safelist, vec![safelisted("https://one.com")]);
}

#[test]
fn duplicate_safelist_entries_appear_once() {
    let safelist = vec![safelisted("https://one.com"), safelisted("https://one.com")];

    let remove_from_safelist = sites_to_remove(safelist, vec![], 1);

    assert_eq!(remove_from_safelist, vec![safelisted("https://one.com")]);
}

#[test]
fn entries_equal_in_url_but_not_key_both_stay() {
    let safelist = vec![
        SiteWithJs {
            url: String::from("https://one.com"),
            json_key: String::from("https://one.com:443,*"),
        },
        SiteWithJs {
            url: String::from("https://one.com"),
            json_key: String::from("https://one.com:8080,*"),
        },
    ];

    let remove_from_safelist = sites_to_remove(safelist, vec![], 1);

    // Identity is the full (url, key) tuple, so these are distinct entries.
    assert_eq!(remove_from_safelist.len(), 2);
}

#[test]
fn prefix_matching_accepts_the_bare_origin() {
    let visited = vec![visited("https://one.com", 4)];
    let safelist = vec![safelisted("https://one.com")];

    assert!(sites_to_remove(safelist, visited, 3).is_empty());
}
