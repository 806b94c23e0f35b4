use pushshift_scraper::nodestructs::{Node, RawNode};
use pushshift_scraper::psendpoint::PSEndpoint;
use pushshift_scraper::pserror::PSError;
use pushshift_scraper::pushshiftbuilder::PushshiftBuilder;
use pushshift_scraper::psurl::PsUrl;
use pushshift_scraper::scraperclient::{FetchOutcome, ScraperClient};

fn raw(author: &str, created_utc: u64) -> RawNode {
    RawNode {
        author: author.to_string(),
        body: "text".to_string(),
        created_utc,
        permalink: format!("/r/sub/comments/id/topic/{}", author),
        score: 1,
        subreddit: "sub".to_string(),
    }
}

fn one_url() -> Vec<PsUrl> {
    let mut builder = PushshiftBuilder::new(PSEndpoint::Comment);
    builder.subreddit("sub").unwrap();
    builder.build_multiple(&vec!["sub".to_string()]).unwrap()
}

fn get_param(url: &PsUrl, key: &str) -> Option<String> {
    url.params().pairs().iter().find(|p| p.0 == key).map(|p| p.1.clone())
}

#[test]
fn non_empty_page_moves_cursor_to_page_minimum() {
    let urls = one_url();
    let mut client = ScraperClient::new(&urls);
    let page = vec![raw("a", 300), raw("b", 100), raw("c", 200)];
    let count = client
        .scrape_nodes(&vec![FetchOutcome::Page(page)])
        .unwrap();
    assert_eq!(count, 3);
    assert_eq!(client.urls().len(), 1);
    assert_eq!(get_param(&client.urls()[0], "before").unwrap(), "100");
}

#[test]
fn identical_raw_records_deduplicate_within_a_round() {
    let urls = one_url();
    let mut client = ScraperClient::new(&urls);
    let page = vec![raw("a", 100), raw("a", 100)];
    let count = client
        .scrape_nodes(&vec![FetchOutcome::Page(page)])
        .unwrap();
    assert_eq!(count, 1);
    assert_eq!(client.length_nodes(), 1);
}

#[test]
fn records_differing_only_in_created_utc_are_distinct() {
    let urls = one_url();
    let mut client = ScraperClient::new(&urls);
    let page = vec![raw("a", 100), raw("a", 200)];
    let count = client
        .scrape_nodes(&vec![FetchOutcome::Page(page)])
        .unwrap();
    assert_eq!(count, 2);
    assert_eq!(client.length_nodes(), 2);
}

#[test]
fn junk_filtering_removes_sentinel_authors_only() {
    let urls = one_url();
    let mut client = ScraperClient::new(&urls);
    let deleted = Node {
        author: "[deleted]".to_string(),
        created_utc: 1,
        permalink: "/p".to_string(),
        subreddit: "sub".to_string(),
    };
    let automod = Node {
        author: "AutoModerator".to_string(),
        created_utc: 2,
        permalink: "/q".to_string(),
        subreddit: "sub".to_string(),
    };
    let alice = Node {
        author: "alice".to_string(),
        created_utc: 3,
        permalink: "/r".to_string(),
        subreddit: "sub".to_string(),
    };
    client.extend_nodes(&vec![deleted, automod, alice.duplicate()]);
    assert_eq!(client.length_nodes(), 3);
    client.filter_junk();
    assert_eq!(client.length_nodes(), 1);
    assert!(client.view_nodes().contains(&alice));
}

#[test]
fn round_filters_junk_from_fetched_pages() {
    let urls = one_url();
    let mut client = ScraperClient::new(&urls);
    let page = vec![raw("[deleted]", 100), raw("bob", 200)];
    let count = client
        .scrape_nodes(&vec![FetchOutcome::Page(page)])
        .unwrap();
    assert_eq!(count, 2);
    assert_eq!(client.length_nodes(), 1);
}

#[test]
fn failed_fetch_keeps_the_query_unchanged() {
    let urls = one_url();
    let mut client = ScraperClient::new(&urls);
    let before = client.urls()[0].as_str().to_string();
    let count = client.scrape_nodes(&vec![FetchOutcome::Failure]).unwrap();
    assert_eq!(count, 0);
    assert_eq!(client.urls().len(), 1);
    assert_eq!(client.urls()[0].as_str(), before);
}

#[test]
fn empty_page_retires_the_query() {
    let urls = one_url();
    let mut client = ScraperClient::new(&urls);
    let count = client
        .scrape_nodes(&vec![FetchOutcome::Page(Vec::new())])
        .unwrap();
    assert_eq!(count, 0);
    assert_eq!(client.urls().len(), 0);
}

#[test]
fn empty_round_bumps_counter_and_backoff() {
    let urls = one_url();
    let mut client = ScraperClient::new(&urls);
    assert_eq!(client.backoff_time(), 10);
    assert_eq!(client.zero_length_scrapes(), 0);
    client.scrape_nodes(&vec![FetchOutcome::Failure]).unwrap();
    assert_eq!(client.zero_length_scrapes(), 1);
    assert_eq!(client.backoff_time(), 60);
    client.scrape_nodes(&vec![FetchOutcome::Failure]).unwrap();
    assert_eq!(client.zero_length_scrapes(), 2);
    assert_eq!(client.backoff_time(), 60);
}

#[test]
fn harvest_reaches_complete_without_stopping_mid_round() {
    let urls = one_url();
    let mut client = ScraperClient::new(&urls);
    let rounds = vec![
        vec![FetchOutcome::Page(vec![raw("a", 1), raw("b", 2), raw("c", 3)])],
        vec![FetchOutcome::Page(Vec::new())],
    ];
    let result = client.scrape_until(2, &rounds);
    assert!(result.is_ok());
    // The whole page lands even though the target was two records.
    assert_eq!(client.length_nodes(), 3);
}

#[test]
fn exhausted_source_reports_no_more_nodes() {
    let urls = one_url();
    let mut client = ScraperClient::new(&urls);
    let result = client.scrape_until(10, &Vec::new());
    assert!(matches!(result, Err(PSError::NoMoreNodes)));
    assert_eq!(client.zero_length_scrapes(), 3);
    assert!(client.exhausted());
    assert_eq!(client.length_nodes(), 0);
}

#[test]
fn already_satisfied_target_needs_no_round() {
    let urls = one_url();
    let mut client = ScraperClient::new(&urls);
    let result = client.scrape_until(0, &Vec::new());
    assert!(result.is_ok());
}

#[test]
fn user_urls_are_deduplicated_by_author() {
    let urls = one_url();
    let mut client = ScraperClient::new(&urls);
    let page = vec![raw("a", 1), raw("a", 2), raw("b", 3)];
    client.scrape_nodes(&vec![FetchOutcome::Page(page)]).unwrap();
    let mut users = client.user_urls();
    users.sort();
    assert_eq!(
        users,
        vec![
            "https://reddit.com/user/a.json".to_string(),
            "https://reddit.com/user/b.json".to_string(),
        ]
    );
}
