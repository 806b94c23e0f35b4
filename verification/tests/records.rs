use pushshift_scraper::nodestructs::{Node, RawNode};
use pushshift_scraper::psendpoint::PSEndpoint;
use pushshift_scraper::pushshiftbuilder::PushshiftBuilder;
use pushshift_scraper::scraperclient::{FetchOutcome, ScraperClient};

fn expected_digest(text: &str) -> String {
    hex::encode(ring::digest::digest(&ring::digest::SHA256, text.as_bytes()))
}

fn client_with(nodes: Vec<Node>) -> ScraperClient {
    let mut builder = PushshiftBuilder::new(PSEndpoint::Comment);
    builder.subreddit("sub").unwrap();
    let urls = builder.build_multiple(&vec!["sub".to_string()]).unwrap();
    let mut client = ScraperClient::new(&urls);
    client.extend_nodes(&nodes);
    client
}

#[test]
fn anonymize_hashes_author_and_topic_segment() {
    let mut client = client_with(vec![Node {
        author: "alice".to_string(),
        created_utc: 42,
        permalink: "https://x/y/z/comments/abc/topic/r1".to_string(),
        subreddit: "sub".to_string(),
    }]);
    client.hash_names();
    assert_eq!(client.length_nodes(), 1);
    let node = client.view_nodes().get(0);
    // The sixth slash-delimited segment of the permalink is the topic.
    let topic = "https://x/y/z/comments/abc/topic/r1"
        .split('/')
        .nth(5)
        .unwrap();
    assert_eq!(topic, "comments");
    assert_eq!(node.author, expected_digest("alice"));
    assert_eq!(node.permalink, expected_digest(topic));
    assert_eq!(node.created_utc, 42);
    assert_eq!(node.subreddit, "sub");
    // Hex digests: 64 lowercase hex characters, and not reversible text.
    assert_eq!(node.author.len(), 64);
    assert!(node.author.chars().all(|c| c.is_ascii_hexdigit() && !c.is_ascii_uppercase()));
    assert_ne!(node.author, "alice");
}

#[test]
fn same_author_yields_identical_digests() {
    let mut client = client_with(vec![
        Node {
            author: "alice".to_string(),
            created_utc: 1,
            permalink: "/a/b/c/d/e/f".to_string(),
            subreddit: "one".to_string(),
        },
        Node {
            author: "alice".to_string(),
            created_utc: 2,
            permalink: "/a/b/c/d/e/g".to_string(),
            subreddit: "two".to_string(),
        },
    ]);
    client.hash_names();
    assert_eq!(client.length_nodes(), 2);
    let first = client.view_nodes().get(0).author.clone();
    let second = client.view_nodes().get(1).author.clone();
    assert_eq!(first, second);
}

#[test]
fn permalink_without_topic_segment_becomes_placeholder() {
    let mut client = client_with(vec![Node {
        author: "bob".to_string(),
        created_utc: 7,
        permalink: "short".to_string(),
        subreddit: "sub".to_string(),
    }]);
    client.hash_names();
    assert_eq!(client.view_nodes().get(0).permalink, "NA");
}

#[test]
fn projection_keeps_exactly_four_fields() {
    let raw = RawNode {
        author: "carol".to_string(),
        body: "a long body".to_string(),
        created_utc: 9,
        permalink: "/p".to_string(),
        score: -3,
        subreddit: "sub".to_string(),
    };
    let node = Node::from(raw);
    assert_eq!(node.author, "carol");
    assert_eq!(node.created_utc, 9);
    assert_eq!(node.permalink, "/p");
    assert_eq!(node.subreddit, "sub");
}

#[test]
fn node_equality_is_value_based() {
    let a = Node {
        author: "x".to_string(),
        created_utc: 1,
        permalink: "/p".to_string(),
        subreddit: "s".to_string(),
    };
    let b = a.duplicate();
    assert!(a == b);
    let c = Node { created_utc: 2, ..b };
    assert!(a != c);
}

#[test]
fn merge_rounds_deduplicate_across_rounds() {
    let mut builder = PushshiftBuilder::new(PSEndpoint::Comment);
    builder.subreddit("sub").unwrap();
    let urls = builder.build_multiple(&vec!["sub".to_string()]).unwrap();
    let mut client = ScraperClient::new(&urls);
    let page = || {
        vec![RawNode {
            author: "a".to_string(),
            body: "b".to_string(),
            created_utc: 5,
            permalink: "/p".to_string(),
            score: 0,
            subreddit: "sub".to_string(),
        }]
    };
    client.scrape_nodes(&vec![FetchOutcome::Page(page())]).unwrap();
    client.scrape_nodes(&vec![FetchOutcome::Page(page())]).unwrap();
    assert_eq!(client.length_nodes(), 1);
}
