use pushshift_scraper::nodecsv::{read_nodes, read_nodes_report, write_nodes};
use pushshift_scraper::nodeset::NodeSet;
use pushshift_scraper::nodestructs::Node;
use pushshift_scraper::psendpoint::PSEndpoint;
use pushshift_scraper::pushshiftbuilder::PushshiftBuilder;
use pushshift_scraper::scraperclient::ScraperClient;

fn node(author: &str, created_utc: u64, permalink: &str, subreddit: &str) -> Node {
    Node {
        author: author.to_string(),
        created_utc,
        permalink: permalink.to_string(),
        subreddit: subreddit.to_string(),
    }
}

fn set_of(nodes: Vec<Node>) -> NodeSet {
    let mut set = NodeSet::new();
    for n in nodes {
        set.insert(n);
    }
    set
}

#[test]
fn save_then_load_reproduces_the_record_set() {
    let set = set_of(vec![
        node("alice", 100, "/r/sub/comments/a/b/c", "sub"),
        node("bob", 200, "/r/sub/comments/d/e/f", "sub"),
        node("carol", 300, "/r/other/comments/g/h/i", "other"),
    ]);
    let text = write_nodes(&set);
    let loaded = read_nodes(&text);
    assert_eq!(loaded.len(), 3);
    assert!(loaded.contains(&node("alice", 100, "/r/sub/comments/a/b/c", "sub")));
    assert!(loaded.contains(&node("bob", 200, "/r/sub/comments/d/e/f", "sub")));
    assert!(loaded.contains(&node("carol", 300, "/r/other/comments/g/h/i", "other")));
}

#[test]
fn round_trip_survives_quoting_and_line_breaks() {
    let tricky = node("a,b", 1, "say \"hi\"\nthere", "tab\rsub");
    let plain = node("", 0, "", "");
    let set = set_of(vec![tricky.duplicate(), plain.duplicate()]);
    let text = write_nodes(&set);
    let loaded = read_nodes(&text);
    assert_eq!(loaded.len(), 2);
    assert!(loaded.contains(&tricky));
    assert!(loaded.contains(&plain));
}

#[test]
fn written_rows_have_the_exact_column_order() {
    let set = set_of(vec![node("alice", 100, "/p", "sub")]);
    let text = write_nodes(&set);
    assert_eq!(
        text,
        "author,created_utc,permalink,subreddit\nalice,100,/p,sub\n"
    );
}

#[test]
fn corrupted_rows_are_skipped_and_the_rest_kept() {
    let text = "author,created_utc,permalink,subreddit\n\
                alice,100,/p,sub\n\
                broken,notanumber,/q,sub\n\
                too,few\n\
                bob,200,/r,sub\n";
    let loaded = read_nodes(text);
    assert_eq!(loaded.len(), 2);
    assert!(loaded.contains(&node("alice", 100, "/p", "sub")));
    assert!(loaded.contains(&node("bob", 200, "/r", "sub")));
}

#[test]
fn malformed_rows_are_reported_with_their_positions() {
    let text = "author,created_utc,permalink,subreddit\n\
                alice,100,/p,sub\n\
                broken,notanumber,/q,sub\n\
                too,few\n\
                bob,200,/r,sub\n";
    let (loaded, skipped) = read_nodes_report(text);
    assert_eq!(loaded.len(), 2);
    assert!(loaded.contains(&node("alice", 100, "/p", "sub")));
    assert_eq!(skipped, vec![1, 2]);
}

#[test]
fn well_formed_file_reports_no_skips() {
    let (loaded, skipped) =
        read_nodes_report("author,created_utc,permalink,subreddit\na,1,/p,s\n");
    assert_eq!(loaded.len(), 1);
    assert!(skipped.is_empty());
}

#[test]
fn header_row_is_not_a_record() {
    let loaded = read_nodes("author,created_utc,permalink,subreddit\n");
    assert_eq!(loaded.len(), 0);
}

#[test]
fn loading_saved_client_state_resumes_the_harvest() {
    let mut builder = PushshiftBuilder::new(PSEndpoint::Comment);
    builder.subreddit("sub").unwrap();
    let urls = builder.build_multiple(&vec!["sub".to_string()]).unwrap();
    let mut client = ScraperClient::new(&urls);
    client.extend_nodes(&vec![node("alice", 100, "/p", "sub")]);
    let text = client.to_csv();
    let resumed = ScraperClient::from_csv(&urls, &text);
    assert_eq!(resumed.length_nodes(), 1);
    assert!(resumed.view_nodes().contains(&node("alice", 100, "/p", "sub")));
}

#[test]
fn duplicate_rows_load_as_one_record() {
    let text = "author,created_utc,permalink,subreddit\n\
                alice,100,/p,sub\n\
                alice,100,/p,sub\n";
    let loaded = read_nodes(text);
    assert_eq!(loaded.len(), 1);
}
