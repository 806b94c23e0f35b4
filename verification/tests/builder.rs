use pushshift_scraper::psendpoint::PSEndpoint;
use pushshift_scraper::pserror::{PSError, MAX_PS_FETCH_SIZE};
use pushshift_scraper::pushshiftbuilder::PushshiftBuilder;
use pushshift_scraper::timeconvenience::TimeConvenience;

fn get_param(pairs: &Vec<(String, String)>, key: &str) -> Option<String> {
    pairs
        .iter()
        .find(|p| p.0 == key)
        .map(|p| p.1.clone())
}

#[test]
fn build_with_no_parameters_fails() {
    let mut builder = PushshiftBuilder::new(PSEndpoint::Comment);
    let result = builder.build();
    assert!(matches!(result, Err(PSError::NoParams)));
}

#[test]
fn duplicate_parameter_fails_and_leaves_value_unchanged() {
    let mut builder = PushshiftBuilder::new(PSEndpoint::Comment);
    assert!(builder.size(5).is_ok());
    match builder.size(7) {
        Err(PSError::AlreadyAdded(param)) => assert_eq!(param, "size"),
        other => panic!("expected AlreadyAdded, got {:?}", other),
    }
    let url = builder.build().unwrap();
    assert_eq!(get_param(url.params().pairs(), "size").unwrap(), "5");
}

#[test]
fn collection_names_are_validated() {
    let mut builder = PushshiftBuilder::new(PSEndpoint::Comment);
    match builder.subreddit("a b") {
        Err(PSError::InvalidSubreddit(name)) => assert_eq!(name, "a b"),
        other => panic!("expected InvalidSubreddit, got {:?}", other),
    }
    assert!(matches!(
        builder.subreddit("a/b"),
        Err(PSError::InvalidSubreddit(_))
    ));
    assert!(matches!(builder.subreddit(""), Err(PSError::InvalidSubreddit(_))));
    assert!(builder.subreddit("Ab_c-123").is_ok());
}

#[test]
fn page_size_above_maximum_fails() {
    let mut builder = PushshiftBuilder::new(PSEndpoint::Comment);
    match builder.size(1001) {
        Err(PSError::SizeTooHigh(got)) => assert_eq!(got, 1001),
        other => panic!("expected SizeTooHigh, got {:?}", other),
    }
    assert!(builder.size(MAX_PS_FETCH_SIZE).is_ok());
    assert!(builder.build().is_ok());
}

#[test]
fn build_injects_sort_and_default_cursor() {
    let mut builder = PushshiftBuilder::new(PSEndpoint::Comment);
    builder.subreddit("rust").unwrap();
    let url = builder.build().unwrap();
    let pairs = url.params().pairs();
    assert_eq!(get_param(pairs, "subreddit").unwrap(), "rust");
    assert_eq!(get_param(pairs, "sort").unwrap(), "desc");
    assert_eq!(get_param(pairs, "sort_type").unwrap(), "created_utc");
    assert_eq!(get_param(pairs, "before").unwrap(), u32::MAX.to_string());
}

#[test]
fn build_keeps_caller_cursor() {
    let mut builder = PushshiftBuilder::new(PSEndpoint::Comment);
    builder.subreddit("rust").unwrap();
    builder.before(TimeConvenience::UTC(12345)).unwrap();
    let url = builder.build().unwrap();
    assert_eq!(get_param(url.params().pairs(), "before").unwrap(), "12345");
}

#[test]
fn built_url_renders_and_escapes() {
    let mut builder = PushshiftBuilder::new(PSEndpoint::Comment);
    builder.subreddit("rust").unwrap();
    builder.size(1000).unwrap();
    let url = builder.build().unwrap();
    assert_eq!(
        url.as_str(),
        "https://api.pushshift.io/reddit/comment/search?subreddit=rust&size=1000&sort=desc&sort_type=created_utc&before=4294967295"
    );
}

#[test]
fn build_multiple_yields_one_url_per_name() {
    let mut builder = PushshiftBuilder::new(PSEndpoint::Comment);
    builder.size(1000).unwrap();
    let urls = builder
        .build_multiple(&vec!["a".to_string(), "b".to_string()])
        .unwrap();
    assert_eq!(urls.len(), 2);
    assert_eq!(get_param(urls[0].params().pairs(), "subreddit").unwrap(), "a");
    assert_eq!(get_param(urls[1].params().pairs(), "subreddit").unwrap(), "b");
    // All other parameters agree between the two URLs.
    for key in ["size", "sort", "sort_type", "before"] {
        assert_eq!(
            get_param(urls[0].params().pairs(), key),
            get_param(urls[1].params().pairs(), key),
            "parameter {} differs",
            key
        );
    }
}

#[test]
fn build_multiple_stops_at_first_invalid_name() {
    let mut builder = PushshiftBuilder::new(PSEndpoint::Comment);
    builder.size(1000).unwrap();
    let result = builder.build_multiple(&vec!["ok".to_string(), "not ok".to_string()]);
    match result {
        Err(PSError::InvalidSubreddit(name)) => assert_eq!(name, "not ok"),
        other => panic!("expected InvalidSubreddit, got {:?}", other),
    }
}

#[test]
fn time_and_score_values_render() {
    let mut builder = PushshiftBuilder::new(PSEndpoint::Submission);
    builder.subreddit("x").unwrap();
    builder.after(TimeConvenience::Days(7)).unwrap();
    builder.score_threshold(10).unwrap();
    let url = builder.build().unwrap();
    let pairs = url.params().pairs();
    assert_eq!(get_param(pairs, "after").unwrap(), "7d");
    assert_eq!(get_param(pairs, "score").unwrap(), ">10");
}

#[test]
fn endpoint_paths_render() {
    assert_eq!(PSEndpoint::Comment.path(), "/comment/search");
    assert_eq!(PSEndpoint::Submission.path(), "/submission/search");
    assert_eq!(PSEndpoint::Subreddit.path(), "/subreddit/search");
}

#[test]
fn replace_sub_swaps_the_collection() {
    let mut builder = PushshiftBuilder::new(PSEndpoint::Comment);
    builder.subreddit("first").unwrap();
    builder.replace_sub("second").unwrap();
    let url = builder.build().unwrap();
    assert_eq!(get_param(url.params().pairs(), "subreddit").unwrap(), "second");
}

#[test]
fn error_messages_name_the_offender() {
    assert_eq!(
        PSError::NoParams.message(),
        "No parameters found. You have to specify parameters such as a subreddit."
    );
    assert_eq!(
        PSError::SizeTooHigh(1001).message(),
        "Size must be less than 1000; got: 1001"
    );
    assert_eq!(
        PSError::AlreadyAdded("size".to_string()).message(),
        "Parameter already added: size"
    );
}
