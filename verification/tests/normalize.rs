use chrono::{TimeZone, Utc};
use social_indexer::reddit::{EARLIEST_TIMESTAMP, LATEST_TIMESTAMP};
use social_indexer::menu::{menu_choice, MenuChoice};
use social_indexer::reddit::{contains_text, RedditPost, RedditUser, RedditUserSubreddit};

fn reddit_post(url: &str, selftext: &str) -> RedditPost {
    RedditPost {
        selftext: selftext.to_string(),
        title: "A title".to_string(),
        name: "t3_xyz".to_string(),
        ups: 10,
        score: 7,
        author: "poster".to_string(),
        num_comments: 4,
        url: url.to_string(),
        created: 1431648000,
    }
}

#[test]
fn comment_thread_uses_title() {
    let mut rp = reddit_post("https://reddit.com/r/x/comments/1", "body");
    let p = rp.to_normalized();
    assert_eq!(p.content, "A title");
    assert_eq!(p.reactions, 13);
    assert_eq!(p.shares, 0);
    assert_eq!(p.comments, 4);
    assert_eq!(p.username, "poster");
    assert_eq!(p.source_id, "t3_xyz");
    assert_eq!(p.url, "https://reddit.com/r/x/comments/1");
    assert_eq!(p.date, "2015-05-15 00:00");
    assert_eq!(rp.selftext, "body");
}

#[test]
fn link_post_uses_cut_selftext() {
    let long = "ab".repeat(1000);
    let mut rp = reddit_post("https://example.com", &long);
    let p = rp.to_normalized();
    assert_eq!(p.content.len(), 1500);
    assert_eq!(p.content, long[..1500]);
    assert_eq!(rp.selftext.len(), 1500);
}

#[test]
fn empty_selftext_falls_back_to_title() {
    let mut rp = reddit_post("https://example.com", "");
    assert_eq!(rp.to_normalized().content, "A title");
}

#[test]
fn date_is_formatted_in_utc_minutes() {
    let mut rp = reddit_post("https://example.com", "x");
    rp.created = 0;
    assert_eq!(rp.to_normalized().date, "1970-01-01 00:00");
    rp.created = 8210266876799;
    assert_eq!(rp.to_normalized().date, "+262142-12-31 23:59");
    rp.created = -8334601228800;
    assert_eq!(rp.to_normalized().date, "-262143-01-01 00:00");
}

#[test]
fn user_normalization() {
    let mut ru = RedditUser {
        name: "someone".to_string(),
        created: Some(1431648060),
        id: "abc".to_string(),
        subreddit: RedditUserSubreddit { subscribers: 12, public_description: "about".to_string() },
    };
    let u = ru.to_normalized().unwrap();
    assert_eq!(u.id, 0);
    assert_eq!(u.username, "someone");
    assert_eq!(u.created_at, "2015-05-15 00:01");
    assert_eq!(u.followers, 12);
    assert_eq!(u.following, 0);
    assert_eq!(u.description, "about");
    assert_eq!(u.source_id, "abc");
    let mut anon = RedditUser::default();
    assert_eq!(anon.to_normalized().unwrap().created_at, "1970-01-01 00:00");
}

#[test]
fn text_search() {
    assert!(contains_text("a/comments/b", "comments"));
    assert!(!contains_text("a/comment/b", "comments"));
    assert!(contains_text("abc", ""));
    assert!(!contains_text("ab", "abc"));
    assert!(contains_text("comments", "comments"));
}

#[test]
fn menu_choices() {
    assert_eq!(menu_choice(Some(0)), MenuChoice::ListPosts);
    assert_eq!(menu_choice(Some(1)), MenuChoice::ListUsers);
    assert_eq!(menu_choice(Some(2)), MenuChoice::SearchReddit);
    assert_eq!(menu_choice(Some(3)), MenuChoice::Nothing);
    assert_eq!(menu_choice(None), MenuChoice::Nothing);
}

use social_indexer::urls::{decimal_text, search_url, user_about_url};

#[test]
fn decimal_texts() {
    assert_eq!(decimal_text(0), "0");
    assert_eq!(decimal_text(7), "7");
    assert_eq!(decimal_text(100), "100");
    assert_eq!(decimal_text(-45), "-45");
    assert_eq!(decimal_text(i32::MAX), "2147483647");
    assert_eq!(decimal_text(i32::MIN), "-2147483648");
}

#[test]
fn request_addresses() {
    assert_eq!(search_url("rust", Some(100)), "https://reddit.com/search.json?q=rust&limit=100&type=link");
    assert_eq!(search_url("rust", None), "https://reddit.com/search.json?q=rust&limit=10&type=link");
    assert_eq!(user_about_url("someone"), "https://reddit.com/u/someone/about.json");
}

#[test]
fn timestamp_range_is_chronos() {
    assert!(Utc.timestamp_opt(LATEST_TIMESTAMP, 0).single().is_some());
    assert!(Utc.timestamp_opt(LATEST_TIMESTAMP + 1, 0).single().is_none());
    assert!(Utc.timestamp_opt(EARLIEST_TIMESTAMP, 0).single().is_some());
    assert!(Utc.timestamp_opt(EARLIEST_TIMESTAMP - 1, 0).single().is_none());
}

#[test]
fn can_normalize_checks() {
    let mut rp = reddit_post("https://example.com", "x");
    assert!(rp.can_normalize());
    rp.created = LATEST_TIMESTAMP + 1;
    assert!(!rp.can_normalize());
    let mut rp = reddit_post("https://example.com", &("a".repeat(1499) + "é"));
    assert!(!rp.can_normalize());
    rp.url = "https://reddit.com/comments/1".to_string();
    assert!(rp.can_normalize());
    let mut big = reddit_post("https://example.com", "x");
    big.ups = i32::MAX;
    big.score = 0;
    assert!(!big.can_normalize());
    let mut ru = RedditUser::default();
    assert!(ru.can_normalize());
    ru.created = Some(i64::MIN);
    assert!(!ru.can_normalize());
}
