use social_indexer::db_driver::{
    all_step, get_step, read_ne_i32, record_start, GetAction, Row, RowDecodeError, ScanAction,
};
use social_indexer::post::Post;
use social_indexer::user::User;

fn sample_post() -> Post {
    Post {
        date: "2023-01-02 03:04".to_string(),
        content: "héllo wörld".to_string(),
        reactions: -5,
        shares: 7,
        comments: 300,
        username: "alice".to_string(),
        url: "https://example.com/x".to_string(),
        source_id: "t3_abc".to_string(),
    }
}

#[test]
fn post_default_values() {
    let p = Post::default();
    assert_eq!(p.date, "today");
    assert_eq!(p.content, "");
    assert_eq!(p.url, "");
    assert_eq!(p.username, "");
    assert_eq!(p.reactions, 0);
    assert_eq!(p.shares, 0);
    assert_eq!(p.comments, 0);
}

#[test]
fn post_new_keeps_content_but_not_username() {
    let p = Post::new("some content".to_string(), "bob".to_string());
    assert_eq!(p.content, "some content");
    assert_eq!(p.username, "");
    assert_eq!(p.date, "today");
}

#[test]
fn post_to_bytes_layout() {
    let p = Post {
        date: "d".to_string(),
        content: "ab".to_string(),
        reactions: 1,
        shares: 258,
        comments: -1,
        username: "".to_string(),
        url: "u".to_string(),
        source_id: "x".to_string(),
    };
    let b = p.to_bytes();
    let expected: Vec<u8> = vec![
        1, 0, 0, 0, 2, 1, 0, 0, 255, 255, 255, 255, 1, 0, 0, 0, b'd', 2, 0, 0, 0, b'a', b'b', 1, 0,
        0, 0, b'u', 0, 0, 0, 0,
    ];
    assert_eq!(b, expected);
}

#[test]
fn post_roundtrip_with_trailing_bytes() {
    let p = sample_post();
    let mut b = p.to_bytes();
    let len = b.len() as u64;
    b.extend_from_slice(&[0u8; 100]);
    let (q, n) = Post::from_bytes(&b);
    assert_eq!(n, len);
    assert_eq!(q.date, p.date);
    assert_eq!(q.content, p.content);
    assert_eq!(q.reactions, p.reactions);
    assert_eq!(q.shares, p.shares);
    assert_eq!(q.comments, p.comments);
    assert_eq!(q.url, p.url);
    assert_eq!(q.username, p.username);
    assert_eq!(q.source_id, "");
}

#[test]
fn post_parse_rejects_short_and_invalid_input() {
    assert!(Post::parse(&[1, 0, 0]).is_none());
    let mut b = sample_post().to_bytes();
    b.truncate(b.len() - 1);
    assert!(Post::parse(&b).is_none());
    // a date field announcing one byte that is not UTF-8
    let bad: Vec<u8> = vec![0, 0, 0, 0, 0, 0, 0, 0, 0, 0, 0, 0, 1, 0, 0, 0, 0xff];
    assert!(Post::parse(&bad).is_none());
}

#[test]
fn user_new_and_default() {
    let u = User::new(3, "carol", "2020-01-01 00:00", 10, 20, "hi");
    assert_eq!(u.id, 3);
    assert_eq!(u.username, "carol");
    assert_eq!(u.created_at, "2020-01-01 00:00");
    assert_eq!(u.followers, 10);
    assert_eq!(u.following, 20);
    assert_eq!(u.description, "hi");
    let d = User::default();
    assert_eq!(d.id, 0);
    assert_eq!(d.username, "");
}

#[test]
fn user_posts_gives_template_post() {
    let u = User::default();
    let p = u.posts().unwrap().unwrap();
    assert_eq!(p.content, "template comment");
    assert_eq!(p.username, "");
}

#[test]
fn user_roundtrip() {
    let u = User::new(-42, "dave", "2021-02-03 04:05", 1000, -1, "désc");
    let b = u.to_bytes();
    assert_eq!(&b[0..4], &[214, 255, 255, 255]);
    let (v, n) = User::from_bytes(&b);
    assert_eq!(n, b.len() as u64);
    assert_eq!(v.id, -42);
    assert_eq!(v.username, "dave");
    assert_eq!(v.created_at, "2021-02-03 04:05");
    assert_eq!(v.followers, 1000);
    assert_eq!(v.following, -1);
    assert_eq!(v.description, "désc");
}

#[test]
fn row_roundtrip_by_item_type() {
    let row = Row::Post(sample_post());
    let b = row.to_bytes();
    let (r, n) = Row::from_bytes(&b, &"post".to_string());
    assert_eq!(n, b.len() as u64);
    match r {
        Row::Post(p) => assert_eq!(p.content, "héllo wörld"),
        Row::User(_) => panic!("expected a post"),
    }
    let urow = Row::User(User::new(1, "e", "", 0, 0, ""));
    let ub = urow.to_bytes();
    match Row::from_bytes(&ub, &"user".to_string()).0 {
        Row::User(u) => assert_eq!(u.username, "e"),
        Row::Post(_) => panic!("expected a user"),
    }
}

#[test]
fn row_parse_errors() {
    let b = Row::Post(sample_post()).to_bytes();
    assert!(matches!(
        Row::parse(&b, &"comment".to_string()),
        Err(RowDecodeError::UnknownItemType)
    ));
    assert!(matches!(
        Row::parse(&b[0..5], &"post".to_string()),
        Err(RowDecodeError::Malformed)
    ));
}

#[test]
fn get_step_walks_records() {
    let t = "post".to_string();
    let rec = Row::Post(sample_post()).to_bytes();
    let mut buffer = [0u8; 2000];
    buffer[..rec.len()].copy_from_slice(&rec);
    let read = rec.len() + 10;
    match get_step(&buffer, read, &t, 1, 2) {
        GetAction::Skip { next_index, offset } => {
            assert_eq!(next_index, 2);
            assert_eq!(offset, -10);
        }
        _ => panic!("expected to skip"),
    }
    match get_step(&buffer, read, &t, 2, 2) {
        GetAction::Found(Row::Post(p)) => assert_eq!(p.username, "alice"),
        _ => panic!("expected the record"),
    }
    assert!(matches!(get_step(&buffer, 0, &t, 1, 1), GetAction::NotFound));
}

#[test]
fn all_step_collects_and_rewinds() {
    let t = "post".to_string();
    let rec = Row::Post(sample_post()).to_bytes();
    let mut buffer = [0u8; 2000];
    buffer[..rec.len()].copy_from_slice(&rec);
    let mut entries = Vec::new();
    match all_step(&mut entries, &buffer, rec.len() + 30, &t) {
        ScanAction::Rewind(n) => assert_eq!(n, 30),
        ScanAction::Stop => panic!("expected to go on"),
    }
    assert_eq!(entries.len(), 1);
    assert!(matches!(all_step(&mut entries, &buffer, rec.len(), &t), ScanAction::Stop));
    assert_eq!(entries.len(), 2);
    assert!(matches!(all_step(&mut entries, &buffer, 0, &t), ScanAction::Stop));
    assert_eq!(entries.len(), 2);
}

#[test]
fn record_start_of_last_write() {
    assert_eq!(record_start(100, 40), 60);
    assert_eq!(record_start(40, 40), 0);
    assert_eq!(record_start(1u64 << 32, 0), 0);
}

#[test]
fn read_ne_i32_reads_native_order() {
    let v: i32 = -123456;
    let mut bytes = v.to_ne_bytes().to_vec();
    bytes.push(9);
    assert_eq!(read_ne_i32(&bytes), v);
}
