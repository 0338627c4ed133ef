//! Posts and their on-disk record: three little-endian counters, then the
//! date, content, url and username as length-prefixed UTF-8 fields.

use crate::codec::{
    field_bytes, fields_at, fields_bytes, fits_field, lemma_fields_at, lemma_u32_at, push_field,
    push_u32_le, read_fields_at, read_u32_at, u32_at,
};
use vstd::bytes::{lemma_auto_spec_u32_to_from_le_bytes, spec_u32_from_le_bytes, spec_u32_to_le_bytes};
use vstd::prelude::*;

verus! {

broadcast use vstd::string::to_string_from_display_ensures_for_str;

pub struct Post {
    pub date: String,
    pub content: String,
    pub reactions: i32,
    pub shares: i32,
    pub comments: i32,
    pub username: String,
    pub url: String,
    /// Identifier of the post at its source; not part of the record.
    pub source_id: String,
}

/// The abstract value of a `Post`: its texts as character sequences.
pub struct PostView {
    pub date: Seq<char>,
    pub content: Seq<char>,
    pub reactions: i32,
    pub shares: i32,
    pub comments: i32,
    pub username: Seq<char>,
    pub url: Seq<char>,
    pub source_id: Seq<char>,
}

impl View for Post {
    type V = PostView;

    open spec fn view(&self) -> PostView {
        PostView {
            date: self.date@,
            content: self.content@,
            reactions: self.reactions,
            shares: self.shares,
            comments: self.comments,
            username: self.username@,
            url: self.url@,
            source_id: self.source_id@,
        }
    }
}

impl PostView {
    /// Every text that the record stores fits its length prefix.
    pub open spec fn fits_record(self) -> bool {
        &&& fits_field(self.date)
        &&& fits_field(self.content)
        &&& fits_field(self.url)
        &&& fits_field(self.username)
    }

    /// The same post as it comes back from its record: the source id is not
    /// stored, so it reads back empty.
    pub open spec fn as_stored(self) -> PostView {
        PostView { source_id: Seq::empty(), ..self }
    }
}

/// The record of a post.
pub open spec fn post_bytes(p: PostView) -> Seq<u8> {
    spec_u32_to_le_bytes(p.reactions as u32) + spec_u32_to_le_bytes(p.shares as u32)
        + spec_u32_to_le_bytes(p.comments as u32) + fields_bytes(
        seq![p.date, p.content, p.url, p.username],
    )
}

/// The post whose record starts `b`, and the record's length; `None` when `b`
/// does not start with a complete, well-formed record.
pub open spec fn parse_post(b: Seq<u8>) -> Option<(PostView, int)> {
    match (u32_at(b, 0), u32_at(b, 4), u32_at(b, 8), fields_at(b, 12, 4)) {
        (Some(reactions), Some(shares), Some(comments), Some((fs, end))) => Some(
            (
                PostView {
                    date: fs[0],
                    content: fs[1],
                    reactions: reactions as i32,
                    shares: shares as i32,
                    comments: comments as i32,
                    username: fs[3],
                    url: fs[2],
                    source_id: Seq::empty(),
                },
                end,
            ),
        ),
        _ => None,
    }
}

/// A signed counter stored through its unsigned bit pattern reads back unchanged.
pub proof fn lemma_i32_bits(x: i32)
    ensures
        ((x as u32) as i32) == x,
{
    assert(((x as u32) as i32) == x) by (bit_vector);
}

impl Default for Post {
    fn default() -> (p: Post)
        ensures
            p@ == (PostView {
                date: "today"@,
                content: ""@,
                reactions: 0,
                shares: 0,
                comments: 0,
                username: ""@,
                url: ""@,
                source_id: ""@,
            }),
    {
        Post {
            date: "today".to_string(),
            content: "".to_string(),
            url: "".to_string(),
            username: "".to_string(),
            reactions: 0,
            shares: 0,
            comments: 0,
            source_id: "".to_string(),
        }
    }
}

impl Post {
    /// A post with the given content and every other field at its default;
    /// the username is not kept.
    pub fn new(content: String, username: String) -> (p: Post)
        ensures
            p@ == (PostView {
                date: "today"@,
                content: content@,
                reactions: 0,
                shares: 0,
                comments: 0,
                username: ""@,
                url: ""@,
                source_id: ""@,
            }),
    {
        let d = Post::default();
        Post { content: content, ..d }
    }

    /// The record of this post.
    pub fn to_bytes(&self) -> (r: Vec<u8>)
        ensures
            r@ == post_bytes(self@),
    {
        let mut out: Vec<u8> = Vec::new();
        push_u32_le(&mut out, #[verifier::truncate] (self.reactions as u32));
        push_u32_le(&mut out, #[verifier::truncate] (self.shares as u32));
        push_u32_le(&mut out, #[verifier::truncate] (self.comments as u32));
        let ghost head = out@;
        push_field(&mut out, &self.date);
        push_field(&mut out, &self.content);
        push_field(&mut out, &self.url);
        push_field(&mut out, &self.username);
        proof {
            let fs = seq![self.date@, self.content@, self.url@, self.username@];
            assert(fs.drop_last().drop_last().drop_last().drop_last() =~= Seq::<Seq<char>>::empty());
            assert(fs.drop_last().drop_last().drop_last() =~= seq![self.date@]);
            assert(fs.drop_last().drop_last() =~= seq![self.date@, self.content@]);
            assert(fs.drop_last() =~= seq![self.date@, self.content@, self.url@]);
            reveal_with_fuel(fields_bytes, 5);
            assert(fields_bytes(fs) =~= field_bytes(self.date@) + field_bytes(self.content@)
                + field_bytes(self.url@) + field_bytes(self.username@));
            assert(out@ =~= post_bytes(self@));
        }
        out
    }

    /// The post whose record starts `bytes`, with the record's length, or
    /// `None` when `bytes` does not start with a well-formed record.
    pub fn parse(bytes: &[u8]) -> (r: Option<(Post, u64)>)
        ensures
            match parse_post(bytes@) {
                Some((p, end)) => r matches Some((q, n)) && q@ == p && n == end,
                None => r is None,
            },
    {
        let (reactions, _) = match read_u32_at(bytes, 0) {
            Some(x) => x,
            None => return None,
        };
        let (shares, _) = match read_u32_at(bytes, 4) {
            Some(x) => x,
            None => return None,
        };
        let (comments, _) = match read_u32_at(bytes, 8) {
            Some(x) => x,
            None => return None,
        };
        let (mut fs, end) = match read_fields_at(bytes, 12, 4) {
            Some(x) => x,
            None => return None,
        };
        let ghost texts = fs@;
        let username = fs.pop().unwrap();
        let url = fs.pop().unwrap();
        let content = fs.pop().unwrap();
        let date = fs.pop().unwrap();
        proof {
            assert(username@ == texts[3]@);
            assert(url@ == texts[2]@);
            assert(content@ == texts[1]@);
            assert(date@ == texts[0]@);
        }
        let p = Post {
            reactions: reactions as i32,
            shares: shares as i32,
            comments: comments as i32,
            date,
            content,
            url,
            username,
            source_id: String::new(),
        };
        Some((p, end as u64))
    }

    /// The post whose record starts `bytes`, with the record's length.
    pub fn from_bytes(bytes: &[u8]) -> (r: (Post, u64))
        requires
            parse_post(bytes@) is Some,
        ensures
            r.0@ == parse_post(bytes@).unwrap().0,
            r.1 == parse_post(bytes@).unwrap().1,
    {
        Post::parse(bytes).unwrap()
    }
}

/// A post's record reads back as the same post (without its source id), and
/// reading stops right after it, whatever bytes follow.
pub proof fn lemma_post_roundtrip(p: PostView, rest: Seq<u8>)
    requires
        p.fits_record(),
    ensures
        parse_post(post_bytes(p) + rest) == Some((p.as_stored(), post_bytes(p).len() as int)),
{
    lemma_auto_spec_u32_to_from_le_bytes();
    let r = spec_u32_to_le_bytes(p.reactions as u32);
    let s = spec_u32_to_le_bytes(p.shares as u32);
    let c = spec_u32_to_le_bytes(p.comments as u32);
    let fs = seq![p.date, p.content, p.url, p.username];
    let f = fields_bytes(fs);
    let b = post_bytes(p) + rest;
    assert(r.len() == 4 && s.len() == 4 && c.len() == 4);
    assert(post_bytes(p) == r + s + c + f);
    assert(b.subrange(0, 4) =~= r);
    assert(b.subrange(4, 8) =~= s);
    assert(b.subrange(8, 12) =~= c);
    lemma_u32_at(b, 0, p.reactions as u32);
    lemma_u32_at(b, 4, p.shares as u32);
    lemma_u32_at(b, 8, p.comments as u32);
    assert(b.subrange(12, 12 + f.len() as int) =~= f);
    assert forall|j: int| 0 <= j < fs.len() implies fits_field(#[trigger] fs[j]) by {}
    lemma_fields_at(b, 12, fs);
    lemma_i32_bits(p.reactions);
    lemma_i32_bits(p.shares);
    lemma_i32_bits(p.comments);
}

/// The post record's layout: bytes 0..4, 4..8 and 8..12 hold the
/// reactions, shares, comments, each as a little-endian word; the date, content, url, username
/// fields follow in that order.
pub proof fn lemma_post_layout(p: PostView)
    ensures
        post_bytes(p).subrange(0, 4) == spec_u32_to_le_bytes(p.reactions as u32),
        post_bytes(p).subrange(4, 8) == spec_u32_to_le_bytes(p.shares as u32),
        post_bytes(p).subrange(8, 12) == spec_u32_to_le_bytes(p.comments as u32),
        post_bytes(p).subrange(12, post_bytes(p).len() as int) == field_bytes(p.date) + field_bytes(p.content) + field_bytes(p.url) + field_bytes(p.username),
{
    lemma_auto_spec_u32_to_from_le_bytes();
    let w0 = spec_u32_to_le_bytes(p.reactions as u32);
    let w1 = spec_u32_to_le_bytes(p.shares as u32);
    let w2 = spec_u32_to_le_bytes(p.comments as u32);
    assert(w0.len() == 4 && w1.len() == 4 && w2.len() == 4);
    let fs = seq![p.date, p.content, p.url, p.username];
    reveal_with_fuel(fields_bytes, 5);
    assert(fs.drop_last().drop_last().drop_last().drop_last() =~= Seq::<Seq<char>>::empty());
    assert(fs.drop_last().drop_last().drop_last() =~= seq![p.date]);
    assert(fs.drop_last().drop_last() =~= seq![p.date, p.content]);
    assert(fs.drop_last() =~= seq![p.date, p.content, p.url]);
    let f = fields_bytes(fs);
    assert(f =~= field_bytes(p.date) + field_bytes(p.content) + field_bytes(p.url) + field_bytes(p.username));
    let all = post_bytes(p);
    assert(all == w0 + w1 + w2 + f);
    assert(all.subrange(0, 4) =~= w0);
    assert(all.subrange(4, 8) =~= w1);
    assert(all.subrange(8, 12) =~= w2);
    assert(all.subrange(12, all.len() as int) =~= f);
}

/// Reading a post takes its reactions, shares, comments from bytes 0..4, 4..8 and
/// 8..12 as little-endian words, then its date, content, url, username from the
/// fields that follow, in that order.
pub proof fn lemma_post_read_layout(b: Seq<u8>)
    ensures
        parse_post(b) matches Some((r, _)) ==> {
            &&& r.reactions == spec_u32_from_le_bytes(b.subrange(0, 4)) as i32
            &&& r.shares == spec_u32_from_le_bytes(b.subrange(4, 8)) as i32
            &&& r.comments == spec_u32_from_le_bytes(b.subrange(8, 12)) as i32
            &&& fields_at(b, 12, 4) matches Some((fs, _)) && {
                &&& r.date == fs[0]
                &&& r.content == fs[1]
                &&& r.url == fs[2]
                &&& r.username == fs[3]
            }
        },
{
}

} // verus!
