//! Reddit posts and users as the API describes them, and the rules that turn
//! them into the indexer's posts and users.

use crate::codec::text_bytes;
use crate::post::{Post, PostView};
use crate::user::{User, UserView};
use chrono::{TimeZone, Utc};
use vstd::prelude::*;
use vstd::utf8::{decode_utf8, is_char_boundary};

verus! {

broadcast use vstd::string::to_string_from_display_ensures_for_str;

/// The earliest second since the Unix epoch that chrono can place in UTC.
pub const EARLIEST_TIMESTAMP: i64 = -8334601228800;

/// The latest second since the Unix epoch that chrono can place in UTC.
pub const LATEST_TIMESTAMP: i64 = 8210266876799;

/// Selftexts longer than this many bytes are cut to it.
pub const SELFTEXT_LIMIT: usize = 1500;

/// The minute of a Unix timestamp as chrono writes it in UTC with the pattern
/// `%Y-%m-%d %H:%M`.
pub uninterp spec fn utc_minute_text(secs: int) -> Seq<char>;

/// chrono's `Utc.timestamp(secs, 0).format("%Y-%m-%d %H:%M")`, as text. The
/// text is named, not spelled out: it depends on `secs` alone. chrono panics
/// outside the range of dates it represents, which `requires` leaves out.
#[verifier::external_body]
#[allow(deprecated)]
fn utc_minute_stamp(secs: i64) -> (r: String)
    requires
        EARLIEST_TIMESTAMP <= secs <= LATEST_TIMESTAMP,
    ensures
        r@ == utc_minute_text(secs as int),
{
    Utc.timestamp(secs, 0).format("%Y-%m-%d %H:%M").to_string()
}

/// std's `String::truncate`: cuts the text to its first `new_len` bytes, which
/// must end on a character boundary, or leaves a shorter text alone.
#[verifier::external_body]
fn truncate_text(s: &mut String, new_len: usize)
    requires
        new_len >= text_bytes(old(s)@).len() || is_char_boundary(text_bytes(old(s)@), new_len as int),
    ensures
        new_len >= text_bytes(old(s)@).len() ==> final(s)@ == old(s)@,
        new_len < text_bytes(old(s)@).len() ==> text_bytes(final(s)@) == text_bytes(old(s)@).take(
            new_len as int,
        ),
{
    s.truncate(new_len)
}

/// Whether the bytes `n` occur somewhere in the bytes `h`.
pub open spec fn occurs_in(h: Seq<u8>, n: Seq<u8>) -> bool {
    exists|i: int| 0 <= i && i + n.len() <= h.len() && #[trigger] h.subrange(i, i + n.len()) == n
}

/// Whether the text `needle` occurs in the text `haystack`.
pub fn contains_text(haystack: &str, needle: &str) -> (r: bool)
    ensures
        r == occurs_in(text_bytes(haystack@), text_bytes(needle@)),
{
    let h = haystack.as_bytes();
    let n = needle.as_bytes();
    if n.len() > h.len() {
        return false;
    }
    if n.len() == 0 {
        assert(h@.subrange(0, 0 + n@.len() as int) =~= n@);
        return true;
    }
    let last = h.len() - n.len();
    let mut i: usize = 0;
    while i <= last
        invariant
            h@ == text_bytes(haystack@),
            n@ == text_bytes(needle@),
            0 < n@.len() <= h@.len(),
            h@.len() <= usize::MAX,
            last == h@.len() - n@.len(),
            0 <= i <= last + 1,
            forall|p: int| 0 <= p < i ==> #[trigger] h@.subrange(p, p + n@.len()) != n@,
        decreases last + 1 - i,
    {
        let mut j: usize = 0;
        let mut same = true;
        while j < n.len()
            invariant
                n@.len() <= h@.len(),
                h@.len() <= usize::MAX,
                i + n@.len() <= h@.len(),
                0 <= j <= n@.len(),
                same == (forall|q: int| 0 <= q < j ==> h@[i + q] == n@[q]),
            decreases n@.len() - j,
        {
            if h[i + j] != n[j] {
                same = false;
            }
            j = j + 1;
        }
        if same {
            assert(h@.subrange(i as int, i + n@.len()) =~= n@);
            return true;
        }
        assert(h@.subrange(i as int, i + n@.len()) != n@) by {
            let q = choose|q: int| 0 <= q < n@.len() && h@[i + q] != n@[q];
            assert(h@.subrange(i as int, i + n@.len())[q] == h@[i + q]);
        }
        i = i + 1;
    }
    proof {
        assert forall|p: int| 0 <= p && p + n@.len() <= h@.len() implies #[trigger] h@.subrange(
            p,
            p + n@.len(),
        ) != n@ by {}
    }
    false
}

/// A post as the Reddit API describes it, with its creation time as whole
/// seconds since the Unix epoch.
pub struct RedditPost {
    pub selftext: String,
    pub title: String,
    pub name: String,
    pub ups: i32,
    pub score: i32,
    pub author: String,
    pub num_comments: i32,
    pub url: String,
    pub created: i64,
}

/// The abstract value of a `RedditPost`.
pub struct RedditPostView {
    pub selftext: Seq<char>,
    pub title: Seq<char>,
    pub name: Seq<char>,
    pub ups: i32,
    pub score: i32,
    pub author: Seq<char>,
    pub num_comments: i32,
    pub url: Seq<char>,
    pub created: i64,
}

impl View for RedditPost {
    type V = RedditPostView;

    open spec fn view(&self) -> RedditPostView {
        RedditPostView {
            selftext: self.selftext@,
            title: self.title@,
            name: self.name@,
            ups: self.ups,
            score: self.score,
            author: self.author@,
            num_comments: self.num_comments,
            url: self.url@,
            created: self.created,
        }
    }
}

/// A text cut to its first `n` bytes, when it is longer.
pub open spec fn cut_text(s: Seq<char>, n: nat) -> Seq<char> {
    if text_bytes(s).len() <= n {
        s
    } else {
        decode_utf8(text_bytes(s).take(n as int))
    }
}

impl RedditPostView {
    /// Whether the post's url points at a comment thread.
    pub open spec fn links_comments(self) -> bool {
        occurs_in(text_bytes(self.url), text_bytes("comments"@))
    }

    /// The selftext as normalisation leaves it: cut to `SELFTEXT_LIMIT` bytes,
    /// unless the url points at comments.
    pub open spec fn selftext_after(self) -> Seq<char> {
        if self.links_comments() {
            self.selftext
        } else {
            cut_text(self.selftext, SELFTEXT_LIMIT as nat)
        }
    }

    /// The content of the normalised post: the title for a comment thread,
    /// else the cut selftext; the title again when that is empty.
    pub open spec fn content(self) -> Seq<char> {
        let base = if self.links_comments() {
            self.title
        } else {
            self.selftext_after()
        };
        if base.len() == 0 {
            self.title
        } else {
            base
        }
    }

    /// The reactions of the normalised post: the upvotes plus the downvotes
    /// that the score hides.
    pub open spec fn reactions(self) -> int {
        self.ups + (self.ups - self.score)
    }

    /// Whether normalisation can run: the selftext can be cut at the limit,
    /// the reactions fit an `i32`, and chrono can place the creation time.
    pub open spec fn normalizable(self) -> bool {
        &&& (self.links_comments() || text_bytes(self.selftext).len() <= SELFTEXT_LIMIT
            || is_char_boundary(text_bytes(self.selftext), SELFTEXT_LIMIT as int))
        &&& i32::MIN <= self.ups - self.score <= i32::MAX
        &&& i32::MIN <= self.reactions() <= i32::MAX
        &&& EARLIEST_TIMESTAMP <= self.created <= LATEST_TIMESTAMP
    }

    /// The post that normalisation gives.
    pub open spec fn normalized(self) -> PostView {
        PostView {
            date: utc_minute_text(self.created as int),
            content: self.content(),
            reactions: self.reactions() as i32,
            shares: 0,
            comments: self.num_comments,
            username: self.author,
            url: self.url,
            source_id: self.name,
        }
    }
}

/// A text is empty exactly when its UTF-8 form is.
proof fn lemma_empty_text(s: Seq<char>)
    ensures
        (text_bytes(s).len() == 0) == (s.len() == 0),
{
    vstd::utf8::encode_utf8_decode_utf8(s);
    if text_bytes(s).len() == 0 {
        assert(text_bytes(s) =~= Seq::<u8>::empty());
        assert(decode_utf8(Seq::<u8>::empty()) =~= Seq::<char>::empty());
    }
}

/// The content of a normalised post: a comment thread gets its title. A link
/// post with a selftext gets that selftext cut to `SELFTEXT_LIMIT` bytes (the
/// selftext itself when it is no longer), never the title; only a link post
/// whose selftext is empty gets its title.
pub proof fn lemma_normalized_content(p: RedditPostView)
    requires
        p.normalizable(),
    ensures
        p.links_comments() ==> p.normalized().content == p.title,
        !p.links_comments() && p.selftext.len() > 0 ==> {
            let b = text_bytes(p.selftext);
            let n = if b.len() <= SELFTEXT_LIMIT {
                b.len() as int
            } else {
                SELFTEXT_LIMIT as int
            };
            &&& text_bytes(p.normalized().content) == b.subrange(0, n)
            &&& p.normalized().content.len() > 0
            &&& b.len() <= SELFTEXT_LIMIT ==> p.normalized().content == p.selftext
        },
        !p.links_comments() && p.selftext.len() == 0 ==> p.normalized().content == p.title,
{
    let b = text_bytes(p.selftext);
    lemma_empty_text(p.selftext);
    if !p.links_comments() {
        if b.len() <= SELFTEXT_LIMIT {
            assert(b.subrange(0, b.len() as int) =~= b);
        } else {
            vstd::utf8::encode_utf8_valid_utf8(p.selftext);
            vstd::utf8::valid_utf8_split(b, SELFTEXT_LIMIT as int);
            let t = b.subrange(0, SELFTEXT_LIMIT as int);
            assert(b.take(SELFTEXT_LIMIT as int) == t);
            vstd::utf8::decode_utf8_encode_utf8(t);
            lemma_empty_text(decode_utf8(t));
        }
    }
}

impl RedditPost {
    /// Whether normalisation can run on this post.
    pub fn can_normalize(&self) -> (r: bool)
        ensures
            r == self@.normalizable(),
    {
        let comments = contains_text(self.url.as_str(), "comments");
        let short = self.selftext.as_str().as_bytes().len() <= SELFTEXT_LIMIT;
        let boundary = self.selftext.as_str().is_char_boundary(SELFTEXT_LIMIT);
        let cut_ok = comments || short || boundary;
        let ups = self.ups as i64;
        let hidden = ups - self.score as i64;
        let reactions = ups + hidden;
        cut_ok && i32::MIN as i64 <= hidden && hidden <= i32::MAX as i64 && i32::MIN as i64
            <= reactions && reactions <= i32::MAX as i64 && EARLIEST_TIMESTAMP <= self.created
            && self.created <= LATEST_TIMESTAMP
    }

    /// The indexer's post for this Reddit post. A selftext that is used is
    /// first cut to `SELFTEXT_LIMIT` bytes in place.
    pub fn to_normalized(&mut self) -> (r: Post)
        requires
            old(self)@.normalizable(),
        ensures
            r@ == old(self)@.normalized(),
            final(self)@ == (RedditPostView { selftext: old(self)@.selftext_after(), ..old(self)@ }),
    {
        let mut content;
        if contains_text(self.url.as_str(), "comments") {
            content = self.title.clone();
        } else {
            truncate_text(&mut self.selftext, SELFTEXT_LIMIT);
            proof {
                let b = text_bytes(old(self)@.selftext);
                if SELFTEXT_LIMIT < b.len() {
                    vstd::utf8::encode_utf8_valid_utf8(old(self)@.selftext);
                    vstd::utf8::encode_utf8_decode_utf8(self.selftext@);
                }
            }
            content = self.selftext.clone();
        }
        proof {
            lemma_empty_text(content@);
        }
        if content.as_str().as_bytes().len() == 0 {
            content = self.title.clone();
        }
        Post {
            reactions: self.ups + (self.ups - self.score),
            comments: self.num_comments,
            shares: 0,
            url: self.url.clone(),
            username: self.author.clone(),
            source_id: self.name.clone(),
            date: utc_minute_stamp(self.created),
            content,
        }
    }
}

/// The part of a Reddit user's profile that the indexer reads.
pub struct RedditUserSubreddit {
    pub subscribers: i32,
    pub public_description: String,
}

impl Default for RedditUserSubreddit {
    fn default() -> (s: RedditUserSubreddit)
        ensures
            s.subscribers == 0,
            s.public_description@ == ""@,
    {
        RedditUserSubreddit { subscribers: 0, public_description: "".to_string() }
    }
}

/// A Reddit user as the API describes it, with its creation time, when
/// known, as whole seconds since the Unix epoch.
pub struct RedditUser {
    pub name: String,
    pub created: Option<i64>,
    pub id: String,
    pub subreddit: RedditUserSubreddit,
}

impl Default for RedditUser {
    fn default() -> (u: RedditUser)
        ensures
            u.name@ == ""@,
            u.created is None,
            u.id@ == ""@,
            u.subreddit.subscribers == 0,
            u.subreddit.public_description@ == ""@,
    {
        RedditUser {
            name: "".to_string(),
            created: None,
            id: "".to_string(),
            subreddit: RedditUserSubreddit::default(),
        }
    }
}

impl RedditUser {
    /// Whether chrono can place the creation time, or the epoch in its stead.
    pub fn can_normalize(&self) -> (r: bool)
        ensures
            r == (EARLIEST_TIMESTAMP <= self.created_or_epoch() <= LATEST_TIMESTAMP),
    {
        let created = match self.created {
            Some(t) => t,
            None => 0,
        };
        EARLIEST_TIMESTAMP <= created && created <= LATEST_TIMESTAMP
    }

    /// The creation time, or the epoch when it is unknown.
    pub open spec fn created_or_epoch(&self) -> i64 {
        match self.created {
            Some(t) => t,
            None => 0,
        }
    }

    /// The indexer's user for this Reddit user.
    pub fn to_normalized(&mut self) -> (r: Result<User, std::io::Error>)
        requires
            EARLIEST_TIMESTAMP <= old(self).created_or_epoch() <= LATEST_TIMESTAMP,
        ensures
            *final(self) == *old(self),
            r matches Ok(u) && u@ == (UserView {
                id: 0,
                username: old(self).name@,
                created_at: utc_minute_text(old(self).created_or_epoch() as int),
                followers: old(self).subreddit.subscribers,
                following: 0,
                description: old(self).subreddit.public_description@,
                source_id: old(self).id@,
            }),
    {
        let created = match self.created {
            Some(t) => t,
            None => 0,
        };
        Ok(
            User {
                id: 0,
                username: self.name.clone(),
                created_at: utc_minute_stamp(created),
                followers: self.subreddit.subscribers,
                following: 0,
                source_id: self.id.clone(),
                description: self.subreddit.public_description.clone(),
            },
        )
    }
}

} // verus!
