//! Users and their on-disk record: id, followers and following as
//! little-endian words, then created_at, description and username as
//! length-prefixed UTF-8 fields.

use crate::codec::{
    field_bytes, fields_at, fields_bytes, fits_field, lemma_fields_at, lemma_u32_at, push_field,
    push_u32_le, read_fields_at, read_u32_at, u32_at,
};
use crate::post::{lemma_i32_bits, Post, PostView};
use vstd::bytes::{lemma_auto_spec_u32_to_from_le_bytes, spec_u32_from_le_bytes, spec_u32_to_le_bytes};
use vstd::prelude::*;

verus! {

broadcast use vstd::string::to_string_from_display_ensures_for_str;

pub struct User {
    pub id: i32,
    pub username: String,
    pub created_at: String,
    pub followers: i32,
    pub following: i32,
    pub description: String,
    /// Identifier of the user at its source; not part of the record.
    pub source_id: String,
}

/// The abstract value of a `User`.
pub struct UserView {
    pub id: i32,
    pub username: Seq<char>,
    pub created_at: Seq<char>,
    pub followers: i32,
    pub following: i32,
    pub description: Seq<char>,
    pub source_id: Seq<char>,
}

impl View for User {
    type V = UserView;

    open spec fn view(&self) -> UserView {
        UserView {
            id: self.id,
            username: self.username@,
            created_at: self.created_at@,
            followers: self.followers,
            following: self.following,
            description: self.description@,
            source_id: self.source_id@,
        }
    }
}

impl UserView {
    /// Every text that the record stores fits its length prefix.
    pub open spec fn fits_record(self) -> bool {
        &&& fits_field(self.created_at)
        &&& fits_field(self.description)
        &&& fits_field(self.username)
    }

    /// The same user as it comes back from its record, whose source id is empty.
    pub open spec fn as_stored(self) -> UserView {
        UserView { source_id: Seq::empty(), ..self }
    }
}

/// The record of a user.
pub open spec fn user_bytes(u: UserView) -> Seq<u8> {
    spec_u32_to_le_bytes(u.id as u32) + spec_u32_to_le_bytes(u.followers as u32)
        + spec_u32_to_le_bytes(u.following as u32) + fields_bytes(
        seq![u.created_at, u.description, u.username],
    )
}

/// The user whose record starts `b`, and the record's length; `None` when `b`
/// does not start with a complete, well-formed record.
pub open spec fn parse_user(b: Seq<u8>) -> Option<(UserView, int)> {
    match (u32_at(b, 0), u32_at(b, 4), u32_at(b, 8), fields_at(b, 12, 3)) {
        (Some(id), Some(followers), Some(following), Some((fs, end))) => Some(
            (
                UserView {
                    id: id as i32,
                    username: fs[2],
                    created_at: fs[0],
                    followers: followers as i32,
                    following: following as i32,
                    description: fs[1],
                    source_id: Seq::empty(),
                },
                end,
            ),
        ),
        _ => None,
    }
}

impl Default for User {
    fn default() -> (u: User)
        ensures
            u@ == (UserView {
                id: 0,
                username: ""@,
                created_at: ""@,
                followers: 0,
                following: 0,
                description: ""@,
                source_id: ""@,
            }),
    {
        User {
            id: 0,
            followers: 0,
            following: 0,
            created_at: "".to_string(),
            description: "".to_string(),
            username: "".to_string(),
            source_id: "".to_string(),
        }
    }
}

impl User {
    /// The user's posts: for now always one template post.
    pub fn posts(&self) -> (r: Result<Option<Post>, std::io::Error>)
        ensures
            r matches Ok(Some(p)) && p@ == (PostView {
                date: "today"@,
                content: "template comment"@,
                reactions: 0,
                shares: 0,
                comments: 0,
                username: ""@,
                url: ""@,
                source_id: ""@,
            }),
    {
        Ok(Some(Post::new("template comment".to_string(), "xuxa".to_string())))
    }

    pub fn new(
        id: i32,
        username: &str,
        created_at: &str,
        followers: i32,
        following: i32,
        description: &str,
    ) -> (u: User)
        ensures
            u@ == (UserView {
                id,
                username: username@,
                created_at: created_at@,
                followers,
                following,
                description: description@,
                source_id: ""@,
            }),
    {
        User {
            id,
            created_at: created_at.to_string(),
            description: description.to_string(),
            username: username.to_string(),
            followers,
            following,
            source_id: "".to_string(),
        }
    }

    /// The record of this user.
    pub fn to_bytes(&self) -> (r: Vec<u8>)
        ensures
            r@ == user_bytes(self@),
    {
        let mut out: Vec<u8> = Vec::new();
        push_u32_le(&mut out, #[verifier::truncate] (self.id as u32));
        push_u32_le(&mut out, #[verifier::truncate] (self.followers as u32));
        push_u32_le(&mut out, #[verifier::truncate] (self.following as u32));
        push_field(&mut out, &self.created_at);
        push_field(&mut out, &self.description);
        push_field(&mut out, &self.username);
        proof {
            let fs = seq![self.created_at@, self.description@, self.username@];
            assert(fs.drop_last().drop_last().drop_last() =~= Seq::<Seq<char>>::empty());
            assert(fs.drop_last().drop_last() =~= seq![self.created_at@]);
            assert(fs.drop_last() =~= seq![self.created_at@, self.description@]);
            reveal_with_fuel(fields_bytes, 4);
            assert(fields_bytes(fs) =~= field_bytes(self.created_at@) + field_bytes(
                self.description@,
            ) + field_bytes(self.username@));
            assert(out@ =~= user_bytes(self@));
        }
        out
    }

    /// The user whose record starts `bytes`, with the record's length, or
    /// `None` when `bytes` does not start with a well-formed record.
    pub fn parse(bytes: &[u8]) -> (r: Option<(User, u64)>)
        ensures
            match parse_user(bytes@) {
                Some((u, end)) => r matches Some((v, n)) && v@ == u && n == end,
                None => r is None,
            },
    {
        let (id, _) = match read_u32_at(bytes, 0) {
            Some(x) => x,
            None => return None,
        };
        let (followers, _) = match read_u32_at(bytes, 4) {
            Some(x) => x,
            None => return None,
        };
        let (following, _) = match read_u32_at(bytes, 8) {
            Some(x) => x,
            None => return None,
        };
        let (mut fs, end) = match read_fields_at(bytes, 12, 3) {
            Some(x) => x,
            None => return None,
        };
        let ghost texts = fs@;
        let username = fs.pop().unwrap();
        let description = fs.pop().unwrap();
        let created_at = fs.pop().unwrap();
        proof {
            assert(username@ == texts[2]@);
            assert(description@ == texts[1]@);
            assert(created_at@ == texts[0]@);
        }
        let u = User {
            id: id as i32,
            followers: followers as i32,
            following: following as i32,
            created_at,
            description,
            username,
            source_id: String::new(),
        };
        Some((u, end as u64))
    }

    /// The user whose record starts `bytes`, with the record's length.
    pub fn from_bytes(bytes: &[u8]) -> (r: (User, u64))
        requires
            parse_user(bytes@) is Some,
        ensures
            r.0@ == parse_user(bytes@).unwrap().0,
            r.1 == parse_user(bytes@).unwrap().1,
    {
        User::parse(bytes).unwrap()
    }
}

/// A user's record reads back as the same user (without its source id), and
/// reading stops right after it, whatever bytes follow.
pub proof fn lemma_user_roundtrip(u: UserView, rest: Seq<u8>)
    requires
        u.fits_record(),
    ensures
        parse_user(user_bytes(u) + rest) == Some((u.as_stored(), user_bytes(u).len() as int)),
{
    lemma_auto_spec_u32_to_from_le_bytes();
    let a = spec_u32_to_le_bytes(u.id as u32);
    let b1 = spec_u32_to_le_bytes(u.followers as u32);
    let c = spec_u32_to_le_bytes(u.following as u32);
    let fs = seq![u.created_at, u.description, u.username];
    let f = fields_bytes(fs);
    let b = user_bytes(u) + rest;
    assert(a.len() == 4 && b1.len() == 4 && c.len() == 4);
    assert(user_bytes(u) == a + b1 + c + f);
    assert(b.subrange(0, 4) =~= a);
    assert(b.subrange(4, 8) =~= b1);
    assert(b.subrange(8, 12) =~= c);
    lemma_u32_at(b, 0, u.id as u32);
    lemma_u32_at(b, 4, u.followers as u32);
    lemma_u32_at(b, 8, u.following as u32);
    assert(b.subrange(12, 12 + f.len() as int) =~= f);
    assert forall|j: int| 0 <= j < fs.len() implies fits_field(#[trigger] fs[j]) by {}
    lemma_fields_at(b, 12, fs);
    lemma_i32_bits(u.id);
    lemma_i32_bits(u.followers);
    lemma_i32_bits(u.following);
}

/// The user record's layout: bytes 0..4, 4..8 and 8..12 hold the
/// id, followers, following, each as a little-endian word; the created_at, description, username
/// fields follow in that order.
pub proof fn lemma_user_layout(u: UserView)
    ensures
        user_bytes(u).subrange(0, 4) == spec_u32_to_le_bytes(u.id as u32),
        user_bytes(u).subrange(4, 8) == spec_u32_to_le_bytes(u.followers as u32),
        user_bytes(u).subrange(8, 12) == spec_u32_to_le_bytes(u.following as u32),
        user_bytes(u).subrange(12, user_bytes(u).len() as int) == field_bytes(u.created_at) + field_bytes(u.description) + field_bytes(u.username),
{
    lemma_auto_spec_u32_to_from_le_bytes();
    let w0 = spec_u32_to_le_bytes(u.id as u32);
    let w1 = spec_u32_to_le_bytes(u.followers as u32);
    let w2 = spec_u32_to_le_bytes(u.following as u32);
    assert(w0.len() == 4 && w1.len() == 4 && w2.len() == 4);
    let fs = seq![u.created_at, u.description, u.username];
    reveal_with_fuel(fields_bytes, 4);
    assert(fs.drop_last().drop_last().drop_last() =~= Seq::<Seq<char>>::empty());
    assert(fs.drop_last().drop_last() =~= seq![u.created_at]);
    assert(fs.drop_last() =~= seq![u.created_at, u.description]);
    let f = fields_bytes(fs);
    assert(f =~= field_bytes(u.created_at) + field_bytes(u.description) + field_bytes(u.username));
    let all = user_bytes(u);
    assert(all == w0 + w1 + w2 + f);
    assert(all.subrange(0, 4) =~= w0);
    assert(all.subrange(4, 8) =~= w1);
    assert(all.subrange(8, 12) =~= w2);
    assert(all.subrange(12, all.len() as int) =~= f);
}

/// Reading a user takes its id, followers, following from bytes 0..4, 4..8 and
/// 8..12 as little-endian words, then its created_at, description, username from the
/// fields that follow, in that order.
pub proof fn lemma_user_read_layout(b: Seq<u8>)
    ensures
        parse_user(b) matches Some((r, _)) ==> {
            &&& r.id == spec_u32_from_le_bytes(b.subrange(0, 4)) as i32
            &&& r.followers == spec_u32_from_le_bytes(b.subrange(4, 8)) as i32
            &&& r.following == spec_u32_from_le_bytes(b.subrange(8, 12)) as i32
            &&& fields_at(b, 12, 3) matches Some((fs, _)) && {
                &&& r.created_at == fs[0]
                &&& r.description == fs[1]
                &&& r.username == fs[2]
            }
        },
{
}

} // verus!
