//! The Reddit API addresses that the indexer requests.

use vstd::prelude::*;

verus! {

/// How many posts a search asks for when no limit is given.
pub const DEFAULT_SEARCH_LIMIT: i32 = 10;

/// The character of a decimal digit.
pub open spec fn digit_char(d: int) -> char {
    (48 + d) as char
}

/// The decimal digits of `n`, most significant first.
pub open spec fn decimal(n: nat) -> Seq<char>
    decreases n,
{
    if n < 10 {
        seq![digit_char(n as int)]
    } else {
        decimal(n / 10).push(digit_char(n as int % 10))
    }
}

/// An integer as Rust displays it: a minus sign for negatives, then the
/// decimal digits of its magnitude.
pub open spec fn signed_decimal(x: int) -> Seq<char> {
    if x < 0 {
        seq!['-'] + decimal((-x) as nat)
    } else {
        decimal(x as nat)
    }
}

/// The text of one decimal digit.
fn digit_text(d: u64) -> (r: &'static str)
    requires
        d < 10,
    ensures
        r@ == seq![digit_char(d as int)],
{
    proof {
        reveal_strlit("0");
        reveal_strlit("1");
        reveal_strlit("2");
        reveal_strlit("3");
        reveal_strlit("4");
        reveal_strlit("5");
        reveal_strlit("6");
        reveal_strlit("7");
        reveal_strlit("8");
        reveal_strlit("9");
    }
    match d {
        0 => "0",
        1 => "1",
        2 => "2",
        3 => "3",
        4 => "4",
        5 => "5",
        6 => "6",
        7 => "7",
        8 => "8",
        _ => "9",
    }
}

/// Appends the decimal digits of `n`.
fn append_decimal(out: &mut String, n: u64)
    ensures
        final(out)@ == old(out)@ + decimal(n as nat),
    decreases n,
{
    if n >= 10 {
        append_decimal(out, n / 10);
    }
    out.append(digit_text(n % 10));
    assert(out@ =~= old(out)@ + decimal(n as nat));
}

/// The text of an `i32` as Rust displays it.
pub fn decimal_text(x: i32) -> (r: String)
    ensures
        r@ == signed_decimal(x as int),
{
    let mut out = String::new();
    let magnitude: u64;
    if x < 0 {
        out.append("-");
        proof {
            reveal_strlit("-");
        }
        magnitude = (-(x as i64)) as u64;
    } else {
        magnitude = x as u64;
    }
    append_decimal(&mut out, magnitude);
    assert(out@ =~= signed_decimal(x as int));
    out
}

/// The search address for a query and a limit on the number of posts.
pub open spec fn search_url_text(query: Seq<char>, limit: Option<i32>) -> Seq<char> {
    let n = match limit {
        Some(l) => l,
        None => DEFAULT_SEARCH_LIMIT,
    };
    "https://reddit.com/search.json?q="@ + query + "&limit="@ + signed_decimal(n as int) + "&type=link"@
}

/// The address that searches Reddit's links for `query`, asking for `limit`
/// posts, or `DEFAULT_SEARCH_LIMIT` when no limit is given.
pub fn search_url(query: &str, limit: Option<i32>) -> (r: String)
    ensures
        r@ == search_url_text(query@, limit),
{
    let n = match limit {
        Some(l) => l,
        None => DEFAULT_SEARCH_LIMIT,
    };
    let mut url = String::from_str("https://reddit.com/search.json?q=");
    url.append(query);
    url.append("&limit=");
    let digits = decimal_text(n);
    url.append(digits.as_str());
    url.append("&type=link");
    assert(url@ =~= search_url_text(query@, limit));
    url
}

/// The address of a user's public profile.
pub fn user_about_url(username: &str) -> (r: String)
    ensures
        r@ == "https://reddit.com/u/"@ + username@ + "/about.json"@,
{
    let mut url = String::from_str("https://reddit.com/u/");
    url.append(username);
    url.append("/about.json");
    url
}

/// The number that decimal digits stand for, most significant first.
pub open spec fn digits_value(s: Seq<char>) -> int
    decreases s.len(),
{
    if s.len() == 0 {
        0
    } else {
        digits_value(s.drop_last()) * 10 + (s.last() as int - 48)
    }
}

/// Whether every character is a decimal digit.
pub open spec fn all_digits(s: Seq<char>) -> bool {
    forall|j: int| 0 <= j < s.len() ==> '0' <= #[trigger] s[j] <= '9'
}

/// The decimal text of `n` is a nonempty run of digits that stands for `n`,
/// with no leading zero except for 0 itself.
pub proof fn lemma_decimal(n: nat)
    ensures
        decimal(n).len() > 0,
        all_digits(decimal(n)),
        digits_value(decimal(n)) == n,
        decimal(n)[0] == '0' ==> n == 0 && decimal(n).len() == 1,
    decreases n,
{
    if n < 10 {
        assert(decimal(n) == seq![digit_char(n as int)]);
        assert(seq![digit_char(n as int)].drop_last() =~= Seq::<char>::empty());
        assert((digit_char(n as int) as int) == 48 + n);
        assert(digits_value(decimal(n)) == digits_value(Seq::<char>::empty()) * 10 + n);
    } else {
        let q = n / 10;
        let r = n % 10;
        lemma_decimal(q);
        let d = decimal(q);
        let s = d.push(digit_char(r as int));
        assert(decimal(n) == s);
        assert(s.drop_last() =~= d);
        assert((digit_char(r as int) as int) == 48 + r);
        vstd::arithmetic::div_mod::lemma_fundamental_div_mod(n as int, 10);
        assert(digits_value(s) == digits_value(d) * 10 + r);
        assert(q * 10 == 10 * q) by (nonlinear_arith);
        assert(s[0] == d[0]);
        assert forall|j: int| 0 <= j < s.len() implies '0' <= #[trigger] s[j] <= '9' by {
            if j < d.len() {
                assert(s[j] == d[j]);
            }
        }
    }
}

/// An integer's text is a minus sign exactly for negatives, followed by the
/// decimal digits of its magnitude.
pub proof fn lemma_signed_decimal(x: int)
    ensures
        signed_decimal(x).len() > 0,
        (signed_decimal(x)[0] == '-') == (x < 0),
        x < 0 ==> {
            let rest = signed_decimal(x).subrange(1, signed_decimal(x).len() as int);
            &&& all_digits(rest)
            &&& digits_value(rest) == -x
            &&& rest.len() > 0 && (rest[0] == '0' ==> rest.len() == 1)
        },
        x >= 0 ==> all_digits(signed_decimal(x)) && digits_value(signed_decimal(x)) == x,
{
    if x < 0 {
        lemma_decimal((-x) as nat);
        let d = decimal((-x) as nat);
        assert(signed_decimal(x).subrange(1, signed_decimal(x).len() as int) =~= d);
    } else {
        lemma_decimal(x as nat);
    }
}

/// The search address asks for the limit given, written in decimal, and for
/// `DEFAULT_SEARCH_LIMIT` only when no limit is given.
pub proof fn lemma_search_url(query: Seq<char>, limit: i32)
    ensures
        search_url_text(query, Some(limit)) == "https://reddit.com/search.json?q="@ + query + "&limit="@
            + signed_decimal(limit as int) + "&type=link"@,
        search_url_text(query, None) == "https://reddit.com/search.json?q="@ + query + "&limit="@
            + signed_decimal(DEFAULT_SEARCH_LIMIT as int) + "&type=link"@,
        limit != DEFAULT_SEARCH_LIMIT ==> search_url_text(query, Some(limit)) != search_url_text(query, None),
{
    let pre = "https://reddit.com/search.json?q="@ + query + "&limit="@;
    let post = "&type=link"@;
    if limit != DEFAULT_SEARCH_LIMIT {
        lemma_signed_decimal(limit as int);
        lemma_signed_decimal(DEFAULT_SEARCH_LIMIT as int);
        let a = signed_decimal(limit as int);
        let b = signed_decimal(DEFAULT_SEARCH_LIMIT as int);
        if pre + a + post == pre + b + post {
            assert((pre + a + post).len() == (pre + b + post).len());
            assert(a.len() == b.len());
            assert(a =~= (pre + a + post).subrange(pre.len() as int, (pre.len() + a.len()) as int));
            assert(b =~= (pre + b + post).subrange(pre.len() as int, (pre.len() + b.len()) as int));
            assert(a == b);
        }
    }
}

} // verus!
