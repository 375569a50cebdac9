//! Repository references: parsing a repository address, and the addresses
//! and headers of the remote API's requests.

use vstd::prelude::*;
use crate::text::{chars_of, contains_seq, has_sub, occurs_at, occurs_at_exec, split_bounds, split_char};

verus! {

/// What `str::trim` leaves of a text.
pub uninterp spec fn trimmed(s: Seq<char>) -> Seq<char>;

/// Relies on `str::trim`: the text without its leading and trailing whitespace.
#[verifier::external_body]
fn trim_text(s: &str) -> (r: &str)
    ensures
        r@ == trimmed(s@),
{
    s.trim()
}

/// `s` with every trailing `.git` removed, as `trim_end_matches(".git")` does.
pub open spec fn strip_git(s: Seq<char>) -> Seq<char>
    decreases s.len(),
{
    if s.len() >= 4 && s.subrange(s.len() - 4, s.len() as int) == ".git"@ {
        strip_git(s.subrange(0, s.len() - 4))
    } else {
        s
    }
}

/// Index of the last `://` in `s`, or -1.
pub open spec fn last_sep(s: Seq<char>) -> int
    decreases s.len(),
{
    if s.len() < 3 {
        -1
    } else if s.subrange(s.len() - 3, s.len() as int) == "://"@ {
        s.len() - 3
    } else {
        last_sep(s.drop_last())
    }
}

/// What follows the last `://` of `s` (all of `s` when there is none).
pub open spec fn after_protocol(s: Seq<char>) -> Seq<char> {
    if last_sep(s) < 0 {
        s
    } else {
        s.subrange(last_sep(s) + 3, s.len() as int)
    }
}

/// Owner and name of a repository written as `owner/name`, or as an address
/// on github.com (`https://github.com/owner/name`, with or without scheme
/// and `.git`).
pub open spec fn parse_repo_spec(t: Seq<char>) -> Option<(Seq<char>, Seq<char>)> {
    let short = split_char(t, '/');
    if !has_sub(t, "://"@) && !has_sub(t, "."@) && short.len() == 2 {
        Some((short[0], short[1]))
    } else {
        let parts = split_char(after_protocol(strip_git(t)), '/');
        if parts.len() >= 3 && has_sub(parts[0], "github.com"@) {
            Some((parts[1], parts[2]))
        } else {
            None
        }
    }
}

/// Parses a repository address that is already trimmed (see `parse_repo_spec`).
pub fn parse_repo_text(t: &str) -> (r: Option<(String, String)>)
    ensures
        r is None <==> parse_repo_spec(t@) is None,
        r matches Some((o, n)) ==> parse_repo_spec(t@) == Some((o@, n@)),
{
    let tv = chars_of(t);
    let sep = chars_of("://");
    let dot = chars_of(".");
    let git = chars_of(".git");
    let host = chars_of("github.com");
    proof {
        reveal_strlit("://");
        reveal_strlit(".");
        reveal_strlit(".git");
        reveal_strlit("github.com");
    }
    if !contains_seq(&tv, &sep) && !contains_seq(&tv, &dot) {
        let short = split_bounds(&tv, '/', 0);
        proof {
            assert(tv@.subrange(0, tv@.len() as int) =~= tv@);
        }
        if short.len() == 2 {
            let (a0, a1) = short[0];
            let (b0, b1) = short[1];
            let owner = String::from_str(t.substring_char(a0, a1));
            let name = String::from_str(t.substring_char(b0, b1));
            return Some((owner, name));
        }
    }
    let mut e: usize = tv.len();
    assert(tv@.subrange(0, e as int) =~= tv@);
    while e >= 4 && occurs_at_exec(&tv, &git, e - 4)
        invariant
            e <= tv@.len(),
            git@ == ".git"@,
            strip_git(tv@.subrange(0, e as int)) == strip_git(tv@),
        decreases e,
    {
        proof {
            reveal_strlit(".git");
            let u = tv@.subrange(0, e as int);
            assert(u.subrange(u.len() - 4, u.len() as int) =~= tv@.subrange(e - 4, e as int));
            assert(u.subrange(0, u.len() - 4) =~= tv@.subrange(0, e - 4));
            assert(u.subrange(u.len() - 4, u.len() as int) == ".git"@);
            assert(strip_git(u) == strip_git(tv@.subrange(0, e - 4)));
        }
        e = e - 4;
    }
    proof {
        let u = tv@.subrange(0, e as int);
        if u.len() >= 4 {
            assert(u.subrange(u.len() - 4, u.len() as int) =~= tv@.subrange(e - 4, e as int));
        }
        assert(strip_git(u) == u);
        if e == tv@.len() {
            assert(u =~= tv@);
        }
    }
    let ghost u = tv@.subrange(0, e as int);
    let mut j: usize = e;
    while j >= 3 && !occurs_at_exec(&tv, &sep, j - 3)
        invariant
            j <= e <= tv@.len(),
            u == tv@.subrange(0, e as int),
            sep@ == "://"@,
            last_sep(u) == last_sep(tv@.subrange(0, j as int)),
        decreases j,
    {
        proof {
            reveal_strlit("://");
            let w = tv@.subrange(0, j as int);
            assert(w.subrange(w.len() - 3, w.len() as int) =~= tv@.subrange(j - 3, j as int));
            assert(w.drop_last() =~= tv@.subrange(0, j - 1));
        }
        j = j - 1;
    }
    let start: usize = if j >= 3 {
        proof {
            let w = tv@.subrange(0, j as int);
            assert(w.subrange(w.len() - 3, w.len() as int) =~= tv@.subrange(j - 3, j as int));
        }
        j
    } else {
        0
    };
    let rest = t.substring_char(start, e);
    proof {
        assert(rest@ =~= after_protocol(u));
    }
    let rv = chars_of(rest);
    let parts = split_bounds(&rv, '/', 0);
    proof {
        assert(rv@.subrange(0, rv@.len() as int) =~= rv@);
    }
    if parts.len() >= 3 {
        let (a0, a1) = parts[0];
        let first = chars_of(rest.substring_char(a0, a1));
        if contains_seq(&first, &host) {
            let (b0, b1) = parts[1];
            let (c0, c1) = parts[2];
            let owner = String::from_str(rest.substring_char(b0, b1));
            let name = String::from_str(rest.substring_char(c0, c1));
            return Some((owner, name));
        }
    }
    None
}

/// Parses a repository address given by a user: the text is trimmed, then
/// read as `parse_repo_text` says.
pub fn parse_github_url(repo_url: &str) -> (r: Option<(String, String)>)
    ensures
        r is None <==> parse_repo_spec(trimmed(repo_url@)) is None,
        r matches Some((o, n)) ==> parse_repo_spec(trimmed(repo_url@)) == Some((o@, n@)),
{
    parse_repo_text(trim_text(repo_url))
}

} // verus!

verus! {

/// Address of the remote API.
pub const API_BASE: &'static str = "https://api.github.com";

/// The identification sent with every request.
pub const USER_AGENT: &'static str = "rhythmcache.t.me/gh-tree/0.2.0";

/// The media type asked of the API.
pub const ACCEPT: &'static str = "application/vnd.github.v3+json";

pub open spec fn repo_url_spec(owner: Seq<char>, repo: Seq<char>) -> Seq<char> {
    "https://api.github.com"@ + "/repos/"@ + owner + "/"@ + repo
}

/// `https://api.github.com/repos/{owner}/{repo}`: the repository's metadata.
pub fn repo_url(owner: &str, repo: &str) -> (r: String)
    ensures
        r@ == repo_url_spec(owner@, repo@),
{
    String::from_str(API_BASE).concat("/repos/").concat(owner).concat("/").concat(repo)
}

/// The recursive tree listing of `reference`.
pub fn tree_url(owner: &str, repo: &str, reference: &str) -> (r: String)
    ensures
        r@ == repo_url_spec(owner@, repo@) + "/git/trees/"@ + reference@ + "?recursive=1"@,
{
    repo_url(owner, repo).concat("/git/trees/").concat(reference).concat("?recursive=1")
}

/// The content listing of `path` at `reference`.
pub fn contents_url(owner: &str, repo: &str, path: &str, reference: &str) -> (r: String)
    ensures
        r@ == repo_url_spec(owner@, repo@) + "/contents/"@ + path@ + "?ref="@ + reference@,
{
    repo_url(owner, repo).concat("/contents/").concat(path).concat("?ref=").concat(reference)
}

/// The zip archive of `reference`.
pub fn zipball_url(owner: &str, repo: &str, reference: &str) -> (r: String)
    ensures
        r@ == repo_url_spec(owner@, repo@) + "/zipball/"@ + reference@,
{
    repo_url(owner, repo).concat("/zipball/").concat(reference)
}

/// The branch listing.
pub fn branches_url(owner: &str, repo: &str) -> (r: String)
    ensures
        r@ == repo_url_spec(owner@, repo@) + "/branches"@,
{
    repo_url(owner, repo).concat("/branches")
}

/// The release listing, newest first.
pub fn releases_url(owner: &str, repo: &str) -> (r: String)
    ensures
        r@ == repo_url_spec(owner@, repo@) + "/releases"@,
{
    repo_url(owner, repo).concat("/releases")
}

/// The release tagged `tag`.
pub fn release_url(owner: &str, repo: &str, tag: &str) -> (r: String)
    ensures
        r@ == repo_url_spec(owner@, repo@) + "/releases/tags/"@ + tag@,
{
    repo_url(owner, repo).concat("/releases/tags/").concat(tag)
}

/// File name of a downloaded archive: `{repo}-{reference}.zip`.
pub fn archive_name(repo: &str, reference: &str) -> (r: String)
    ensures
        r@ == repo@ + "-"@ + reference@ + ".zip"@,
{
    String::from_str(repo).concat("-").concat(reference).concat(".zip")
}

/// The headers of an API request: the media type, the identification, and
/// the bearer credential when one is configured.
pub fn request_headers(token: Option<&str>) -> (r: Vec<(String, String)>)
    ensures
        r@.len() == if token is Some {
            3int
        } else {
            2int
        },
        r@[0].0@ == "Accept"@ && r@[0].1@ == "application/vnd.github.v3+json"@,
        r@[1].0@ == "User-Agent"@ && r@[1].1@ == "rhythmcache.t.me/gh-tree/0.2.0"@,
        token matches Some(t) ==> r@[2].0@ == "Authorization"@ && r@[2].1@ == "Bearer "@ + t@,
{
    let mut r: Vec<(String, String)> = Vec::new();
    r.push((String::from_str("Accept"), String::from_str(ACCEPT)));
    r.push((String::from_str("User-Agent"), String::from_str(USER_AGENT)));
    match token {
        Some(t) => {
            r.push((String::from_str("Authorization"), String::from_str("Bearer ").concat(t)));
        },
        None => {},
    }
    r
}

} // verus!

verus! {

/// Settings shared read-only by every request of a run.
pub struct Config {
    pub api_token: Option<String>,
    pub colored_output: bool,
}

impl Config {
    /// Unauthenticated requests.
    pub fn new(colored_output: bool) -> (r: Config)
        ensures
            r.api_token is None,
            r.colored_output == colored_output,
    {
        Config { api_token: None, colored_output }
    }

    /// Requests that carry `token` as bearer credential.
    pub fn with_token(token: String, colored_output: bool) -> (r: Config)
        ensures
            r.api_token == Some(token),
            r.colored_output == colored_output,
    {
        Config { api_token: Some(token), colored_output }
    }

    /// The headers of every API request under this configuration.
    pub fn get_headers(&self) -> (r: Vec<(String, String)>)
        ensures
            r@.len() == if self.api_token is Some {
                3int
            } else {
                2int
            },
            r@[0].0@ == "Accept"@ && r@[0].1@ == "application/vnd.github.v3+json"@,
            r@[1].0@ == "User-Agent"@ && r@[1].1@ == "rhythmcache.t.me/gh-tree/0.2.0"@,
            self.api_token matches Some(t) ==> r@[2].0@ == "Authorization"@ && r@[2].1@
                == "Bearer "@ + t@,
    {
        match &self.api_token {
            Some(t) => request_headers(Some(t.as_str())),
            None => request_headers(None),
        }
    }
}

} // verus!
