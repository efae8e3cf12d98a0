use vstd::prelude::*;
use vstd::string::StringExecFns;
use crate::text::{decimal_text, number_text};

verus! {

/// The GitHub issue tracker.
pub struct GithubApi;

/// What became of a request to create an issue.
#[derive(Copy, Clone, Debug, PartialEq, Eq, Structural)]
pub enum PostOutcome {
    /// The issue was created with this number.
    Created(u64),
    /// The answer was a success without an issue number.
    Malformed,
    /// The tracker refused, presumably for the rate limit (403 or 429).
    RateLimited,
    /// Any other refusal.
    Failed,
}

pub open spec fn is_success(status: u16) -> bool {
    200 <= status <= 299
}

/// The issue tracker's surface: the variable that holds its token, the
/// project's page, and the endpoints for issues.
pub trait Api {
    /// The environment variable that holds the API token.
    fn get_api_token_env_var(&self) -> &'static str;

    /// The project's web page.
    fn get_project_url(&self, owner: &str, repo: &str) -> String;

    /// The endpoint that lists and creates issues.
    fn get_issues_api_url(&self, owner: &str, repo: &str) -> String;

    /// The endpoint of one issue.
    fn get_issue_api_url(&self, owner: &str, repo: &str, issue: &crate::issue::Issue) -> String;
}

impl Api for GithubApi {
    /// The environment variable that holds the API token.
    fn get_api_token_env_var(&self) -> (r: &'static str)
        ensures
            r@ == "STALKR_GITHUB_TOKEN"@,
    {
        "STALKR_GITHUB_TOKEN"
    }

    /// The project's web page.
    fn get_project_url(&self, owner: &str, repo: &str) -> (r: String)
        ensures
            r@ == "https://github.com/"@ + owner@ + "/"@ + repo@,
    {
        let s = String::from_str("https://github.com/");
        let s = s.concat(owner);
        let s = s.concat("/");
        s.concat(repo)
    }

    /// The endpoint that lists and creates issues.
    fn get_issues_api_url(&self, owner: &str, repo: &str) -> (r: String)
        ensures
            r@ == "https://api.github.com/repos/"@ + owner@ + "/"@ + repo@ + "/issues"@,
    {
        let s = String::from_str("https://api.github.com/repos/");
        let s = s.concat(owner);
        let s = s.concat("/");
        let s = s.concat(repo);
        s.concat("/issues")
    }

    /// The endpoint of one issue.
    fn get_issue_api_url(&self, owner: &str, repo: &str, issue: &crate::issue::Issue) -> (r:
        String)
        ensures
            r@ == "https://api.github.com/repos/"@ + owner@ + "/"@ + repo@ + "/issues/"@
                + decimal_text(issue.issue_number as nat),
    {
        let s = String::from_str("https://api.github.com/repos/");
        let s = s.concat(owner);
        let s = s.concat("/");
        let s = s.concat(repo);
        let s = s.concat("/issues/");
        let n = number_text(issue.issue_number);
        s.concat(n.as_str())
    }

}

impl GithubApi {
    /// What a response to an issue creation means: its status, and the
    /// `number` field of its body when there is one.
    pub fn post_outcome(status: u16, number: Option<u64>) -> (r: PostOutcome)
        ensures
            is_success(status) && number is Some ==> r == PostOutcome::Created(number->Some_0),
            is_success(status) && number is None ==> r == PostOutcome::Malformed,
            !is_success(status) && (status == 403 || status == 429) ==> r
                == PostOutcome::RateLimited,
            !is_success(status) && status != 403 && status != 429 ==> r == PostOutcome::Failed,
    {
        if 200 <= status && status <= 299 {
            match number {
                Some(n) => PostOutcome::Created(n),
                None => PostOutcome::Malformed,
            }
        } else if status == 403 || status == 429 {
            PostOutcome::RateLimited
        } else {
            PostOutcome::Failed
        }
    }

    /// Whether a response to an issue query says the issue is closed: a
    /// success whose `state` field is `closed`.
    pub fn issue_is_closed(status: u16, state: Option<&str>) -> (r: bool)
        ensures
            r == (is_success(status) && state is Some && state->Some_0@ == "closed"@),
    {
        if 200 <= status && status <= 299 {
            match state {
                Some(s) => str_eq(s, "closed"),
                None => false,
            }
        } else {
            false
        }
    }
}

/// Whether two strings are equal.
pub fn str_eq(a: &str, b: &str) -> (r: bool)
    ensures
        r == (a@ == b@),
{
    let x = String::from_str(a);
    let y = String::from_str(b);
    x == y
}

} // verus!
