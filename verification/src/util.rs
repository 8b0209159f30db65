//! Where the client keeps its configuration and state.

use vstd::prelude::*;

verus! {

/// The directory, relative to the home directory, that holds the client's files.
pub open spec fn config_dir_name() -> Seq<char> {
    seq!['.', 'r', 'u', 's', 't', 'o', 'r', 'c', 'l', 'i']
}

/// The configuration directory inside the home directory `home`.
pub open spec fn config_directory_spec(home: Seq<char>) -> Seq<char> {
    home + seq!['/'] + config_dir_name()
}

/// The configuration directory inside the home directory `home`: `<home>/.rustorcli`.
pub fn config_directory_in(home: &str) -> (r: String)
    ensures
        r@ == config_directory_spec(home@),
{
    let mut r = String::from_str(home);
    r.append("/");
    r.append(".rustorcli");
    proof {
        reveal_strlit("/");
        reveal_strlit(".rustorcli");
    }
    assert(r@ =~= config_directory_spec(home@));
    r
}

/// Calls `dirs::home_dir` and takes the path as text. What it returns depends on
/// the environment of the process; `None` where there is no home directory or
/// where its path is not valid UTF-8.
#[verifier::external_body]
fn home_directory() -> (r: Option<String>) {
    match dirs::home_dir() {
        Some(p) => p.to_str().map(|s| s.to_string()),
        None => None,
    }
}

/// The client's configuration directory, `<home>/.rustorcli`; `None` where the home
/// directory cannot be found or is not valid UTF-8.
pub fn config_directory() -> (r: Option<String>)
    ensures
        r matches Some(dir) ==> exists|home: Seq<char>| dir@ == config_directory_spec(home),
{
    match home_directory() {
        Some(home) => Some(config_directory_in(home.as_str())),
        None => None,
    }
}

} // verus!
