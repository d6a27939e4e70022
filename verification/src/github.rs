use vstd::prelude::*;

verus! {

/// One repository's metadata as delivered by the remote API. Only
/// `stargazers_count` and `forks_count` feed the aggregation; the other
/// fields are carried through for callers that persist the raw data.
#[derive(Debug, Clone)]
pub struct Repository {
    pub id: u64,
    pub name: String,
    pub full_name: String,
    pub language: Option<String>,
    pub languages_url: String,
    pub stargazers_count: u32,
    pub forks_count: u32,
    pub updated_at: String,
}

} // verus!
