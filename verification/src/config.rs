//! Where the measurements are sent.

use vstd::prelude::*;

verus! {

/// The remote endpoint and the credential presented to it. Loaded once and
/// not changed afterwards.
#[derive(Debug, PartialEq, Eq)]
pub struct EndpointConfig {
    pub org: String,
    pub bucket: String,
    pub url: String,
    pub token: String,
}

/// An endpoint configuration as plain mathematical data.
pub struct EndpointConfigView {
    pub org: Seq<char>,
    pub bucket: Seq<char>,
    pub url: Seq<char>,
    pub token: Seq<char>,
}

impl View for EndpointConfig {
    type V = EndpointConfigView;

    open spec fn view(&self) -> EndpointConfigView {
        EndpointConfigView {
            org: self.org@,
            bucket: self.bucket@,
            url: self.url@,
            token: self.token@,
        }
    }
}

/// The configuration used when none is given.
pub open spec fn default_endpoint() -> EndpointConfigView {
    EndpointConfigView {
        org: "myorg"@,
        bucket: "mybucket"@,
        url: "http://localhost:9999"@,
        token: "my-token"@,
    }
}

impl Default for EndpointConfig {
    /// A local endpoint with placeholder organisation, bucket and token.
    fn default() -> (config: EndpointConfig)
        ensures
            config@ == default_endpoint(),
    {
        EndpointConfig {
            org: "myorg".to_owned(),
            bucket: "mybucket".to_owned(),
            url: "http://localhost:9999".to_owned(),
            token: "my-token".to_owned(),
        }
    }
}

impl Clone for EndpointConfig {
    fn clone(&self) -> (copy: EndpointConfig)
        ensures
            copy@ == self@,
    {
        EndpointConfig {
            org: self.org.clone(),
            bucket: self.bucket.clone(),
            url: self.url.clone(),
            token: self.token.clone(),
        }
    }
}

impl EndpointConfig {
    /// The configuration in force: the one that was loaded, or the default
    /// where none was.
    pub fn resolve(loaded: Option<EndpointConfig>) -> (config: EndpointConfig)
        ensures
            config@ == match loaded {
                Some(given) => given@,
                None => default_endpoint(),
            },
    {
        match loaded {
            Some(given) => given,
            None => EndpointConfig::default(),
        }
    }
}

} // verus!
