//! A fluent builder that accumulates exchanges and bundle-level metadata,
//! then materializes a `Bundle`.

use crate::bundle::{bundle_from_parts, exchanges_view, Bundle, Exchange, ExchangeView, Version};
use crate::error::Error;
use vstd::prelude::*;

verus! {

/// The mathematical content of a builder.
pub struct BuilderView {
    pub version: Option<Version>,
    pub primary_url: Option<Seq<char>>,
    pub manifest: Option<Seq<char>>,
    pub exchanges: Seq<ExchangeView>,
}

/// A Bundle builder.
pub struct Builder {
    version: Option<Version>,
    primary_url: Option<String>,
    manifest: Option<String>,
    exchanges: Vec<Exchange>,
}

impl View for Builder {
    type V = BuilderView;

    closed spec fn view(&self) -> BuilderView {
        BuilderView {
            version: self.version,
            primary_url: match self.primary_url {
                Some(u) => Some(u@),
                None => None,
            },
            manifest: match self.manifest {
                Some(u) => Some(u@),
                None => None,
            },
            exchanges: exchanges_view(self.exchanges@),
        }
    }
}

impl Builder {
    pub(crate) fn new() -> (r: Builder)
        ensures
            r@.version is None,
            r@.primary_url is None,
            r@.manifest is None,
            r@.exchanges.len() == 0,
    {
        let r = Builder { version: None, primary_url: None, manifest: None, exchanges: Vec::new() };
        proof {
            assert(r@.exchanges =~= Seq::<ExchangeView>::empty());
        }
        r
    }

    /// Sets the version.
    pub fn version(self, version: Version) -> (r: Self)
        ensures
            r@.version == Some(version),
            r@.primary_url == self@.primary_url,
            r@.manifest == self@.manifest,
            r@.exchanges == self@.exchanges,
    {
        Builder { version: Some(version), ..self }
    }

    /// Sets the primary url.
    pub fn primary_url(self, primary_url: String) -> (r: Self)
        ensures
            r@.version == self@.version,
            r@.primary_url == Some(primary_url@),
            r@.manifest == self@.manifest,
            r@.exchanges == self@.exchanges,
    {
        Builder { primary_url: Some(primary_url), ..self }
    }

    /// Sets the manifest url.  The current wire layout has no manifest
    /// section, so the value is held but not encoded.
    pub fn manifest(self, manifest: String) -> (r: Self)
        ensures
            r@.version == self@.version,
            r@.primary_url == self@.primary_url,
            r@.manifest == Some(manifest@),
            r@.exchanges == self@.exchanges,
    {
        Builder { manifest: Some(manifest), ..self }
    }

    /// Adds the exchange.
    pub fn exchange(self, exchange: Exchange) -> (r: Self)
        ensures
            r@.version == self@.version,
            r@.primary_url == self@.primary_url,
            r@.manifest == self@.manifest,
            r@.exchanges == self@.exchanges.push(exchange@),
    {
        let mut exchanges = self.exchanges;
        let ghost old_exchanges = exchanges@;
        exchanges.push(exchange);
        proof {
            assert(exchanges_view(exchanges@) =~= exchanges_view(old_exchanges).push(exchange@));
        }
        Builder { exchanges, ..self }
    }

    /// Builds the bundle.  Fails exactly when no version was set; a builder
    /// with zero exchanges is valid.
    pub fn build(self) -> (r: Result<Bundle, Error>)
        ensures
            match r {
                Ok(b) => {
                    &&& self@.version is Some
                    &&& b@.version == self@.version.unwrap().spec_bytes()
                    &&& b@.primary_url == self@.primary_url
                    &&& b@.exchanges == self@.exchanges
                    &&& b@.version.len() == 4
                },
                Err(e) => {
                    &&& e == Error::MissingVersion
                    &&& self@.version is None
                },
            },
    {
        match self.version {
            None => Err(Error::MissingVersion),
            Some(version) => {
                proof {
                    match version {
                        Version::Unknown(a) => {
                            assert(version.spec_bytes().len() == 4);
                        },
                        _ => {},
                    }
                }
                Ok(bundle_from_parts(version, self.primary_url, self.exchanges))
            },
        }
    }
}

impl Bundle {
    /// Returns a new builder.
    pub fn builder() -> (r: Builder)
        ensures
            r@.version is None,
            r@.primary_url is None,
            r@.manifest is None,
            r@.exchanges.len() == 0,
    {
        Builder::new()
    }
}

} // verus!
