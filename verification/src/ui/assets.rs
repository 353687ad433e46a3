//! Which web interface is served.
use crate::path::UnixPath;
use vstd::prelude::*;

verus! {

/// Where a web interface is kept, and where it is downloaded from.
#[derive(Debug, Clone, PartialEq, Eq)]
pub struct ExternalUiConfig {
    pub path: UnixPath,
    pub url: String,
}

/// The configuration of the web interface.
#[derive(Debug, Clone, PartialEq, Eq)]
pub struct UiConfig {
    pub external: Option<ExternalUiConfig>,
}

/// A web interface that is kept in a directory.
#[derive(Debug, Clone, PartialEq, Eq)]
pub struct ExternalUiAssets {
    pub path: UnixPath,
    pub url: String,
}

/// The web interface that is served.
#[derive(Debug, Clone, PartialEq, Eq)]
pub enum UiAssets {
    /// The page that is part of the program.
    BuiltIn,
    /// One that is kept in a directory.
    External(ExternalUiAssets),
}

impl ExternalUiAssets {
    /// The web interface that a configuration describes.
    pub fn new(config: ExternalUiConfig) -> (assets: ExternalUiAssets)
        ensures
            assets.path == config.path,
            assets.url == config.url,
    {
        ExternalUiAssets { path: config.path, url: config.url }
    }
}

impl UiAssets {
    /// The page that is part of the program.
    pub fn built_in() -> (assets: UiAssets)
        ensures
            assets is BuiltIn,
    {
        UiAssets::BuiltIn
    }

    /// What a configuration asks for: the directory that it names, or the built-in page.
    pub fn from_config(config: &UiConfig) -> (assets: UiAssets)
        ensures
            match config.external {
                Some(external) => {
                    &&& assets is External
                    &&& assets->External_0.path@ == external.path@
                    &&& assets->External_0.url@ == external.url@
                },
                None => assets is BuiltIn,
            },
    {
        match &config.external {
            Some(external) => {
                let config = ExternalUiConfig {
                    path: external.path.copied(),
                    url: external.url.clone(),
                };
                UiAssets::External(ExternalUiAssets::new(config))
            },
            None => UiAssets::BuiltIn,
        }
    }
}

} // verus!
