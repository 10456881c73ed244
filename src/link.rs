//! Links: a URL with user properties, and the OpenGraph data of its page.
use vstd::prelude::*;

use crate::errors::ArklibError;
use crate::id::ResourceId;
use crate::resource::blake3::blake3_of;

verus! {

/// What the user says of a link.
#[derive(Debug, Clone)]
pub struct Properties {
    pub title: String,
    pub desc: Option<String>,
}

/// A link and its properties.
#[derive(Debug, Clone)]
pub struct Link {
    pub url: String,
    pub prop: Properties,
}

impl Link {
    pub fn new(url: String, title: String, desc: Option<String>) -> (r: Self)
        ensures
            r.url == url,
            r.prop.title == title,
            r.prop.desc == desc,
    {
        Link { url, prop: Properties { title, desc } }
    }

    /// The identifier of the link: that of the bytes of its URL.
    pub fn id(&self) -> (r: Result<ResourceId, ArklibError>)
        ensures
            r matches Ok(id) && id.blake3@ == blake3_of(vstd::utf8::encode_utf8(self.url@)),
    {
        ResourceId::compute_bytes(self.url.as_str().as_bytes())
    }
}

/// The OpenGraph data of a page.
#[derive(Debug, Clone, Default)]
pub struct OpenGraph {
    /// The "og:title" tag.
    pub title: Option<String>,
    /// The "og:description" tag.
    pub description: Option<String>,
    /// The "og:url" tag.
    pub url: Option<String>,
    /// The "og:image" tag.
    pub image: Option<String>,
    /// The "og:type" tag.
    pub object_type: Option<String>,
    /// The "og:locale" tag.
    pub locale: Option<String>,
}

/// The OpenGraph meta tags.
#[derive(Debug, Clone, Copy, PartialEq, Eq)]
pub enum OpenGraphTag {
    Title,
    Url,
    Image,
    Type,
    Description,
    Locale,
    ImageHeight,
    ImageWidth,
    SiteName,
}

impl OpenGraphTag {
    /// The property name of the tag, after `og:`.
    pub fn as_str(&self) -> (r: &'static str)
        ensures
            r@ == match *self {
                OpenGraphTag::Title => "title"@,
                OpenGraphTag::Url => "url"@,
                OpenGraphTag::Image => "image"@,
                OpenGraphTag::Type => "type"@,
                OpenGraphTag::Description => "description"@,
                OpenGraphTag::Locale => "locale"@,
                OpenGraphTag::ImageHeight => "image:height"@,
                OpenGraphTag::ImageWidth => "image:width"@,
                OpenGraphTag::SiteName => "site_name"@,
            },
    {
        match self {
            OpenGraphTag::Title => "title",
            OpenGraphTag::Url => "url",
            OpenGraphTag::Image => "image",
            OpenGraphTag::Type => "type",
            OpenGraphTag::Description => "description",
            OpenGraphTag::Locale => "locale",
            OpenGraphTag::ImageHeight => "image:height",
            OpenGraphTag::ImageWidth => "image:width",
            OpenGraphTag::SiteName => "site_name",
        }
    }
}

} // verus!
