use arklib::id::ResourceId;
use arklib::link::{Link, OpenGraphTag};

#[test]
fn open_graph_tag_names() {
    assert_eq!(OpenGraphTag::Title.as_str(), "title");
    assert_eq!(OpenGraphTag::Description.as_str(), "description");
    assert_eq!(OpenGraphTag::ImageHeight.as_str(), "image:height");
    assert_eq!(OpenGraphTag::SiteName.as_str(), "site_name");
}

#[test]
fn link_identifier_is_that_of_its_url() {
    let url = "https://kaydee.net/blog/open-graph-image/";
    let link = Link::new(url.to_string(), "title".to_string(), Some("desc".to_string()));
    assert_eq!(link.prop.title, "title");
    assert_eq!(link.prop.desc.as_deref(), Some("desc"));
    assert_eq!(link.id().unwrap(), ResourceId::compute_bytes(url.as_bytes()).unwrap());
}
