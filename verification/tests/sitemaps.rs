use heater::sitemaps::{Crawl, Location, SiteMapEntity, SiteMapError, Step};

fn fetch(crawl: &mut Crawl) -> String {
    match crawl.next_step() {
        Step::Fetch(url) => url,
        other => panic!("expected a sitemap to fetch, got {:?}", other),
    }
}

#[test]
fn does_not_exist() {
    let mut crawl = Crawl::new("http://does/not/exist".to_string());
    assert_eq!(fetch(&mut crawl), "http://does/not/exist");
    crawl.request_failed();
    assert_eq!(crawl.next_step(), Step::Failed(SiteMapError::RequestError));
    assert!(crawl.finish().is_err());
}

#[test]
fn invalid_xml() {
    let mut crawl = Crawl::new("http://localhost/sitemap.xml".to_string());
    fetch(&mut crawl);
    crawl.fetched("asdf");
    assert_eq!(crawl.next_step(), Step::Failed(SiteMapError::XmlError));
    assert_eq!(crawl.next_step(), Step::Failed(SiteMapError::XmlError));
    assert!(crawl.finish().is_err());
}

#[test]
fn load_single_sitemap() {
    let mut crawl = Crawl::new("http://localhost/sitemap.xml".to_string());
    fetch(&mut crawl);
    crawl.fetched(
        r#"
              <urlset xmlns="http://www.sitemaps.org/schemas/sitemap/0.9">
                <url>
                    <loc>http://www.example.com/</loc>
                </url>
            </urlset>"#,
    );
    assert_eq!(crawl.next_step(), Step::Done);
    assert_eq!(crawl.finish().unwrap()[..], ["http://www.example.com/"]);
}

#[test]
fn load_sub_sitemaps() {
    let mut crawl = Crawl::new("http://localhost/sitemap.xml".to_string());
    assert_eq!(fetch(&mut crawl), "http://localhost/sitemap.xml");
    crawl.fetched(&format!(
        r#"
                <sitemapindex xmlns="http://www.sitemaps.org/schemas/sitemap/0.9">
                    <sitemap>
                        <loc>{}/real_sitemap.xml</loc>
                    </sitemap>
                </sitemapindex>"#,
        "http://localhost"
    ));
    assert_eq!(fetch(&mut crawl), "http://localhost/real_sitemap.xml");
    crawl.fetched(
        r#"
                <urlset xmlns="http://www.sitemaps.org/schemas/sitemap/0.9">
                    <url>
                        <loc>http://www.example11.com/</loc>
                    </url>
                </urlset>"#,
    );
    assert_eq!(crawl.next_step(), Step::Done);
    assert_eq!(crawl.finish().unwrap()[..], ["http://www.example11.com/"]);
}

#[test]
fn pages_of_a_sub_sitemap_stand_where_its_entry_stood() {
    let page = |url: &str| SiteMapEntity::Url(Location::Url(url.to_string()));
    let index = |url: &str| SiteMapEntity::SiteMap(Location::Url(url.to_string()));
    let mut crawl = Crawl::new("http://root/".to_string());
    assert_eq!(fetch(&mut crawl), "http://root/");
    crawl.fetched_entities(vec![
        page("http://a/"),
        index("http://first/"),
        SiteMapEntity::Url(Location::Missing),
        SiteMapEntity::SiteMap(Location::Invalid),
        page("http://d/"),
        index("http://second/"),
        page("http://f/"),
    ]);
    assert_eq!(fetch(&mut crawl), "http://first/");
    crawl.fetched_entities(vec![
        page("http://b/"),
        index("http://inner/"),
        SiteMapEntity::Url(Location::Invalid),
    ]);
    assert_eq!(fetch(&mut crawl), "http://inner/");
    crawl.fetched_entities(vec![page("http://c/")]);
    assert_eq!(fetch(&mut crawl), "http://second/");
    crawl.fetched_entities(vec![SiteMapEntity::SiteMap(Location::Missing), page("http://e/")]);
    assert_eq!(crawl.next_step(), Step::Done);
    assert_eq!(crawl.next_step(), Step::Done);
    assert_eq!(
        crawl.finish().unwrap(),
        vec!["http://a/", "http://b/", "http://c/", "http://d/", "http://e/", "http://f/"]
    );
}

#[test]
fn broken_xml_ends_the_walk_where_it_stands() {
    let page = |url: &str| SiteMapEntity::Url(Location::Url(url.to_string()));
    let mut crawl = Crawl::new("http://root/".to_string());
    fetch(&mut crawl);
    crawl.fetched_entities(vec![
        page("http://a/"),
        SiteMapEntity::Broken,
        SiteMapEntity::SiteMap(Location::Url("http://never/".to_string())),
    ]);
    assert_eq!(crawl.next_step(), Step::Failed(SiteMapError::XmlError));
    assert_eq!(crawl.finish(), Err(SiteMapError::XmlError));
}

#[test]
fn a_document_that_breaks_off_gives_its_pages_and_then_fails() {
    let mut crawl = Crawl::new("http://root/".to_string());
    fetch(&mut crawl);
    crawl.fetched(
        r#"<urlset xmlns="http://www.sitemaps.org/schemas/sitemap/0.9">
             <url><loc>http://www.example.com/</loc></url>
             <url><loc>not a url</loc></url>
             <url>"#,
    );
    assert_eq!(crawl.next_step(), Step::Failed(SiteMapError::XmlError));
}

#[test]
fn an_empty_sitemap_has_no_pages() {
    let mut crawl = Crawl::new("http://root/".to_string());
    fetch(&mut crawl);
    crawl.fetched(r#"<urlset xmlns="http://www.sitemaps.org/schemas/sitemap/0.9"></urlset>"#);
    assert_eq!(crawl.next_step(), Step::Done);
    assert_eq!(crawl.finish(), Ok(Vec::new()));
}
