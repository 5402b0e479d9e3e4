//! The walk through a sitemap and the sitemaps that it points to.

use sitemap::reader::{self, SiteMapReader};
use sitemap::structs;
use vstd::prelude::*;

verus! {

/// Where an entry of a sitemap points.
#[derive(Clone, Debug, PartialEq, Eq)]
pub enum Location {
    /// The entry has no location.
    Missing,
    /// The entry points to this URL.
    Url(String),
    /// The entry's location is no URL.
    Invalid,
}

/// One entry of a sitemap.
#[derive(Clone, Debug, PartialEq, Eq)]
pub enum SiteMapEntity {
    /// A page.
    Url(Location),
    /// Another sitemap.
    SiteMap(Location),
    /// The document is no XML from here on.
    Broken,
}

/// A location as text.
pub enum LocationView {
    Missing,
    Url(Seq<char>),
    Invalid,
}

/// An entry as text.
pub enum EntityView {
    Url(LocationView),
    SiteMap(LocationView),
    Broken,
}

impl DeepView for Location {
    type V = LocationView;

    open spec fn deep_view(&self) -> LocationView {
        match *self {
            Location::Missing => LocationView::Missing,
            Location::Url(url) => LocationView::Url(url@),
            Location::Invalid => LocationView::Invalid,
        }
    }
}

impl DeepView for SiteMapEntity {
    type V = EntityView;

    open spec fn deep_view(&self) -> EntityView {
        match *self {
            SiteMapEntity::Url(location) => EntityView::Url(location.deep_view()),
            SiteMapEntity::SiteMap(location) => EntityView::SiteMap(location.deep_view()),
            SiteMapEntity::Broken => EntityView::Broken,
        }
    }
}

/// Why a walk has ended without a list of URLs.
#[derive(Clone, Copy, Debug, PartialEq, Eq)]
pub enum SiteMapError {
    /// A sitemap could not be fetched.
    RequestError,
    /// A sitemap is no XML.
    XmlError,
}

/// The entries that the sitemap crate reads from a document.
pub uninterp spec fn sitemap_entities(text: Seq<char>) -> Seq<EntityView>;

/// `SiteMapReader::new` on the bytes of the text, and what its iterator
/// gives up to its end: the entries of the document, each with its kind and
/// its location.
#[verifier::external_body]
fn read_sitemap(text: &str) -> (r: Vec<SiteMapEntity>)
    ensures
        r.deep_view() == sitemap_entities(text@),
{
    let place = |location| match location {
        structs::Location::None => Location::Missing,
        structs::Location::Url(url) => Location::Url(String::from(url)),
        structs::Location::ParseErr(_) => Location::Invalid,
    };
    SiteMapReader::new(text.as_bytes()).map(|entity| match entity {
        reader::SiteMapEntity::Url(entry) => SiteMapEntity::Url(place(entry.loc)),
        reader::SiteMapEntity::SiteMap(entry) => SiteMapEntity::SiteMap(place(entry.loc)),
        reader::SiteMapEntity::Err(_) => SiteMapEntity::Broken,
    }).collect()
}

/// What the one who fetches the sitemaps does next.
#[derive(Clone, Debug, PartialEq, Eq)]
pub enum Step {
    /// Fetch the sitemap at this URL and hand it in, then ask again.
    Fetch(String),
    /// Every sitemap has been read.
    Done,
    /// The walk has ended with an error.
    Failed(SiteMapError),
}

/// A step as text.
pub enum StepView {
    Fetch(Seq<char>),
    Done,
    Failed(SiteMapError),
}

impl DeepView for Step {
    type V = StepView;

    open spec fn deep_view(&self) -> StepView {
        match *self {
            Step::Fetch(url) => StepView::Fetch(url@),
            Step::Done => StepView::Done,
            Step::Failed(e) => StepView::Failed(e),
        }
    }
}

/// Reads the entries that wait, the first one first, up to the first one
/// that asks for something: a page with a URL adds that URL to what was
/// found, a sitemap with a URL asks for that sitemap, broken XML ends the
/// walk, and an entry without a URL is passed over. What comes back are the
/// entries that still wait, the URLs found, and what to do.
pub open spec fn walk(pending: Seq<EntityView>, found: Seq<Seq<char>>) -> (
    Seq<EntityView>,
    Seq<Seq<char>>,
    StepView,
)
    decreases pending.len(),
{
    if pending.len() == 0 {
        (pending, found, StepView::Done)
    } else {
        let rest = pending.drop_first();
        match pending[0] {
            EntityView::Url(LocationView::Url(url)) => walk(rest, found.push(url)),
            EntityView::SiteMap(LocationView::Url(url)) => (rest, found, StepView::Fetch(url)),
            EntityView::Broken => (rest, found, StepView::Failed(SiteMapError::XmlError)),
            _ => walk(rest, found),
        }
    }
}

/// A walk keeps the URLs that were found and reads the entries in their
/// order: what was found before stays in front, and what still waits is
/// the end of what waited.
pub proof fn lemma_walk_goes_forward(pending: Seq<EntityView>, found: Seq<Seq<char>>)
    ensures
        found.is_prefix_of(walk(pending, found).1),
        walk(pending, found).0.is_suffix_of(pending),
        walk(pending, found).2 is Done ==> walk(pending, found).0.len() == 0,
    decreases pending.len(),
{
    if pending.len() > 0 {
        let rest = pending.drop_first();
        match pending[0] {
            EntityView::Url(LocationView::Url(url)) => {
                lemma_walk_goes_forward(rest, found.push(url));
            },
            EntityView::SiteMap(LocationView::Url(url)) => {},
            EntityView::Broken => {},
            _ => {
                lemma_walk_goes_forward(rest, found);
            },
        }
    }
}

/// A walk through a sitemap and the sitemaps that it points to, in the
/// order of the documents: what a sitemap points to stands where the entry
/// for that sitemap stood.
#[derive(Debug)]
pub struct Crawl {
    pending: Vec<SiteMapEntity>,
    found: Vec<String>,
    failed: Option<SiteMapError>,
}

impl Crawl {
    /// The entries that wait to be read, the next one first.
    pub closed spec fn pending(&self) -> Seq<EntityView> {
        self.pending.deep_view().reverse()
    }

    /// The URLs of the pages found so far.
    pub closed spec fn found(&self) -> Seq<Seq<char>> {
        self.found.deep_view()
    }

    /// The error that ended the walk, if one did.
    pub closed spec fn failed(&self) -> Option<SiteMapError> {
        self.failed
    }

    /// A walk that starts at the sitemap of the given URL.
    pub fn new(url: String) -> (r: Self)
        ensures
            r.pending() == seq![EntityView::SiteMap(LocationView::Url(url@))],
            r.found() == Seq::<Seq<char>>::empty(),
            r.failed() == None::<SiteMapError>,
    {
        let mut pending: Vec<SiteMapEntity> = Vec::new();
        pending.push(SiteMapEntity::SiteMap(Location::Url(url)));
        let found: Vec<String> = Vec::new();
        Crawl { pending, found, failed: None }
    }

    /// What to do next. After an error the answer stays that error.
    pub fn next_step(&mut self) -> (step: Step)
        ensures
            final(self).failed() == match step {
                Step::Failed(e) => Some(e),
                _ => None,
            },
            match old(self).failed() {
                Some(e) => {
                    &&& step == Step::Failed(e)
                    &&& final(self).pending() == old(self).pending()
                    &&& final(self).found() == old(self).found()
                },
                None => (final(self).pending(), final(self).found(), step.deep_view()) == walk(
                    old(self).pending(),
                    old(self).found(),
                ),
            },
    {
        if let Some(e) = self.failed {
            return Step::Failed(e);
        }
        loop
            invariant
                self.failed == None::<SiteMapError>,
                old(self).failed == None::<SiteMapError>,
                walk(self.pending(), self.found()) == walk(old(self).pending(), old(self).found()),
            decreases self.pending.len(),
        {
            let ghost stack = self.pending.deep_view();
            let ghost urls = self.found.deep_view();
            match self.pending.pop() {
                None => {
                    return Step::Done;
                },
                Some(entity) => {
                    proof {
                        assert(self.pending.deep_view() =~= stack.drop_last());
                        assert(stack.reverse().drop_first() =~= stack.drop_last().reverse());
                    }
                    match entity {
                        SiteMapEntity::Url(Location::Url(url)) => {
                            self.found.push(url);
                            assert(self.found.deep_view() =~= urls.push(url@));
                        },
                        SiteMapEntity::SiteMap(Location::Url(url)) => {
                            return Step::Fetch(url);
                        },
                        SiteMapEntity::Broken => {
                            self.failed = Some(SiteMapError::XmlError);
                            return Step::Failed(SiteMapError::XmlError);
                        },
                        _ => {},
                    }
                },
            }
        }
    }

    /// Takes the entries of a sitemap that was fetched: they are read before
    /// the entries that wait already.
    pub fn fetched_entities(&mut self, entities: Vec<SiteMapEntity>)
        ensures
            final(self).pending() == entities.deep_view() + old(self).pending(),
            final(self).found() == old(self).found(),
            final(self).failed() == old(self).failed(),
    {
        let ghost all = entities.deep_view();
        let mut rest = entities;
        let ghost before = self.pending.deep_view();
        loop
            invariant
                rest.len() <= all.len(),
                all == entities.deep_view(),
                before == old(self).pending.deep_view(),
                rest.deep_view() == all.take(rest.len() as int),
                self.pending.deep_view() == before + all.skip(rest.len() as int).reverse(),
                self.found == old(self).found,
                self.failed == old(self).failed,
            decreases rest.len(),
        {
            let ghost n = rest.len() as int;
            let ghost stack = self.pending.deep_view();
            match rest.pop() {
                None => {
                    return ;
                },
                Some(entity) => {
                    assert(entity.deep_view() == all[n - 1]) by {
                        assert(all.take(n)[n - 1] == all[n - 1]);
                    }
                    self.pending.push(entity);
                    assert(self.pending.deep_view() =~= stack.push(all[n - 1]));
                },
            }
        }
    }

    /// Takes the text of a sitemap that was fetched.
    pub fn fetched(&mut self, text: &str)
        ensures
            final(self).pending() == sitemap_entities(text@) + old(self).pending(),
            final(self).found() == old(self).found(),
            final(self).failed() == old(self).failed(),
    {
        self.fetched_entities(read_sitemap(text));
    }

    /// Takes note that a sitemap could not be fetched, which ends the walk.
    pub fn request_failed(&mut self)
        ensures
            final(self).failed() == Some(SiteMapError::RequestError),
            final(self).pending() == old(self).pending(),
            final(self).found() == old(self).found(),
    {
        self.failed = Some(SiteMapError::RequestError);
    }

    /// The URLs of the pages found, or the error that ended the walk.
    pub fn finish(self) -> (r: Result<Vec<String>, SiteMapError>)
        ensures
            match self.failed() {
                Some(e) => r == Err::<Vec<String>, SiteMapError>(e),
                None => r matches Ok(urls) && urls.deep_view() == self.found(),
            },
    {
        match self.failed {
            Some(e) => Err(e),
            None => Ok(self.found),
        }
    }
}

} // verus!
