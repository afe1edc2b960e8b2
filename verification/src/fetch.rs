//! Deciding how a static GTFS archive is downloaded.
//!
//! What keeps a bad download from being indistinguishable from a good one is
//! decided here; the request and the files are somebody else's.
//!
//! An archive only goes to its place once it has been found to be a zip that
//! holds the files GTFS requires. A download interrupted halfway leaves a
//! truncated zip, and a server may answer with an HTML error page and a success
//! status; neither must land on disk as a feed.
//!
//! Freshness is decided by the server. The validators that came with the last
//! successful download are stored beside the archive and sent with the next
//! request, so that asking for an unchanged feed costs one round trip. Without
//! validators the request is unconditional.

use vstd::prelude::*;

use crate::config;
use crate::config::Agency;
use crate::error::{Error, ErrorView, FeedError, FeedErrorView};
use crate::gtfs::archive;
use crate::keys;

verus! {

// ---------------------------------------------------------------------------
// Archives that are feeds
// ---------------------------------------------------------------------------

/// The files without which an archive is not a GTFS feed.
pub open spec fn required_names() -> Seq<Seq<char>> {
    seq!["agency.txt"@, "routes.txt"@, "stops.txt"@, "trips.txt"@, "stop_times.txt"@]
}

/// The files without which an archive is not a GTFS feed.
pub fn required_files() -> (r: Vec<&'static str>)
    ensures
        keys::slice_texts(r@) == required_names(),
{
    let mut r: Vec<&'static str> = Vec::new();
    r.push("agency.txt");
    r.push("routes.txt");
    r.push("stops.txt");
    r.push("trips.txt");
    r.push("stop_times.txt");
    assert(keys::slice_texts(r@) =~= required_names());
    r
}

/// The first of a list of files that is missing among entries.
pub open spec fn first_missing(files: Seq<Seq<char>>, entries: Seq<Seq<char>>) -> Option<Seq<char>>
    decreases files.len(),
{
    if files.len() == 0 {
        None
    } else {
        match first_missing(files.drop_last(), entries) {
            Some(file) => Some(file),
            None => if archive::entry_for(entries, files.last()) is None {
                Some(files.last())
            } else {
                None
            },
        }
    }
}

/// What is wrong with bytes that are to be an archive at `dest`, given its
/// listing.
pub open spec fn archive_fault(
    listing: Option<Seq<Seq<char>>>,
    dest: Seq<char>,
) -> Option<FeedErrorView> {
    match listing {
        None => Some(FeedErrorView::BadArchive { path: dest }),
        Some(entries) => match first_missing(required_names(), entries) {
            Some(file) => Some(FeedErrorView::MissingFile { file }),
            None => None,
        },
    }
}

/// Rejects anything that is not a zip holding the files GTFS requires.
pub fn validate_archive(body: &[u8], dest: &str) -> (r: Result<(), Error>)
    ensures
        match r {
            Ok(()) => archive_fault(archive::zip_listing(body@), dest@) is None,
            Err(e) => e@ matches ErrorView::Feed(fault) && archive_fault(
                archive::zip_listing(body@),
                dest@,
            ) == Some(fault),
        },
{
    validate_listing(&archive::list_entries(body), dest)
}

/// Rejects anything that is not a zip holding the files GTFS requires, given
/// the names of its entries.
pub fn validate_listing(listing: &Option<Vec<String>>, dest: &str) -> (r: Result<(), Error>)
    ensures
        match r {
            Ok(()) => archive_fault(archive::listing_view(*listing), dest@) is None,
            Err(e) => e@ matches ErrorView::Feed(fault) && archive_fault(
                archive::listing_view(*listing),
                dest@,
            ) == Some(fault),
        },
{
    let entries: &Vec<String> = match listing {
        Some(entries) => entries,
        None => return Err(Error::Feed(FeedError::BadArchive { path: dest.to_string() })),
    };
    let files: Vec<&'static str> = required_files();
    let ghost names = keys::texts(entries@);
    let ghost wanted = keys::slice_texts(files@);
    let mut i: usize = 0;
    while i < files.len()
        invariant
            i <= files@.len(),
            names == keys::texts(entries@),
            wanted == keys::slice_texts(files@),
            wanted == required_names(),
            archive::listing_view(*listing) == Some(names),
            first_missing(wanted.take(i as int), names) is None,
        decreases files@.len() - i,
    {
        assert(wanted.take(i + 1).drop_last() =~= wanted.take(i as int));
        assert(wanted.take(i + 1).last() == files@[i as int]@);
        if let None = archive::find_entry(entries, files[i]) {
            proof {
                lemma_missing_stays(wanted, names, i + 1);
            }
            return Err(Error::Feed(FeedError::MissingFile { file: files[i].to_string() }));
        }
        i = i + 1;
    }
    assert(wanted.take(wanted.len() as int) =~= wanted);
    Ok(())
}

proof fn lemma_missing_stays(files: Seq<Seq<char>>, entries: Seq<Seq<char>>, n: int)
    requires
        0 <= n <= files.len(),
        first_missing(files.take(n), entries) is Some,
    ensures
        first_missing(files, entries) == first_missing(files.take(n), entries),
    decreases files.len() - n,
{
    if n == files.len() {
        assert(files.take(n) =~= files);
    } else {
        assert(files.take(n + 1).drop_last() =~= files.take(n));
        lemma_missing_stays(files, entries, n + 1);
    }
}

/// Bytes that were found to be a zip holding the files GTFS requires, and may
/// go to their place. There is no other way to make one.
pub struct Installable {
    body: Vec<u8>,
}

impl View for Installable {
    type V = Seq<u8>;

    closed spec fn view(&self) -> Seq<u8> {
        self.body@
    }
}

impl Installable {
    #[verifier::type_invariant]
    spec fn is_feed(self) -> bool {
        archive_fault(archive::zip_listing(self.body@), Seq::empty()) is None
    }

    /// Checks bytes that are to go to `dest`.
    pub fn new(body: Vec<u8>, dest: &str) -> (r: Result<Installable, Error>)
        ensures
            match r {
                Ok(installable) => archive_fault(archive::zip_listing(body@), dest@) is None
                    && installable@ == body@,
                Err(e) => e@ matches ErrorView::Feed(fault) && archive_fault(
                    archive::zip_listing(body@),
                    dest@,
                ) == Some(fault),
            },
    {
        match validate_archive(body.as_slice(), dest) {
            Ok(()) => Ok(Installable { body }),
            Err(e) => Err(e),
        }
    }

    /// The bytes.
    pub fn body(&self) -> (r: &[u8])
        ensures
            r@ == self@,
            archive_fault(archive::zip_listing(r@), Seq::empty()) is None,
    {
        proof {
            use_type_invariant(self);
        }
        self.body.as_slice()
    }
}

// ---------------------------------------------------------------------------
// Requests
// ---------------------------------------------------------------------------

/// What a fetch came to.
#[derive(Debug, Clone, PartialEq, Eq)]
pub struct Fetched {
    pub agency_id: String,
    pub path: String,
    pub bytes: u64,
    /// True when an existing archive was kept rather than downloaded again.
    pub reused: bool,
}

/// The view of a [`Fetched`].
#[verifier::ext_equal]
pub struct FetchedView {
    pub agency_id: Seq<char>,
    pub path: Seq<char>,
    pub bytes: u64,
    pub reused: bool,
}

impl View for Fetched {
    type V = FetchedView;

    open spec fn view(&self) -> FetchedView {
        FetchedView {
            agency_id: self.agency_id@,
            path: self.path@,
            bytes: self.bytes,
            reused: self.reused,
        }
    }
}

/// The cache validators the server gave with the archive currently on disk.
#[derive(Debug, Clone, PartialEq, Eq)]
pub struct CacheValidators {
    pub etag: Option<String>,
    pub last_modified: Option<String>,
}

impl Default for CacheValidators {
    fn default() -> (r: CacheValidators)
        ensures
            r.etag is None,
            r.last_modified is None,
    {
        CacheValidators { etag: None, last_modified: None }
    }
}

impl CacheValidators {
    /// Whether there is nothing to send. Then no file is to be stored: a stale
    /// one would condition the next request on bytes that are gone.
    pub fn is_empty(&self) -> (r: bool)
        ensures
            r == (self.etag is None && self.last_modified is None),
    {
        match (&self.etag, &self.last_modified) {
            (None, None) => true,
            _ => false,
        }
    }

    /// Where the validators of an archive are stored: beside it, under its whole
    /// name.
    pub fn path_for(archive: &str) -> (r: String)
        ensures
            r@ == archive@ + ".cache.json"@,
    {
        let mut r: String = archive.to_string();
        r.append(".cache.json");
        r
    }
}

/// What a fetch does first.
pub enum Opening {
    /// The archive on disk is kept, without a request.
    Keep(Fetched),
    /// The server is asked. A conditional request carries the validators that
    /// are stored beside the archive.
    Ask { conditional: bool },
}

/// An agency's archive as it lies under a data directory.
pub open spec fn on_disk(agency: Agency, data_dir: Seq<char>, bytes: u64, reused: bool) -> FetchedView {
    FetchedView { agency_id: agency.id@, path: agency.archive_place(data_dir), bytes, reused }
}

/// The view of an [`Opening`].
#[verifier::ext_equal]
pub enum OpeningView {
    Keep(FetchedView),
    Ask { conditional: bool },
}

impl View for Opening {
    type V = OpeningView;

    open spec fn view(&self) -> OpeningView {
        match self {
            Opening::Keep(fetched) => OpeningView::Keep(fetched@),
            Opening::Ask { conditional } => OpeningView::Ask { conditional: *conditional },
        }
    }
}

/// How a fetch begins.
pub open spec fn opening(
    agency: Agency,
    data_dir: Seq<char>,
    existing: Option<u64>,
    force: bool,
) -> OpeningView {
    match existing {
        Some(bytes) if !force => OpeningView::Keep(on_disk(agency, data_dir, bytes, true)),
        _ => OpeningView::Ask { conditional: existing is Some },
    }
}

/// How a fetch begins. `existing` is the size of the archive on disk, if there
/// is one: it is kept unless `force` is set, and only then is there something
/// that the server can call unchanged.
pub fn begin(agency: &Agency, data_dir: &str, existing: Option<u64>, force: bool) -> (r: Opening)
    ensures
        match r {
            Opening::Keep(fetched) => existing matches Some(bytes) && !force && fetched@ == on_disk(
                *agency,
                data_dir@,
                bytes,
                true,
            ),
            Opening::Ask { conditional } => (existing is None || force) && conditional == (
            existing is Some),
        },
        r@ == opening(*agency, data_dir@, existing, force),
{
    match existing {
        Some(bytes) => if force {
            Opening::Ask { conditional: true }
        } else {
            Opening::Keep(kept(agency, data_dir, bytes))
        },
        None => Opening::Ask { conditional: false },
    }
}

/// What a server's answer is.
#[derive(Debug, Clone, Copy, PartialEq, Eq, Structural)]
pub enum Answer {
    /// The archive on disk is what the server has.
    NotModified,
    /// A body follows.
    Body,
}

/// What an HTTP status means.
pub open spec fn status_meaning(url: Seq<char>, status: u16) -> Result<Answer, FeedErrorView> {
    if status == 304 {
        Ok(Answer::NotModified)
    } else if 200 <= status < 300 {
        Ok(Answer::Body)
    } else {
        Err(FeedErrorView::HttpStatus { url, status: status as int })
    }
}

/// What an HTTP status from `url` means.
pub fn judge(url: &str, status: u16) -> (r: Result<Answer, FeedError>)
    ensures
        match r {
            Ok(answer) => status_meaning(url@, status) == Ok::<Answer, FeedErrorView>(answer),
            Err(e) => status_meaning(url@, status) == Err::<Answer, FeedErrorView>(e@),
        },
{
    if status == 304 {
        Ok(Answer::NotModified)
    } else if 200 <= status && status < 300 {
        Ok(Answer::Body)
    } else {
        Err(FeedError::HttpStatus { url: url.to_string(), status })
    }
}

/// The outcome of a fetch that kept the archive on disk.
pub fn kept(agency: &Agency, data_dir: &str, bytes: u64) -> (r: Fetched)
    ensures
        r@ == on_disk(*agency, data_dir@, bytes, true),
{
    Fetched {
        agency_id: agency.id.clone(),
        path: agency.archive_path(data_dir),
        bytes,
        reused: true,
    }
}

/// The outcome of a fetch that put a new archive on disk.
pub fn installed(agency: &Agency, data_dir: &str, archive: &Installable) -> (r: Fetched)
    ensures
        r@ == on_disk(*agency, data_dir@, archive@.len() as u64, false),
{
    Fetched {
        agency_id: agency.id.clone(),
        path: agency.archive_path(data_dir),
        bytes: archive.body.len() as u64,
        reused: false,
    }
}

// ---------------------------------------------------------------------------
// Laws
// ---------------------------------------------------------------------------

/// The validators of different archives are stored in different places, and
/// none in the place of its archive.
pub proof fn law_sidecars_are_distinct(archive: Seq<char>, other: Seq<char>)
    ensures
        archive + ".cache.json"@ != archive,
        archive + ".cache.json"@ == other + ".cache.json"@ ==> archive == other,
{
    reveal_strlit(".cache.json");
    let a = archive + ".cache.json"@;
    assert(a.len() == archive.len() + 11);
    if a == other + ".cache.json"@ {
        assert(archive =~= a.take(a.len() - 11));
        assert(other =~= a.take(a.len() - 11));
    }
}

/// An archive that lacks a required file is never installable, whatever else it
/// holds.
pub proof fn law_installable_archives_are_feeds(listing: Option<Seq<Seq<char>>>, dest: Seq<char>)
    ensures
        archive_fault(listing, dest) is None <==> (listing matches Some(entries) && forall|i: int|
            0 <= i < required_names().len() ==> archive::entry_for(
                entries,
                #[trigger] required_names()[i],
            ) is Some),
{
    if let Some(entries) = listing {
        lemma_none_missing(required_names(), entries);
    }
}

proof fn lemma_none_missing(files: Seq<Seq<char>>, entries: Seq<Seq<char>>)
    ensures
        first_missing(files, entries) is None <==> forall|i: int|
            0 <= i < files.len() ==> archive::entry_for(entries, #[trigger] files[i]) is Some,
    decreases files.len(),
{
    if files.len() > 0 {
        let before = files.drop_last();
        lemma_none_missing(before, entries);
        assert forall|i: int| 0 <= i < before.len() implies before[i] == files[i] by {}
        if first_missing(files, entries) is None {
            assert forall|i: int| 0 <= i < files.len() implies archive::entry_for(
                entries,
                #[trigger] files[i],
            ) is Some by {
                if i < before.len() {
                    assert(archive::entry_for(entries, before[i]) is Some);
                }
            }
        }
        if forall|i: int|
            0 <= i < files.len() ==> archive::entry_for(entries, #[trigger] files[i]) is Some {
            assert forall|i: int| 0 <= i < before.len() implies archive::entry_for(
                entries,
                #[trigger] before[i],
            ) is Some by {
                assert(archive::entry_for(entries, files[i]) is Some);
            }
            assert(archive::entry_for(entries, files[files.len() - 1]) is Some);
        }
    }
}

/// An archive is installable exactly when it is a zip with all five of these
/// files, each under its name wherever it lies. The first that is missing, in
/// this order, is the one that is reported, and what is no zip is reported as
/// such.
pub proof fn law_five_files_make_a_feed(listing: Option<Seq<Seq<char>>>, dest: Seq<char>)
    ensures
        match listing {
            None => archive_fault(listing, dest) == Some(FeedErrorView::BadArchive { path: dest }),
            Some(entries) => archive_fault(listing, dest) == (if archive::entry_for(
                entries,
                "agency.txt"@,
            ) is None {
                Some(FeedErrorView::MissingFile { file: "agency.txt"@ })
            } else if archive::entry_for(entries, "routes.txt"@) is None {
                Some(FeedErrorView::MissingFile { file: "routes.txt"@ })
            } else if archive::entry_for(entries, "stops.txt"@) is None {
                Some(FeedErrorView::MissingFile { file: "stops.txt"@ })
            } else if archive::entry_for(entries, "trips.txt"@) is None {
                Some(FeedErrorView::MissingFile { file: "trips.txt"@ })
            } else if archive::entry_for(entries, "stop_times.txt"@) is None {
                Some(FeedErrorView::MissingFile { file: "stop_times.txt"@ })
            } else {
                None
            }),
        },
{
    if let Some(entries) = listing {
        let files = required_names();
        reveal_with_fuel(first_missing, 6);
        assert(files.len() == 5);
        let f4 = files.drop_last();
        let f3 = f4.drop_last();
        let f2 = f3.drop_last();
        let f1 = f2.drop_last();
        assert(f1.drop_last() =~= Seq::<Seq<char>>::empty());
        assert(files.last() == "stop_times.txt"@ && f4.last() == "trips.txt"@ && f3.last()
            == "stops.txt"@ && f2.last() == "routes.txt"@ && f1.last() == "agency.txt"@);
    }
}

/// A larger archive is as good: entries behind those of a feed take nothing
/// away.
pub proof fn law_more_entries_do_no_harm(
    entries: Seq<Seq<char>>,
    more: Seq<Seq<char>>,
    dest: Seq<char>,
)
    requires
        archive_fault(Some(entries), dest) is None,
    ensures
        archive_fault(Some(entries + more), dest) is None,
{
    law_installable_archives_are_feeds(Some(entries), dest);
    law_installable_archives_are_feeds(Some(entries + more), dest);
    assert forall|i: int| 0 <= i < required_names().len() implies archive::entry_for(
        entries + more,
        #[trigger] required_names()[i],
    ) is Some by {
        let name = required_names()[i];
        let k = archive::entry_for(entries, name)->0;
        archive::law_first_match_is_found(entries, name, k);
        assert((entries + more)[k] == entries[k]);
        assert forall|j: int| 0 <= j < k implies !archive::names_file(
            #[trigger] (entries + more)[j],
            name,
        ) by {
            assert((entries + more)[j] == entries[j]);
        }
        archive::law_first_match_is_found(entries + more, name, k);
    }
}

/// What a server answers: 304 that nothing changed, 200 to 299 that a body
/// follows, and everything else is an error that names the address and the
/// status.
pub proof fn law_statuses(url: Seq<char>, status: u16)
    ensures
        status_meaning(url, status) == Ok::<Answer, FeedErrorView>(Answer::NotModified) <==> status
            == 304,
        status_meaning(url, status) == Ok::<Answer, FeedErrorView>(Answer::Body) <==> status / 100
            == 2,
        status != 304 && status / 100 != 2 ==> status_meaning(url, status) == Err::<
            Answer,
            FeedErrorView,
        >(FeedErrorView::HttpStatus { url, status: status as int }),
{
}

/// The outcome of a fetch names the agency, where its archive lies, how large it
/// is, and whether it was there before.
pub proof fn law_fetches_say_where_the_archive_is(
    fetched: Fetched,
    agency: Agency,
    data_dir: Seq<char>,
    bytes: u64,
    reused: bool,
)
    requires
        fetched@ == on_disk(agency, data_dir, bytes, reused),
        data_dir.len() > 0,
        data_dir.last() != '/',
        agency.id@.len() > 0,
        agency.id@[0] != '/',
    ensures
        fetched.agency_id@ == agency.id@,
        fetched.path@ == data_dir + "/raw/"@ + agency.id@ + ".zip"@,
        fetched.bytes == bytes,
        fetched.reused == reused,
{
    config::law_archives_are_named_after_their_agency(agency, data_dir);
}

/// What was fetched is kept: where an archive is on disk it stays, without a
/// request, unless that is forced, and then only the request is conditional.
/// Where there is none the server is asked for all of it.
pub proof fn law_archives_are_kept_unless_forced(
    agency: Agency,
    data_dir: Seq<char>,
    bytes: u64,
    force: bool,
)
    ensures
        opening(agency, data_dir, None, force) == (OpeningView::Ask { conditional: false }),
        opening(agency, data_dir, Some(bytes), true) == (OpeningView::Ask { conditional: true }),
        opening(agency, data_dir, Some(bytes), false) matches OpeningView::Keep(fetched)
            && fetched.agency_id == agency.id@ && fetched.bytes == bytes && fetched.reused
            && fetched.path == on_disk(agency, data_dir, bytes, false).path,
{
}

} // verus!
