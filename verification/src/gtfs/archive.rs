//! Reading a GTFS static archive.
//!
//! A GTFS feed is a zip of CSVs. Producers sometimes nest the files inside a
//! directory rather than at the archive root, so lookup is by basename. And
//! several files are optional in a way that is not academic: some agencies ship
//! no `calendar.txt` at all.

use std::io::Cursor;
use std::io::Read;

use zip::ZipArchive;

use vstd::prelude::*;

use crate::config::Agency;
use crate::error::{Error, ErrorView, FeedError, FeedErrorView};
use crate::gtfs::records::{
    AgencyRow, CalendarDateRow, CalendarRow, RouteRow, StopRow, StopTimeRow, TripRow,
};
use crate::keys;
use crate::path;
use crate::text;

verus! {

// ---------------------------------------------------------------------------
// Feeds
// ---------------------------------------------------------------------------

/// One agency's static feed, parsed but not yet validated or resolved.
#[derive(Debug)]
pub struct StaticFeed {
    /// The configured agency id, never the one inside the archive: a feed's own
    /// `agency_id` is not unique across agencies and cannot be trusted as a key.
    pub agency_id: String,
    pub agencies: Vec<AgencyRow>,
    pub routes: Vec<RouteRow>,
    pub stops: Vec<StopRow>,
    pub trips: Vec<TripRow>,
    pub stop_times: Vec<StopTimeRow>,
    /// Empty for feeds that express all service through `calendar_dates.txt`.
    pub calendar: Vec<CalendarRow>,
    pub calendar_dates: Vec<CalendarDateRow>,
}

impl StaticFeed {
    /// The feed of an agency, from the rows of its files.
    ///
    /// A feed can define service in either calendar file. One with neither has
    /// no service days at all, and every join would silently produce nothing.
    pub fn from_rows(
        agency: &Agency,
        agencies: Vec<AgencyRow>,
        routes: Vec<RouteRow>,
        stops: Vec<StopRow>,
        trips: Vec<TripRow>,
        stop_times: Vec<StopTimeRow>,
        calendar: Vec<CalendarRow>,
        calendar_dates: Vec<CalendarDateRow>,
    ) -> (r: Result<StaticFeed, Error>)
        ensures
            match r {
                Ok(feed) => {
                    &&& calendar@.len() > 0 || calendar_dates@.len() > 0
                    &&& feed.agency_id@ == agency.id@
                    &&& feed.agencies == agencies
                    &&& feed.routes == routes
                    &&& feed.stops == stops
                    &&& feed.trips == trips
                    &&& feed.stop_times == stop_times
                    &&& feed.calendar == calendar
                    &&& feed.calendar_dates == calendar_dates
                },
                Err(e) => calendar@.len() == 0 && calendar_dates@.len() == 0 && e@
                    == ErrorView::Feed(
                    FeedErrorView::MissingFile { file: "calendar.txt or calendar_dates.txt"@ },
                ),
            },
    {
        if calendar.len() == 0 && calendar_dates.len() == 0 {
            return Err(
                Error::Feed(
                    FeedError::MissingFile {
                        file: "calendar.txt or calendar_dates.txt".to_string(),
                    },
                ),
            );
        }
        Ok(
            StaticFeed {
                agency_id: agency.id.clone(),
                agencies,
                routes,
                stops,
                trips,
                stop_times,
                calendar,
                calendar_dates,
            },
        )
    }
}

// ---------------------------------------------------------------------------
// Entries
// ---------------------------------------------------------------------------

/// The names of the entries that `zip` finds in an archive, in order; `None`
/// where it does not take the bytes for an archive.
pub uninterp spec fn zip_listing(bytes: Seq<u8>) -> Option<Seq<Seq<char>>>;

/// What `zip` reads from an entry of an archive: `None` where the entry cannot
/// be opened, `Some(None)` where it can be opened but not read.
pub uninterp spec fn zip_content(bytes: Seq<u8>, index: int) -> Option<Option<Seq<u8>>>;

/// A listing, as a specification value.
pub open spec fn listing_view(names: Option<Vec<String>>) -> Option<Seq<Seq<char>>> {
    match names {
        Some(v) => Some(keys::texts(v@)),
        None => None,
    }
}

/// The content of an entry, as a specification value.
pub open spec fn content_view(content: Option<Option<Vec<u8>>>) -> Option<Option<Seq<u8>>> {
    match content {
        Some(Some(v)) => Some(Some(v@)),
        Some(None) => Some(None),
        None => None,
    }
}

/// Calls `zip::ZipArchive::new` on the bytes, and `file_names` on the archive.
///
/// The result is named `zip_listing`; the format is not described. An error of
/// `new` gives `None`.
#[verifier::external_body]
pub(crate) fn list_entries(bytes: &[u8]) -> (r: Option<Vec<String>>)
    ensures
        listing_view(r) == zip_listing(bytes@),
{
    let archive = ZipArchive::new(Cursor::new(bytes)).ok()?;
    Some(archive.file_names().map(String::from).collect())
}

/// Calls `zip::ZipArchive::by_index` on the archive in the bytes, and reads the
/// entry to its end.
///
/// The result is named `zip_content`; the format is not described. An error of
/// `new` or `by_index` gives `None`, and one of the read gives `Some(None)`.
#[verifier::external_body]
fn read_entry(bytes: &[u8], index: usize) -> (r: Option<Option<Vec<u8>>>)
    ensures
        content_view(r) == zip_content(bytes@, index as int),
{
    let mut archive = ZipArchive::new(Cursor::new(bytes)).ok()?;
    let mut entry = archive.by_index(index).ok()?;
    let mut content = Vec::new();
    match entry.read_to_end(&mut content) {
        Ok(_) => Some(Some(content)),
        Err(_) => Some(None),
    }
}

/// Whether `c` separates the components of an entry's name.
pub open spec fn is_separator(c: char) -> bool {
    c == '/' || c == '\\'
}

/// The last component of an entry's name.
pub open spec fn basename(name: Seq<char>) -> Seq<char>
    decreases name.len(),
{
    if name.len() == 0 || is_separator(name.last()) {
        Seq::empty()
    } else {
        basename(name.drop_last()).push(name.last())
    }
}

/// Whether an entry is the file with a name: by its last component, whatever
/// the case of ASCII letters.
pub open spec fn names_file(entry: Seq<char>, name: Seq<char>) -> bool {
    text::ascii_lower(basename(entry)) == text::ascii_lower(name)
}

/// The first entry that is the file with a name.
pub open spec fn entry_for(entries: Seq<Seq<char>>, name: Seq<char>) -> Option<int>
    decreases entries.len(),
{
    if entries.len() == 0 {
        None
    } else {
        match entry_for(entries.drop_last(), name) {
            Some(i) => Some(i),
            None => if names_file(entries.last(), name) {
                Some(entries.len() - 1)
            } else {
                None
            },
        }
    }
}

/// Whether an entry is the file with a name.
fn is_file(entry: &str, name: &str) -> (r: bool)
    ensures
        r == names_file(entry@, name@),
{
    let chars: Vec<char> = text::chars_of(entry);
    let mut from: usize = chars.len();
    let ghost base = basename(entry@);
    assert(chars@.subrange(from as int, chars@.len() as int) =~= Seq::<char>::empty());
    assert(chars@.take(chars@.len() as int) =~= chars@);
    assert(base =~= basename(chars@.take(from as int)) + chars@.subrange(
        from as int,
        chars@.len() as int,
    ));
    while from > 0 && chars[from - 1] != '/' && chars[from - 1] != '\\'
        invariant
            from <= chars@.len(),
            base == basename(chars@.take(from as int)) + chars@.subrange(
                from as int,
                chars@.len() as int,
            ),
        decreases from,
    {
        proof {
            let now = chars@.take(from as int);
            assert(now.drop_last() =~= chars@.take(from - 1));
            assert(now.last() == chars@[from - 1]);
            assert(basename(chars@.take(from - 1)) + chars@.subrange(from - 1, chars@.len() as int)
                =~= basename(now) + chars@.subrange(from as int, chars@.len() as int));
        }
        from = from - 1;
    }
    proof {
        let now = chars@.take(from as int);
        if from > 0 {
            assert(now.last() == chars@[from - 1]);
        }
        assert(basename(now) =~= Seq::<char>::empty());
        assert(base =~= chars@.subrange(from as int, chars@.len() as int));
    }
    text::same_ignoring_case(entry.substring_char(from, chars.len()), name)
}

/// The first entry that is the file with a name.
pub fn find_entry(entries: &Vec<String>, name: &str) -> (r: Option<usize>)
    ensures
        match r {
            Some(i) => entry_for(keys::texts(entries@), name@) == Some(i as int) && i
                < entries@.len(),
            None => entry_for(keys::texts(entries@), name@) is None,
        },
{
    let ghost all = keys::texts(entries@);
    let mut i: usize = 0;
    while i < entries.len()
        invariant
            i <= entries@.len(),
            all == keys::texts(entries@),
            entry_for(all.take(i as int), name@) is None,
        decreases entries@.len() - i,
    {
        assert(all.take(i + 1).drop_last() =~= all.take(i as int));
        assert(all.take(i + 1).last() == entries@[i as int]@);
        if is_file(entries[i].as_str(), name) {
            proof {
                lemma_entry_stays(all, name@, i + 1);
            }
            return Some(i);
        }
        i = i + 1;
    }
    assert(all.take(all.len() as int) =~= all);
    None
}

proof fn lemma_entry_stays(entries: Seq<Seq<char>>, name: Seq<char>, n: int)
    requires
        0 <= n <= entries.len(),
        entry_for(entries.take(n), name) is Some,
    ensures
        entry_for(entries, name) == entry_for(entries.take(n), name),
    decreases entries.len() - n,
{
    if n == entries.len() {
        assert(entries.take(n) =~= entries);
    } else {
        assert(entries.take(n + 1).drop_last() =~= entries.take(n));
        lemma_entry_stays(entries, name, n + 1);
    }
}

// ---------------------------------------------------------------------------
// Archives
// ---------------------------------------------------------------------------

/// A zip archive of CSVs, looked up by basename.
pub struct Archive {
    bytes: Vec<u8>,
    entries: Vec<String>,
    path: String,
}

/// What reading an entry of an archive at `path` comes to.
pub open spec fn entry_outcome(
    path: Seq<char>,
    name: Seq<char>,
    content: Option<Option<Seq<u8>>>,
) -> Result<Seq<u8>, ErrorView> {
    match content {
        Some(Some(bytes)) => Ok(bytes),
        Some(None) => Err(ErrorView::Io { path: path::within(path, name) }),
        None => Err(ErrorView::Feed(FeedErrorView::BadArchive { path })),
    }
}

impl Archive {
    /// The bytes of the archive.
    pub closed spec fn bytes(self) -> Seq<u8> {
        self.bytes@
    }

    /// The names of its entries.
    pub closed spec fn entries(self) -> Seq<Seq<char>> {
        keys::texts(self.entries@)
    }

    /// Where it was read from.
    pub closed spec fn path(self) -> Seq<char> {
        self.path@
    }

    /// The archive in `bytes`, which were read from `path`.
    pub fn open(path: &str, bytes: Vec<u8>) -> (r: Result<Archive, Error>)
        ensures
            match r {
                Ok(archive) => zip_listing(bytes@) == Some(archive.entries()) && archive.bytes()
                    == bytes@ && archive.path() == path@,
                Err(e) => zip_listing(bytes@) is None && e@ == ErrorView::Feed(
                    FeedErrorView::BadArchive { path: path@ },
                ),
            },
    {
        let entries: Option<Vec<String>> = list_entries(bytes.as_slice());
        Archive::open_listed(path, bytes, entries)
    }

    /// The archive in `bytes`, which were read from `path`, given the names of
    /// its entries.
    pub fn open_listed(path: &str, bytes: Vec<u8>, entries: Option<Vec<String>>) -> (r: Result<
        Archive,
        Error,
    >)
        ensures
            match r {
                Ok(archive) => listing_view(entries) == Some(archive.entries()) && archive.bytes()
                    == bytes@ && archive.path() == path@,
                Err(e) => entries is None && e@ == ErrorView::Feed(
                    FeedErrorView::BadArchive { path: path@ },
                ),
            },
    {
        match entries {
            Some(entries) => Ok(Archive { bytes, entries, path: path.to_string() }),
            None => Err(Error::Feed(FeedError::BadArchive { path: path.to_string() })),
        }
    }

    /// The index of the file with a name.
    pub fn index_of(&self, name: &str) -> (r: Option<usize>)
        ensures
            match r {
                Some(i) => entry_for(self.entries(), name@) == Some(i as int),
                None => entry_for(self.entries(), name@) is None,
            },
    {
        find_entry(&self.entries, name)
    }

    /// The bytes of a file that GTFS requires. Absence is a malformed archive.
    pub fn read_required(&self, name: &str) -> (r: Result<Vec<u8>, Error>)
        ensures
            match entry_for(self.entries(), name@) {
                Some(i) => {
                    let outcome = entry_outcome(
                        self.path(),
                        name@,
                        zip_content(self.bytes(), i),
                    );
                    match r {
                        Ok(content) => outcome == Ok::<Seq<u8>, ErrorView>(content@),
                        Err(e) => outcome == Err::<Seq<u8>, ErrorView>(e@),
                    }
                },
                None => r matches Err(e) && e@ == ErrorView::Feed(
                    FeedErrorView::MissingFile { file: name@ },
                ),
            },
    {
        match self.index_of(name) {
            Some(i) => self.entry_bytes(name, read_entry(self.bytes.as_slice(), i)),
            None => Err(Error::Feed(FeedError::MissingFile { file: name.to_string() })),
        }
    }

    /// The bytes of a file that GTFS marks optional, if it is there.
    pub fn read_optional(&self, name: &str) -> (r: Result<Option<Vec<u8>>, Error>)
        ensures
            match entry_for(self.entries(), name@) {
                Some(i) => {
                    let outcome = entry_outcome(
                        self.path(),
                        name@,
                        zip_content(self.bytes(), i),
                    );
                    match r {
                        Ok(content) => content matches Some(bytes) && outcome == Ok::<
                            Seq<u8>,
                            ErrorView,
                        >(bytes@),
                        Err(e) => outcome == Err::<Seq<u8>, ErrorView>(e@),
                    }
                },
                None => r matches Ok(content) && content is None,
            },
    {
        match self.index_of(name) {
            Some(i) => match self.entry_bytes(name, read_entry(self.bytes.as_slice(), i)) {
                Ok(content) => Ok(Some(content)),
                Err(e) => Err(e),
            },
            None => Ok(None),
        }
    }

    /// The bytes of the entry with a name, given what reading it came to.
    pub fn entry_bytes(&self, name: &str, content: Option<Option<Vec<u8>>>) -> (r: Result<
        Vec<u8>,
        Error,
    >)
        ensures
            match r {
                Ok(bytes) => entry_outcome(self.path(), name@, content_view(content)) == Ok::<
                    Seq<u8>,
                    ErrorView,
                >(bytes@),
                Err(e) => entry_outcome(self.path(), name@, content_view(content)) == Err::<
                    Seq<u8>,
                    ErrorView,
                >(e@),
            },
    {
        match content {
            Some(Some(bytes)) => Ok(bytes),
            Some(None) => Err(Error::Io { path: path::join(self.path.as_str(), name) }),
            None => Err(Error::Feed(FeedError::BadArchive { path: self.path.clone() })),
        }
    }
}

// ---------------------------------------------------------------------------
// CSV files
// ---------------------------------------------------------------------------

/// Whether a file starts with a byte order mark.
pub open spec fn has_mark(bytes: Seq<u8>) -> bool {
    bytes.len() >= 3 && bytes[0] == 0xef && bytes[1] == 0xbb && bytes[2] == 0xbf
}

/// A file without its byte order mark. Left in place the mark becomes part of
/// the first header name, and every row fails with a confusing error.
pub fn without_mark(bytes: &[u8]) -> (r: &[u8])
    ensures
        r@ == (if has_mark(bytes@) {
            bytes@.skip(3)
        } else {
            bytes@
        }),
{
    if bytes.len() >= 3 && bytes[0] == 0xef && bytes[1] == 0xbb && bytes[2] == 0xbf {
        let rest: &[u8] = vstd::slice::slice_subrange(bytes, 3, bytes.len());
        assert(rest@ =~= bytes@.skip(3));
        rest
    } else {
        bytes
    }
}

/// The error for a row that does not parse. The header is line 1, so the first
/// row is record 2, which is what a text editor shows.
pub fn bad_row(file: &str, row: u64) -> (e: FeedError)
    requires
        row <= u64::MAX - 2,
    ensures
        e@ == (FeedErrorView::Csv { file: file@, record: row + 2 }),
{
    FeedError::Csv { file: file.to_string(), record: row + 2 }
}

// ---------------------------------------------------------------------------
// Laws
// ---------------------------------------------------------------------------

/// A file nested in a directory is found under its own name.
pub proof fn law_nested_files_are_found(directory: Seq<char>, name: Seq<char>)
    requires
        forall|i: int| 0 <= i < name.len() ==> !is_separator(#[trigger] name[i]),
    ensures
        basename(directory + "/"@ + name) == name,
        names_file(directory + "/"@ + name, name),
    decreases name.len(),
{
    reveal_strlit("/");
    let whole = directory + "/"@ + name;
    if name.len() == 0 {
        assert(whole.last() == '/');
        assert(name =~= Seq::<char>::empty());
    } else {
        let shorter = name.drop_last();
        assert forall|i: int| 0 <= i < shorter.len() implies !is_separator(
            #[trigger] shorter[i],
        ) by {
            assert(shorter[i] == name[i]);
        }
        law_nested_files_are_found(directory, shorter);
        assert(whole.drop_last() =~= directory + "/"@ + shorter);
        assert(whole.last() == name.last());
        assert(!is_separator(name[name.len() - 1]));
        assert(shorter.push(name.last()) =~= name);
    }
}

/// The entry of a file is the first one that is that file, if there is any.
pub proof fn law_first_match_is_found(entries: Seq<Seq<char>>, name: Seq<char>, i: int)
    ensures
        entry_for(entries, name) == Some(i) <==> {
            &&& 0 <= i < entries.len()
            &&& names_file(entries[i], name)
            &&& forall|j: int| 0 <= j < i ==> !names_file(#[trigger] entries[j], name)
        },
        entry_for(entries, name) is None <==> forall|j: int|
            0 <= j < entries.len() ==> !names_file(#[trigger] entries[j], name),
    decreases entries.len(),
{
    if entries.len() > 0 {
        let before = entries.drop_last();
        let n = entries.len() - 1;
        law_first_match_is_found(before, name, i);
        assert forall|j: int| 0 <= j < before.len() implies before[j] == entries[j] by {}
        if entry_for(before, name) is None {
            assert forall|j: int| 0 <= j < n implies !names_file(#[trigger] entries[j], name) by {
                assert(!names_file(before[j], name));
            }
        } else {
            let k = entry_for(before, name)->0;
            law_first_match_is_found(before, name, k);
            assert(names_file(before[k], name));
            assert(names_file(entries[k], name));
            if 0 <= i < entries.len() && names_file(entries[i], name) && (forall|j: int|
                0 <= j < i ==> !names_file(#[trigger] entries[j], name)) {
                assert(i <= k);
                assert(before[i] == entries[i]);
                assert forall|j: int| 0 <= j < i implies !names_file(
                    #[trigger] before[j],
                    name,
                ) by {
                    assert(before[j] == entries[j]);
                }
            }
            if entry_for(before, name) == Some(i) {
                assert forall|j: int| 0 <= j < i implies !names_file(
                    #[trigger] entries[j],
                    name,
                ) by {
                    assert(!names_file(before[j], name));
                }
            }
        }
    }
}

/// The last component of an entry is what follows its last separator, which is a
/// slash of either kind, or the whole entry where it has none.
pub proof fn law_basename_follows_the_last_separator(entry: Seq<char>) -> (n: int)
    ensures
        0 <= n <= entry.len(),
        basename(entry) == entry.skip(n),
        n > 0 ==> entry[n - 1] == '/' || entry[n - 1] == '\\',
        forall|i: int|
            n <= i < entry.len() ==> #[trigger] entry[i] != '/' && entry[i] != '\\',
    decreases entry.len(),
{
    if entry.len() == 0 || is_separator(entry.last()) {
        let n = entry.len() as int;
        assert(entry.skip(n) =~= Seq::<char>::empty());
        n
    } else {
        let shorter = entry.drop_last();
        let n = law_basename_follows_the_last_separator(shorter);
        assert(basename(entry) =~= entry.skip(n));
        assert forall|i: int| n <= i < entry.len() implies #[trigger] entry[i] != '/' && entry[i]
            != '\\' by {
            if i < shorter.len() {
                assert(shorter[i] == entry[i]);
            }
        }
        if n > 0 {
            assert(shorter[n - 1] == entry[n - 1]);
        }
        n
    }
}

/// An entry is a file whatever directory it lies in and whatever the case of its
/// ASCII letters, and it is no other file.
pub proof fn law_entries_are_files_by_their_last_component(
    directory: Seq<char>,
    own: Seq<char>,
    name: Seq<char>,
)
    requires
        forall|i: int| 0 <= i < own.len() ==> !is_separator(#[trigger] own[i]),
    ensures
        names_file(directory + "/"@ + own, name) <==> own.len() == name.len() && forall|i: int|
            0 <= i < own.len() ==> {
                ||| #[trigger] own[i] == name[i]
                ||| 'A' <= own[i] <= 'Z' && name[i] as int == own[i] as int + 32
                ||| 'A' <= name[i] <= 'Z' && own[i] as int == name[i] as int + 32
            },
{
    law_nested_files_are_found(directory, own);
    text::law_case_is_that_of_ascii_letters(own, name);
}

/// What reading an entry comes to: its bytes, or an error that names the file
/// where it cannot be read, and the archive where it cannot be opened.
pub proof fn law_entries_are_read_or_named(
    archive: Seq<char>,
    name: Seq<char>,
    content: Option<Option<Seq<u8>>>,
)
    requires
        archive.len() > 0,
        archive.last() != '/',
        name.len() > 0,
        name[0] != '/',
    ensures
        match content {
            Some(Some(bytes)) => entry_outcome(archive, name, content) == Ok::<Seq<u8>, ErrorView>(
                bytes,
            ),
            Some(None) => entry_outcome(archive, name, content) == Err::<Seq<u8>, ErrorView>(
                ErrorView::Io { path: archive + "/"@ + name },
            ),
            None => entry_outcome(archive, name, content) == Err::<Seq<u8>, ErrorView>(
                ErrorView::Feed(FeedErrorView::BadArchive { path: archive }),
            ),
        },
{
}

/// The byte order mark is the three bytes that UTF-8 has for U+FEFF.
pub proof fn law_the_mark_is_that_of_utf8(bytes: Seq<u8>)
    ensures
        has_mark(bytes) <==> bytes.len() >= 3 && bytes.take(3) == seq![0xefu8, 0xbbu8, 0xbfu8],
{
    if bytes.len() >= 3 {
        let mark = seq![0xefu8, 0xbbu8, 0xbfu8];
        if has_mark(bytes) {
            assert(bytes.take(3) =~= mark);
        }
        if bytes.take(3) == mark {
            assert(bytes.take(3)[0] == bytes[0] && bytes.take(3)[1] == bytes[1] && bytes.take(3)[2]
                == bytes[2]);
        }
    }
}

} // verus!
