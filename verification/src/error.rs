//! Error types.
//!
//! One variant per failure mode: the point of checking a GTFS archive is to be
//! able to say precisely which file broke and how. Each type has a view, in
//! which its texts are character sequences, and a `message` that says what went
//! wrong in words.

use vstd::prelude::*;

use crate::text;

verus! {

/// Anything the library reports as failed.
#[derive(Debug, PartialEq, Eq)]
pub enum Error {
    Config(ConfigError),
    Feed(FeedError),
    Integrity(Vec<Violation>),
    Io { path: String },
    Parquet { path: String },
}

/// A fault in the agency registry.
#[derive(Debug, PartialEq, Eq)]
pub enum ConfigError {
    Read { path: String },
    Parse { path: String },
    NoAgencies,
    DuplicateAgencyId { agency: String },
    UnknownTimezone { agency: String, timezone: String },
    UnknownAgency { agency: String },
}

/// A fault in a feed, or in getting one.
#[derive(Debug, PartialEq, Eq)]
pub enum FeedError {
    Download { url: String },
    HttpStatus { url: String, status: u16 },
    BadArchive { path: String },
    /// GTFS marks some files optional, but a feed without `stop_times.txt` is
    /// not a feed. Absence of a required file is distinct from a parse failure.
    MissingFile { file: String },
    Csv { file: String, record: u64 },
    /// GTFS times are `HH:MM:SS` or `H:MM:SS`, where the hours may exceed 24 for
    /// trips that cross midnight. Anything else is malformed.
    BadTime { file: String, value: String },
    BadDate { file: String, value: String },
    /// GTFS defines exactly two exception types. A third means the producer
    /// intended something that cannot be inferred.
    BadExceptionType { service_id: String, value: u8 },
    /// A service range long enough to be a garbled `end_date` rather than real
    /// service.
    ImplausibleServiceRange { service_id: String, start: String, end: String },
    /// A local time that does not exist, or exists twice, because of a DST
    /// transition.
    AmbiguousLocalTime { local: String, timezone: String },
}

/// One referential integrity violation, with enough context to find the
/// offending row by hand.
#[derive(Debug, PartialEq, Eq)]
pub struct Violation {
    pub file: String,
    pub field: String,
    pub value: String,
    pub references: String,
    /// How many rows carried this same dangling value.
    pub occurrences: usize,
}

// ---------------------------------------------------------------------------
// Views
// ---------------------------------------------------------------------------

/// The view of an [`Error`].
#[verifier::ext_equal]
pub enum ErrorView {
    Config(ConfigErrorView),
    Feed(FeedErrorView),
    Integrity(Seq<ViolationView>),
    Io { path: Seq<char> },
    Parquet { path: Seq<char> },
}

/// The view of a [`ConfigError`].
#[verifier::ext_equal]
pub enum ConfigErrorView {
    Read { path: Seq<char> },
    Parse { path: Seq<char> },
    NoAgencies,
    DuplicateAgencyId { agency: Seq<char> },
    UnknownTimezone { agency: Seq<char>, timezone: Seq<char> },
    UnknownAgency { agency: Seq<char> },
}

/// The view of a [`FeedError`].
#[verifier::ext_equal]
pub enum FeedErrorView {
    Download { url: Seq<char> },
    HttpStatus { url: Seq<char>, status: int },
    BadArchive { path: Seq<char> },
    MissingFile { file: Seq<char> },
    Csv { file: Seq<char>, record: int },
    BadTime { file: Seq<char>, value: Seq<char> },
    BadDate { file: Seq<char>, value: Seq<char> },
    BadExceptionType { service_id: Seq<char>, value: int },
    ImplausibleServiceRange { service_id: Seq<char>, start: Seq<char>, end: Seq<char> },
    AmbiguousLocalTime { local: Seq<char>, timezone: Seq<char> },
}

/// The view of a [`Violation`].
#[verifier::ext_equal]
pub struct ViolationView {
    pub file: Seq<char>,
    pub field: Seq<char>,
    pub value: Seq<char>,
    pub references: Seq<char>,
    pub occurrences: int,
}

impl View for Error {
    type V = ErrorView;

    open spec fn view(&self) -> ErrorView {
        match self {
            Error::Config(e) => ErrorView::Config(e@),
            Error::Feed(e) => ErrorView::Feed(e@),
            Error::Integrity(v) => ErrorView::Integrity(violation_views(v@)),
            Error::Io { path } => ErrorView::Io { path: path@ },
            Error::Parquet { path } => ErrorView::Parquet { path: path@ },
        }
    }
}

impl View for ConfigError {
    type V = ConfigErrorView;

    open spec fn view(&self) -> ConfigErrorView {
        match self {
            ConfigError::Read { path } => ConfigErrorView::Read { path: path@ },
            ConfigError::Parse { path } => ConfigErrorView::Parse { path: path@ },
            ConfigError::NoAgencies => ConfigErrorView::NoAgencies,
            ConfigError::DuplicateAgencyId { agency } => ConfigErrorView::DuplicateAgencyId {
                agency: agency@,
            },
            ConfigError::UnknownTimezone { agency, timezone } => ConfigErrorView::UnknownTimezone {
                agency: agency@,
                timezone: timezone@,
            },
            ConfigError::UnknownAgency { agency } => ConfigErrorView::UnknownAgency {
                agency: agency@,
            },
        }
    }
}

impl View for FeedError {
    type V = FeedErrorView;

    open spec fn view(&self) -> FeedErrorView {
        match self {
            FeedError::Download { url } => FeedErrorView::Download { url: url@ },
            FeedError::HttpStatus { url, status } => FeedErrorView::HttpStatus {
                url: url@,
                status: *status as int,
            },
            FeedError::BadArchive { path } => FeedErrorView::BadArchive { path: path@ },
            FeedError::MissingFile { file } => FeedErrorView::MissingFile { file: file@ },
            FeedError::Csv { file, record } => FeedErrorView::Csv {
                file: file@,
                record: *record as int,
            },
            FeedError::BadTime { file, value } => FeedErrorView::BadTime {
                file: file@,
                value: value@,
            },
            FeedError::BadDate { file, value } => FeedErrorView::BadDate {
                file: file@,
                value: value@,
            },
            FeedError::BadExceptionType { service_id, value } => FeedErrorView::BadExceptionType {
                service_id: service_id@,
                value: *value as int,
            },
            FeedError::ImplausibleServiceRange { service_id, start, end } =>
                FeedErrorView::ImplausibleServiceRange {
                service_id: service_id@,
                start: start@,
                end: end@,
            },
            FeedError::AmbiguousLocalTime { local, timezone } =>
                FeedErrorView::AmbiguousLocalTime { local: local@, timezone: timezone@ },
        }
    }
}

impl View for Violation {
    type V = ViolationView;

    open spec fn view(&self) -> ViolationView {
        ViolationView {
            file: self.file@,
            field: self.field@,
            value: self.value@,
            references: self.references@,
            occurrences: self.occurrences as int,
        }
    }
}

impl Clone for Violation {
    fn clone(&self) -> (r: Violation)
        ensures
            r@ == self@,
    {
        Violation {
            file: self.file.clone(),
            field: self.field.clone(),
            value: self.value.clone(),
            references: self.references.clone(),
            occurrences: self.occurrences,
        }
    }
}

/// The views of a list of violations.
pub open spec fn violation_views(violations: Seq<Violation>) -> Seq<ViolationView> {
    violations.map_values(|v: Violation| v@)
}

// ---------------------------------------------------------------------------
// Messages
// ---------------------------------------------------------------------------

impl ErrorView {
    /// What the error says.
    pub open spec fn message(self) -> Seq<char> {
        match self {
            ErrorView::Config(e) => e.message(),
            ErrorView::Feed(e) => e.message(),
            ErrorView::Integrity(v) => "referential integrity check failed with "@ + text::decimal(
                v.len(),
            ) + " violation(s)"@,
            ErrorView::Io { path } => "i/o error at "@ + path,
            ErrorView::Parquet { path } => "could not encode parquet for "@ + path,
        }
    }
}

impl ConfigErrorView {
    /// What the error says.
    pub open spec fn message(self) -> Seq<char> {
        match self {
            ConfigErrorView::Read { path } => "could not read config at "@ + path,
            ConfigErrorView::Parse { path } => "could not parse config at "@ + path,
            ConfigErrorView::NoAgencies => "config defines no agencies"@,
            ConfigErrorView::DuplicateAgencyId { agency } => "duplicate agency id `"@ + agency
                + "`"@,
            ConfigErrorView::UnknownTimezone { agency, timezone } => "agency `"@ + agency
                + "` has unknown timezone `"@ + timezone + "`"@,
            ConfigErrorView::UnknownAgency { agency } => "no agency configured with id `"@ + agency
                + "`"@,
        }
    }
}

impl FeedErrorView {
    /// What the error says.
    pub open spec fn message(self) -> Seq<char> {
        match self {
            FeedErrorView::Download { url } => "failed to download "@ + url,
            FeedErrorView::HttpStatus { url, status } => url + " returned HTTP "@ + text::decimal(
                status as nat,
            ),
            FeedErrorView::BadArchive { path } => "archive "@ + path + " is not a readable zip"@,
            FeedErrorView::MissingFile { file } => "archive is missing required file `"@ + file
                + "`"@,
            FeedErrorView::Csv { file, record } => "failed to parse `"@ + file + "` at record "@
                + text::decimal(record as nat),
            FeedErrorView::BadTime { file, value } => "`"@ + value + "` in "@ + file
                + " is not a valid GTFS time"@,
            FeedErrorView::BadDate { file, value } => "`"@ + value + "` in "@ + file
                + " is not a valid GTFS date (expected YYYYMMDD)"@,
            FeedErrorView::BadExceptionType { service_id, value } => "unknown exception_type `"@
                + text::decimal(value as nat) + "` for service `"@ + service_id
                + "` in calendar_dates.txt"@,
            FeedErrorView::ImplausibleServiceRange { service_id, start, end } => "service `"@
                + service_id + "` spans an implausible range "@ + start + "..="@ + end,
            FeedErrorView::AmbiguousLocalTime { local, timezone } => "local time "@ + local
                + " is ambiguous or nonexistent in "@ + timezone,
        }
    }
}

impl ViolationView {
    /// What the violation says.
    pub open spec fn message(self) -> Seq<char> {
        self.file + "."@ + self.field + " = `"@ + self.value + "` not found in "@ + self.references
            + " ("@ + text::decimal(self.occurrences as nat) + " row(s))"@
    }
}

impl Error {
    /// What the error says.
    pub fn message(&self) -> (r: String)
        ensures
            r@ == self@.message(),
    {
        match self {
            Error::Config(e) => e.message(),
            Error::Feed(e) => e.message(),
            Error::Integrity(violations) => {
                let mut r: String = "referential integrity check failed with ".to_string();
                r.append(text::decimal_text(violations.len() as u64).as_str());
                r.append(" violation(s)");
                r
            },
            Error::Io { path } => {
                let mut r: String = "i/o error at ".to_string();
                r.append(path.as_str());
                r
            },
            Error::Parquet { path } => {
                let mut r: String = "could not encode parquet for ".to_string();
                r.append(path.as_str());
                r
            },
        }
    }
}

impl ConfigError {
    /// What the error says.
    pub fn message(&self) -> (r: String)
        ensures
            r@ == self@.message(),
    {
        match self {
            ConfigError::Read { path } => {
                let mut r: String = "could not read config at ".to_string();
                r.append(path.as_str());
                r
            },
            ConfigError::Parse { path } => {
                let mut r: String = "could not parse config at ".to_string();
                r.append(path.as_str());
                r
            },
            ConfigError::NoAgencies => "config defines no agencies".to_string(),
            ConfigError::DuplicateAgencyId { agency } => {
                let mut r: String = "duplicate agency id `".to_string();
                r.append(agency.as_str());
                r.append("`");
                r
            },
            ConfigError::UnknownTimezone { agency, timezone } => {
                let mut r: String = "agency `".to_string();
                r.append(agency.as_str());
                r.append("` has unknown timezone `");
                r.append(timezone.as_str());
                r.append("`");
                r
            },
            ConfigError::UnknownAgency { agency } => {
                let mut r: String = "no agency configured with id `".to_string();
                r.append(agency.as_str());
                r.append("`");
                r
            },
        }
    }
}

impl FeedError {
    /// What the error says.
    pub fn message(&self) -> (r: String)
        ensures
            r@ == self@.message(),
    {
        match self {
            FeedError::Download { url } => {
                let mut r: String = "failed to download ".to_string();
                r.append(url.as_str());
                r
            },
            FeedError::HttpStatus { url, status } => {
                let mut r: String = url.clone();
                r.append(" returned HTTP ");
                r.append(text::decimal_text(*status as u64).as_str());
                r
            },
            FeedError::BadArchive { path } => {
                let mut r: String = "archive ".to_string();
                r.append(path.as_str());
                r.append(" is not a readable zip");
                r
            },
            FeedError::MissingFile { file } => {
                let mut r: String = "archive is missing required file `".to_string();
                r.append(file.as_str());
                r.append("`");
                r
            },
            FeedError::Csv { file, record } => {
                let mut r: String = "failed to parse `".to_string();
                r.append(file.as_str());
                r.append("` at record ");
                r.append(text::decimal_text(*record).as_str());
                r
            },
            FeedError::BadTime { file, value } => {
                let mut r: String = "`".to_string();
                r.append(value.as_str());
                r.append("` in ");
                r.append(file.as_str());
                r.append(" is not a valid GTFS time");
                r
            },
            FeedError::BadDate { file, value } => {
                let mut r: String = "`".to_string();
                r.append(value.as_str());
                r.append("` in ");
                r.append(file.as_str());
                r.append(" is not a valid GTFS date (expected YYYYMMDD)");
                r
            },
            FeedError::BadExceptionType { service_id, value } => {
                let mut r: String = "unknown exception_type `".to_string();
                r.append(text::decimal_text(*value as u64).as_str());
                r.append("` for service `");
                r.append(service_id.as_str());
                r.append("` in calendar_dates.txt");
                r
            },
            FeedError::ImplausibleServiceRange { service_id, start, end } => {
                let mut r: String = "service `".to_string();
                r.append(service_id.as_str());
                r.append("` spans an implausible range ");
                r.append(start.as_str());
                r.append("..=");
                r.append(end.as_str());
                r
            },
            FeedError::AmbiguousLocalTime { local, timezone } => {
                let mut r: String = "local time ".to_string();
                r.append(local.as_str());
                r.append(" is ambiguous or nonexistent in ");
                r.append(timezone.as_str());
                r
            },
        }
    }
}

impl Violation {
    /// What the violation says.
    pub fn message(&self) -> (r: String)
        ensures
            r@ == self@.message(),
    {
        let mut r: String = self.file.clone();
        r.append(".");
        r.append(self.field.as_str());
        r.append(" = `");
        r.append(self.value.as_str());
        r.append("` not found in ");
        r.append(self.references.as_str());
        r.append(" (");
        r.append(text::decimal_text(self.occurrences as u64).as_str());
        r.append(" row(s))");
        r
    }
}

// ---------------------------------------------------------------------------
// Laws
// ---------------------------------------------------------------------------

/// The message of a fault in the registry says what is wrong and names every
/// path, agency and timezone that it is about.
pub proof fn law_config_messages_say_what_is_wrong(error: ConfigErrorView)
    ensures
        match error {
            ConfigErrorView::Read { path } => text::mentions(
                error.message(),
                "could not read config at "@ + path,
            ),
            ConfigErrorView::Parse { path } => text::mentions(
                error.message(),
                "could not parse config at "@ + path,
            ),
            ConfigErrorView::NoAgencies => text::mentions(error.message(), "config defines no agencies"@),
            ConfigErrorView::DuplicateAgencyId { agency } => {
                &&& text::mentions(error.message(), "duplicate agency id `"@ + agency)
                &&& text::mentions(error.message(), agency + "`"@)
            },
            ConfigErrorView::UnknownTimezone { agency, timezone } => {
                &&& text::mentions(error.message(), "agency `"@ + agency)
                &&& text::mentions(error.message(), agency + "` has unknown timezone `"@)
                &&& text::mentions(error.message(), "` has unknown timezone `"@ + timezone)
                &&& text::mentions(error.message(), timezone + "`"@)
            },
            ConfigErrorView::UnknownAgency { agency } => {
                &&& text::mentions(error.message(), "no agency configured with id `"@ + agency)
                &&& text::mentions(error.message(), agency + "`"@)
            },
        },
{
    match error {
        ConfigErrorView::Read { path } => {
            text::lemma_two_pieces(
                "could not read config at "@,
                path,
            );
        },
        ConfigErrorView::Parse { path } => {
            text::lemma_two_pieces(
                "could not parse config at "@,
                path,
            );
        },
        ConfigErrorView::NoAgencies => {
            text::lemma_whole("config defines no agencies"@);
        },
        ConfigErrorView::DuplicateAgencyId { agency } => {
            text::lemma_three_pieces(
                "duplicate agency id `"@,
                agency,
                "`"@,
            );
        },
        ConfigErrorView::UnknownTimezone { agency, timezone } => {
            text::lemma_five_pieces(
                "agency `"@,
                agency,
                "` has unknown timezone `"@,
                timezone,
                "`"@,
            );
        },
        ConfigErrorView::UnknownAgency { agency } => {
            text::lemma_three_pieces(
                "no agency configured with id `"@,
                agency,
                "`"@,
            );
        },
    }
}

/// The message of a fault in a feed says what is wrong and names every file,
/// value, service, address and number that it is about.
pub proof fn law_feed_messages_say_what_is_wrong(error: FeedErrorView)
    ensures
        match error {
            FeedErrorView::Download { url } => text::mentions(
                error.message(),
                "failed to download "@ + url,
            ),
            FeedErrorView::HttpStatus { url, status } => {
                &&& text::mentions(error.message(), url + " returned HTTP "@)
                &&& text::mentions(error.message(), " returned HTTP "@ + text::decimal(status as nat))
            },
            FeedErrorView::BadArchive { path } => {
                &&& text::mentions(error.message(), "archive "@ + path)
                &&& text::mentions(error.message(), path + " is not a readable zip"@)
            },
            FeedErrorView::MissingFile { file } => {
                &&& text::mentions(error.message(), "archive is missing required file `"@ + file)
                &&& text::mentions(error.message(), file + "`"@)
            },
            FeedErrorView::Csv { file, record } => {
                &&& text::mentions(error.message(), "failed to parse `"@ + file)
                &&& text::mentions(error.message(), file + "` at record "@)
                &&& text::mentions(error.message(), "` at record "@ + text::decimal(record as nat))
            },
            FeedErrorView::BadTime { file, value } => {
                &&& text::mentions(error.message(), "`"@ + value)
                &&& text::mentions(error.message(), value + "` in "@)
                &&& text::mentions(error.message(), "` in "@ + file)
                &&& text::mentions(error.message(), file + " is not a valid GTFS time"@)
            },
            FeedErrorView::BadDate { file, value } => {
                &&& text::mentions(error.message(), "`"@ + value)
                &&& text::mentions(error.message(), value + "` in "@)
                &&& text::mentions(error.message(), "` in "@ + file)
                &&& text::mentions(error.message(), file + " is not a valid GTFS date (expected YYYYMMDD)"@)
            },
            FeedErrorView::BadExceptionType { service_id, value } => {
                &&& text::mentions(error.message(), "unknown exception_type `"@ + text::decimal(value as nat))
                &&& text::mentions(error.message(), text::decimal(value as nat) + "` for service `"@)
                &&& text::mentions(error.message(), "` for service `"@ + service_id)
                &&& text::mentions(error.message(), service_id + "` in calendar_dates.txt"@)
            },
            FeedErrorView::ImplausibleServiceRange { service_id, start, end } => {
                &&& text::mentions(error.message(), "service `"@ + service_id)
                &&& text::mentions(error.message(), service_id + "` spans an implausible range "@)
                &&& text::mentions(error.message(), "` spans an implausible range "@ + start)
                &&& text::mentions(error.message(), start + "..="@)
                &&& text::mentions(error.message(), "..="@ + end)
            },
            FeedErrorView::AmbiguousLocalTime { local, timezone } => {
                &&& text::mentions(error.message(), "local time "@ + local)
                &&& text::mentions(error.message(), local + " is ambiguous or nonexistent in "@)
                &&& text::mentions(error.message(), " is ambiguous or nonexistent in "@ + timezone)
            },
        },
{
    match error {
        FeedErrorView::Download { url } => {
            text::lemma_two_pieces(
                "failed to download "@,
                url,
            );
        },
        FeedErrorView::HttpStatus { url, status } => {
            text::lemma_three_pieces(
                url,
                " returned HTTP "@,
                text::decimal(status as nat),
            );
        },
        FeedErrorView::BadArchive { path } => {
            text::lemma_three_pieces(
                "archive "@,
                path,
                " is not a readable zip"@,
            );
        },
        FeedErrorView::MissingFile { file } => {
            text::lemma_three_pieces(
                "archive is missing required file `"@,
                file,
                "`"@,
            );
        },
        FeedErrorView::Csv { file, record } => {
            text::lemma_four_pieces(
                "failed to parse `"@,
                file,
                "` at record "@,
                text::decimal(record as nat),
            );
        },
        FeedErrorView::BadTime { file, value } => {
            text::lemma_five_pieces(
                "`"@,
                value,
                "` in "@,
                file,
                " is not a valid GTFS time"@,
            );
        },
        FeedErrorView::BadDate { file, value } => {
            text::lemma_five_pieces(
                "`"@,
                value,
                "` in "@,
                file,
                " is not a valid GTFS date (expected YYYYMMDD)"@,
            );
        },
        FeedErrorView::BadExceptionType { service_id, value } => {
            text::lemma_five_pieces(
                "unknown exception_type `"@,
                text::decimal(value as nat),
                "` for service `"@,
                service_id,
                "` in calendar_dates.txt"@,
            );
        },
        FeedErrorView::ImplausibleServiceRange { service_id, start, end } => {
            text::lemma_six_pieces(
                "service `"@,
                service_id,
                "` spans an implausible range "@,
                start,
                "..="@,
                end,
            );
        },
        FeedErrorView::AmbiguousLocalTime { local, timezone } => {
            text::lemma_four_pieces(
                "local time "@,
                local,
                " is ambiguous or nonexistent in "@,
                timezone,
            );
        },
    }
}

/// A violation is one line that names the file, the field, the value, what it
/// refers to, and the number of rows.
pub proof fn law_violation_messages_name_the_place(v: ViolationView)
    ensures
        text::mentions(v.message(), v.file + "."@ + v.field + " = `"@ + v.value + "`"@),
        text::mentions(v.message(), "not found in "@ + v.references),
        text::mentions(v.message(), text::decimal(v.occurrences as nat) + " row(s)"@),
{
    reveal_strlit("` not found in ");
    reveal_strlit("`");
    reveal_strlit(" ");
    reveal_strlit("not found in ");
    reveal_strlit(" row(s))");
    reveal_strlit(" row(s)");
    reveal_strlit(")");
    let m = v.message();
    let none = Seq::<char>::empty();
    let place = v.file + "."@ + v.field + " = `"@ + v.value + "`"@;
    let rows = text::decimal(v.occurrences as nat) + " row(s)"@;
    let reference = "not found in "@ + v.references;
    assert("` not found in "@ =~= "`"@ + " "@ + "not found in "@);
    assert(" row(s))"@ =~= " row(s)"@ + ")"@);
    text::lemma_mentions(none, place, " "@ + reference + " ("@ + rows + ")"@);
    assert(m =~= none + place + (" "@ + reference + " ("@ + rows + ")"@));
    text::lemma_mentions(place + " "@, reference, " ("@ + rows + ")"@);
    assert(m =~= (place + " "@) + reference + (" ("@ + rows + ")"@));
    text::lemma_mentions(place + " "@ + reference + " ("@, rows, ")"@);
    assert(m =~= (place + " "@ + reference + " ("@) + rows + ")"@);
}

/// Any error says what the fault in it says; a failed check says how many
/// violations there are, and a file that failed is named.
pub proof fn law_messages_say_what_is_wrong(error: ErrorView)
    ensures
        match error {
            ErrorView::Config(fault) => error.message() == fault.message(),
            ErrorView::Feed(fault) => error.message() == fault.message(),
            ErrorView::Integrity(report) => {
                &&& text::mentions(error.message(), "referential integrity check failed"@)
                &&& text::mentions(error.message(), text::decimal(report.len()))
            },
            ErrorView::Io { path } => {
                &&& text::mentions(error.message(), "i/o error"@)
                &&& text::mentions(error.message(), path)
            },
            ErrorView::Parquet { path } => {
                &&& text::mentions(error.message(), "parquet"@)
                &&& text::mentions(error.message(), path)
            },
        },
{
    let m = error.message();
    let none = Seq::<char>::empty();
    match error {
        ErrorView::Integrity(report) => {
            reveal_strlit("referential integrity check failed with ");
            reveal_strlit("referential integrity check failed");
            reveal_strlit(" with ");
            let first = "referential integrity check failed"@;
            let count = text::decimal(report.len());
            assert("referential integrity check failed with "@ =~= first + " with "@);
            text::lemma_mentions(none, first, " with "@ + count + " violation(s)"@);
            assert(m =~= none + first + (" with "@ + count + " violation(s)"@));
            text::lemma_mentions(first + " with "@, count, " violation(s)"@);
        },
        ErrorView::Io { path } => {
            reveal_strlit("i/o error at ");
            reveal_strlit("i/o error");
            reveal_strlit(" at ");
            assert("i/o error at "@ =~= "i/o error"@ + " at "@);
            text::lemma_mentions(none, "i/o error"@, " at "@ + path);
            assert(m =~= none + "i/o error"@ + (" at "@ + path));
            text::lemma_mentions("i/o error at "@, path, none);
            assert(m =~= "i/o error at "@ + path + none);
        },
        ErrorView::Parquet { path } => {
            reveal_strlit("could not encode parquet for ");
            reveal_strlit("could not encode ");
            reveal_strlit("parquet");
            reveal_strlit(" for ");
            assert("could not encode parquet for "@ =~= "could not encode "@ + "parquet"@
                + " for "@);
            text::lemma_mentions("could not encode "@, "parquet"@, " for "@ + path);
            assert(m =~= "could not encode "@ + "parquet"@ + (" for "@ + path));
            text::lemma_mentions("could not encode parquet for "@, path, none);
            assert(m =~= "could not encode parquet for "@ + path + none);
        },
        _ => {},
    }
}

/// What is said of an error is said of what it holds.
pub proof fn law_errors_are_seen_as_they_are(error: FeedError, fault: ConfigError, v: Violation)
    ensures
        match error {
            FeedError::Download { url } => error@ == (FeedErrorView::Download { url: url@ }),
            FeedError::HttpStatus { url, status } => error@ == (FeedErrorView::HttpStatus {
                url: url@,
                status: status as int,
            }),
            FeedError::BadArchive { path } => error@ == (FeedErrorView::BadArchive { path: path@ }),
            FeedError::MissingFile { file } => error@ == (FeedErrorView::MissingFile {
                file: file@,
            }),
            FeedError::Csv { file, record } => error@ == (FeedErrorView::Csv {
                file: file@,
                record: record as int,
            }),
            FeedError::BadTime { file, value } => error@ == (FeedErrorView::BadTime {
                file: file@,
                value: value@,
            }),
            FeedError::BadDate { file, value } => error@ == (FeedErrorView::BadDate {
                file: file@,
                value: value@,
            }),
            FeedError::BadExceptionType { service_id, value } => error@ == (
            FeedErrorView::BadExceptionType { service_id: service_id@, value: value as int }),
            FeedError::ImplausibleServiceRange { service_id, start, end } => error@ == (
            FeedErrorView::ImplausibleServiceRange {
                service_id: service_id@,
                start: start@,
                end: end@,
            }),
            FeedError::AmbiguousLocalTime { local, timezone } => error@ == (
            FeedErrorView::AmbiguousLocalTime { local: local@, timezone: timezone@ }),
        },
        match fault {
            ConfigError::Read { path } => fault@ == (ConfigErrorView::Read { path: path@ }),
            ConfigError::Parse { path } => fault@ == (ConfigErrorView::Parse { path: path@ }),
            ConfigError::NoAgencies => fault@ == ConfigErrorView::NoAgencies,
            ConfigError::DuplicateAgencyId { agency } => fault@ == (
            ConfigErrorView::DuplicateAgencyId { agency: agency@ }),
            ConfigError::UnknownTimezone { agency, timezone } => fault@ == (
            ConfigErrorView::UnknownTimezone { agency: agency@, timezone: timezone@ }),
            ConfigError::UnknownAgency { agency } => fault@ == (ConfigErrorView::UnknownAgency {
                agency: agency@,
            }),
        },
        v@.file == v.file@,
        v@.field == v.field@,
        v@.value == v.value@,
        v@.references == v.references@,
        v@.occurrences == v.occurrences,
{
}

} // verus!
