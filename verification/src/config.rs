//! The agency registry.
//!
//! Adding an agency is a config entry, not a code change, so everything that
//! varies between agencies lives here: feed URLs, the agency-local timezone by
//! which service dates are resolved, and the per-agency quirks.

use vstd::prelude::*;

use crate::error::{ConfigError, ConfigErrorView, Error, ErrorView};
use crate::keys::KeyIndex;
use crate::path;
use crate::text;
use crate::zone;
use crate::zone::Timezone;

verus! {

/// The whole registry: shared defaults plus one entry per agency.
#[derive(Debug, Clone)]
pub struct Config {
    pub defaults: Defaults,
    pub agencies: Vec<Agency>,
}

/// What holds for every agency that does not say otherwise.
#[derive(Debug, Clone, PartialEq, Eq)]
pub struct Defaults {
    /// Polling faster than feeds are regenerated only fetches the same payload
    /// again.
    pub poll_interval_seconds: u64,
    /// A feed whose header timestamp is older than this is stale.
    pub stale_after_seconds: u64,
    pub request_timeout_seconds: u64,
    /// Threshold for the default on-time-performance measure.
    pub on_time_threshold_seconds: i64,
}

/// One agency.
#[derive(Debug, Clone, PartialEq, Eq)]
pub struct Agency {
    /// Namespace for every key this agency contributes. `route_id` and
    /// `stop_id` are unique only within an agency, so this prefixes both.
    pub id: String,
    pub name: String,
    pub mode: String,
    /// Agency-local timezone. Service dates are a local calendar concept.
    pub timezone: String,
    pub static_url: String,
    /// An agency may split realtime across several endpoints.
    pub realtime: Vec<RealtimeFeed>,
    pub quirks: Quirks,
}

/// One realtime endpoint.
#[derive(Debug, Clone, PartialEq, Eq)]
pub struct RealtimeFeed {
    pub name: String,
    pub url: String,
}

/// Per-agency deviations from plain GTFS.
#[derive(Debug, Clone, PartialEq, Eq)]
pub struct Quirks {
    pub trip_id_match: TripIdMatch,
    /// Whether a direction letter is appended to the parent stop id (`101` to
    /// `101N`, `101S`).
    pub stop_id_direction_suffix: bool,
}

/// How a realtime `trip_id` is matched back to the static schedule.
#[derive(Debug, Clone, Copy, PartialEq, Eq, Structural)]
pub enum TripIdMatch {
    /// The realtime id equals the static id.
    Exact,
    /// Both ids carry a prefix that differs between them; match on the suffix
    /// after the last underscore.
    NyctSuffix,
}

impl Default for Defaults {
    fn default() -> (r: Defaults)
        ensures
            r.poll_interval_seconds == 30,
            r.stale_after_seconds == 300,
            r.request_timeout_seconds == 20,
            r.on_time_threshold_seconds == 300,
    {
        Defaults {
            poll_interval_seconds: 30,
            stale_after_seconds: 300,
            request_timeout_seconds: 20,
            on_time_threshold_seconds: 300,
        }
    }
}

impl Default for TripIdMatch {
    fn default() -> (r: TripIdMatch)
        ensures
            r == TripIdMatch::Exact,
    {
        TripIdMatch::Exact
    }
}

impl Default for Quirks {
    fn default() -> (r: Quirks)
        ensures
            r.trip_id_match == TripIdMatch::Exact,
            !r.stop_id_direction_suffix,
    {
        Quirks { trip_id_match: TripIdMatch::Exact, stop_id_direction_suffix: false }
    }
}

// ---------------------------------------------------------------------------
// Agencies
// ---------------------------------------------------------------------------

/// The key of something that is unique only within an agency.
pub open spec fn namespaced(agency: Seq<char>, id: Seq<char>) -> Seq<char> {
    agency + ":"@ + id
}

/// The error for an agency whose timezone is not known.
pub open spec fn unknown_timezone(agency: Agency) -> ConfigErrorView {
    ConfigErrorView::UnknownTimezone { agency: agency.id@, timezone: agency.timezone@ }
}

impl Agency {
    /// Namespaced surrogate key for a route. `route_id` collides across
    /// agencies.
    pub fn route_key(&self, route_id: &str) -> (r: String)
        ensures
            r@ == namespaced(self.id@, route_id@),
    {
        let mut r: String = self.id.clone();
        r.append(":");
        r.append(route_id);
        r
    }

    /// Namespaced surrogate key for a stop.
    pub fn stop_key(&self, stop_id: &str) -> (r: String)
        ensures
            r@ == namespaced(self.id@, stop_id@),
    {
        let mut r: String = self.id.clone();
        r.append(":");
        r.append(stop_id);
        r
    }

    /// Where the agency's downloaded archive lives under `data_dir`.
    pub open spec fn archive_place(self, data_dir: Seq<char>) -> Seq<char> {
        path::within(path::within(data_dir, "raw"@), self.id@ + ".zip"@)
    }

    /// Where this agency's downloaded static archive lives under `data_dir`.
    /// Named after the agency id rather than the URL's filename, so two
    /// agencies that both publish `gtfs.zip` do not overwrite each other.
    pub fn archive_path(&self, data_dir: &str) -> (r: String)
        ensures
            r@ == self.archive_place(data_dir@),
    {
        let mut name: String = self.id.clone();
        name.append(".zip");
        path::join(path::join(data_dir, "raw").as_str(), name.as_str())
    }

    /// The agency's timezone.
    pub fn tz(&self) -> (r: Result<Timezone, Error>)
        ensures
            match r {
                Ok(tz) => zone::timezone_known(self.timezone@) && tz@ == self.timezone@,
                Err(e) => !zone::timezone_known(self.timezone@) && e@ == ErrorView::Config(
                    unknown_timezone(*self),
                ),
            },
    {
        self.tz_from(Timezone::named(self.timezone.as_str()))
    }

    /// The agency's timezone, given what was found under its name.
    pub fn tz_from(&self, found: Option<Timezone>) -> (r: Result<Timezone, Error>)
        ensures
            match r {
                Ok(tz) => found == Some(tz),
                Err(e) => found is None && e@ == ErrorView::Config(unknown_timezone(*self)),
            },
    {
        match found {
            Some(tz) => Ok(tz),
            None => Err(
                Error::Config(
                    ConfigError::UnknownTimezone {
                        agency: self.id.clone(),
                        timezone: self.timezone.clone(),
                    },
                ),
            ),
        }
    }
}

// ---------------------------------------------------------------------------
// The registry
// ---------------------------------------------------------------------------

/// The ids of a list of agencies.
pub open spec fn agency_ids(agencies: Seq<Agency>) -> Seq<Seq<char>> {
    agencies.map_values(|agency: Agency| agency.id@)
}

/// The first fault among `agencies`: an id that came before, or a timezone that
/// is not known.
pub open spec fn agency_fault(agencies: Seq<Agency>, known: Seq<bool>) -> Option<ConfigErrorView>
    decreases agencies.len(),
{
    if agencies.len() == 0 {
        None
    } else {
        let earlier = agencies.drop_last();
        let agency = agencies.last();
        match agency_fault(earlier, known) {
            Some(fault) => Some(fault),
            None => if agency_ids(earlier).contains(agency.id@) {
                Some(ConfigErrorView::DuplicateAgencyId { agency: agency.id@ })
            } else if !known[earlier.len() as int] {
                Some(unknown_timezone(agency))
            } else {
                None
            },
        }
    }
}

/// What is wrong with a registry, if anything is.
pub open spec fn registry_fault(agencies: Seq<Agency>, known: Seq<bool>) -> Option<
    ConfigErrorView,
> {
    if agencies.len() == 0 {
        Some(ConfigErrorView::NoAgencies)
    } else {
        agency_fault(agencies, known)
    }
}

/// Whether `found` is the first agency with an id, if there is one.
pub open spec fn is_found(agencies: Seq<Agency>, id: Seq<char>, found: Option<Agency>) -> bool {
    match found {
        Some(agency) => exists|i: int|
            {
                &&& 0 <= i < agencies.len()
                &&& agency == #[trigger] agencies[i]
                &&& agency.id@ == id
                &&& !agency_ids(agencies.take(i)).contains(id)
            },
        None => !agency_ids(agencies).contains(id),
    }
}

/// Which agencies have a timezone that is known.
pub open spec fn zones_known(agencies: Seq<Agency>) -> Seq<bool> {
    agencies.map_values(|agency: Agency| zone::timezone_known(agency.timezone@))
}

/// A fault of the first agencies is a fault of them all.
proof fn lemma_fault_stays(agencies: Seq<Agency>, known: Seq<bool>, n: int)
    requires
        0 <= n <= agencies.len(),
        agency_fault(agencies.take(n), known) is Some,
    ensures
        agency_fault(agencies, known) == agency_fault(agencies.take(n), known),
    decreases agencies.len() - n,
{
    if n == agencies.len() {
        assert(agencies.take(n) =~= agencies);
    } else {
        assert(agencies.take(n + 1).drop_last() =~= agencies.take(n));
        lemma_fault_stays(agencies, known, n + 1);
    }
}

impl Config {
    /// Fails on anything that would otherwise surface as a confusing error deep
    /// in a run: duplicate ids, bad timezones, no agencies at all.
    pub fn validate(&self) -> (r: Result<(), Error>)
        ensures
            match r {
                Ok(()) => registry_fault(self.agencies@, zones_known(self.agencies@)) is None,
                Err(e) => e@ matches ErrorView::Config(fault) && registry_fault(
                    self.agencies@,
                    zones_known(self.agencies@),
                ) == Some(fault),
            },
    {
        let mut known: Vec<bool> = Vec::new();
        let mut i: usize = 0;
        while i < self.agencies.len()
            invariant
                i <= self.agencies@.len(),
                known@ == zones_known(self.agencies@.take(i as int)),
            decreases self.agencies@.len() - i,
        {
            let found: bool = match Timezone::named(self.agencies[i].timezone.as_str()) {
                Some(_) => true,
                None => false,
            };
            known.push(found);
            assert(known@ =~= zones_known(self.agencies@.take(i + 1)));
            i = i + 1;
        }
        assert(self.agencies@.take(self.agencies@.len() as int) =~= self.agencies@);
        self.validate_with(&known)
    }

    /// Checks the registry, given which agencies have a timezone that is known.
    pub fn validate_with(&self, known: &Vec<bool>) -> (r: Result<(), Error>)
        requires
            known@.len() == self.agencies@.len(),
        ensures
            match r {
                Ok(()) => registry_fault(self.agencies@, known@) is None,
                Err(e) => e@ matches ErrorView::Config(fault) && registry_fault(
                    self.agencies@,
                    known@,
                ) == Some(fault),
            },
    {
        if self.agencies.len() == 0 {
            return Err(Error::Config(ConfigError::NoAgencies));
        }
        let mut seen: KeyIndex = KeyIndex::new();
        let mut i: usize = 0;
        assert(agency_ids(self.agencies@.take(0)) =~= Seq::<Seq<char>>::empty());
        while i < self.agencies.len()
            invariant
                self.agencies@.len() > 0,
                known@.len() == self.agencies@.len(),
                i <= self.agencies@.len(),
                seen.well_formed(),
                seen@ == agency_ids(self.agencies@.take(i as int)),
                agency_fault(self.agencies@.take(i as int), known@) is None,
            decreases self.agencies@.len() - i,
        {
            let ghost earlier = self.agencies@.take(i as int);
            let ghost upto = self.agencies@.take(i + 1);
            assert(upto.drop_last() =~= earlier);
            let agency: &Agency = &self.agencies[i];
            if let Some(_) = seen.slot_of(agency.id.as_str()) {
                proof {
                    lemma_fault_stays(self.agencies@, known@, i + 1);
                }
                return Err(
                    Error::Config(ConfigError::DuplicateAgencyId { agency: agency.id.clone() }),
                );
            }
            if !known[i] {
                proof {
                    lemma_fault_stays(self.agencies@, known@, i + 1);
                }
                return Err(
                    Error::Config(
                        ConfigError::UnknownTimezone {
                            agency: agency.id.clone(),
                            timezone: agency.timezone.clone(),
                        },
                    ),
                );
            }
            seen.push(agency.id.as_str(), i);
            assert(agency_ids(upto) =~= agency_ids(earlier).push(agency.id@));
            i = i + 1;
        }
        assert(self.agencies@.take(self.agencies@.len() as int) =~= self.agencies@);
        Ok(())
    }

    /// The first agency with an id, if there is one.
    pub fn agency(&self, id: &str) -> (r: Option<&Agency>)
        ensures
            match r {
                Some(agency) => exists|i: int|
                    {
                        &&& 0 <= i < self.agencies@.len()
                        &&& *agency == #[trigger] self.agencies@[i]
                        &&& agency.id@ == id@
                        &&& !agency_ids(self.agencies@.take(i)).contains(id@)
                    },
                None => !agency_ids(self.agencies@).contains(id@),
            },
            is_found(
                self.agencies@,
                id@,
                match r {
                    Some(agency) => Some(*agency),
                    None => None,
                },
            ),
    {
        let mut i: usize = 0;
        while i < self.agencies.len()
            invariant
                i <= self.agencies@.len(),
                !agency_ids(self.agencies@.take(i as int)).contains(id@),
            decreases self.agencies@.len() - i,
        {
            if text::same(self.agencies[i].id.as_str(), id) {
                return Some(&self.agencies[i]);
            }
            proof {
                let ids = agency_ids(self.agencies@.take(i + 1));
                if ids.contains(id@) {
                    let k = choose|k: int| 0 <= k < ids.len() && ids[k] == id@;
                    assert(ids[k] == self.agencies@[k].id@);
                    assert(agency_ids(self.agencies@.take(i as int))[k] == id@);
                }
            }
            i = i + 1;
        }
        assert(self.agencies@.take(self.agencies@.len() as int) =~= self.agencies@);
        None
    }

    /// One named agency, or all of them.
    pub fn select(&self, id: Option<&str>) -> (r: Result<Vec<&Agency>, Error>)
        ensures
            match (id, r) {
                (None, Ok(chosen)) => chosen@.len() == self.agencies@.len() && forall|i: int|
                    0 <= i < chosen@.len() ==> *(#[trigger] chosen@[i]) == self.agencies@[i],
                (Some(id), Ok(chosen)) => chosen@.len() == 1 && exists|i: int|
                    {
                        &&& 0 <= i < self.agencies@.len()
                        &&& *chosen@[0] == #[trigger] self.agencies@[i]
                        &&& self.agencies@[i].id@ == id@
                        &&& !agency_ids(self.agencies@.take(i)).contains(id@)
                    },
                (Some(id), Err(e)) => !agency_ids(self.agencies@).contains(id@) && e@
                    == ErrorView::Config(ConfigErrorView::UnknownAgency { agency: id@ }),
                (None, Err(_)) => false,
            },
            id matches Some(id) ==> (r matches Ok(chosen) ==> chosen@.len() == 1 && is_found(
                self.agencies@,
                id@,
                Some(*chosen@[0]),
            )),
    {
        let mut chosen: Vec<&Agency> = Vec::new();
        match id {
            Some(id) => match self.agency(id) {
                Some(agency) => {
                    chosen.push(agency);
                    Ok(chosen)
                },
                None => Err(Error::Config(ConfigError::UnknownAgency { agency: id.to_string() })),
            },
            None => {
                let mut i: usize = 0;
                while i < self.agencies.len()
                    invariant
                        i <= self.agencies@.len(),
                        chosen@.len() == i,
                        forall|k: int|
                            0 <= k < i ==> *(#[trigger] chosen@[k]) == self.agencies@[k],
                    decreases self.agencies@.len() - i,
                {
                    chosen.push(&self.agencies[i]);
                    i = i + 1;
                }
                Ok(chosen)
            },
        }
    }
}

// ---------------------------------------------------------------------------
// Laws
// ---------------------------------------------------------------------------

/// Keys of different agencies never collide, nor do keys of different things of
/// one agency, as long as agency ids are free of the separator.
pub proof fn law_keys_do_not_collide(
    agency: Seq<char>,
    id: Seq<char>,
    other_agency: Seq<char>,
    other_id: Seq<char>,
)
    requires
        !agency.contains(':'),
        !other_agency.contains(':'),
        namespaced(agency, id) == namespaced(other_agency, other_id),
    ensures
        agency == other_agency,
        id == other_id,
{
    reveal_strlit(":");
    let key = namespaced(agency, id);
    let n = agency.len() as int;
    let k = other_agency.len() as int;
    assert(key[n] == ':');
    assert(namespaced(other_agency, other_id)[k] == ':');
    if n < k {
        assert(other_agency[n] == key[n]);
        assert(other_agency.contains(':'));
    }
    if k < n {
        assert(agency[k] == key[k]);
        assert(agency.contains(':'));
    }
    assert(agency =~= key.take(n));
    assert(other_agency =~= key.take(n));
    assert(id =~= key.skip(n + 1));
    assert(other_id =~= key.skip(n + 1));
}

/// Agencies with different ids keep their archives in different places, whatever
/// their archives are called where they come from. An id that is an absolute
/// path would leave the data directory.
pub proof fn law_archives_have_places_of_their_own(
    agency: Agency,
    other: Agency,
    data_dir: Seq<char>,
)
    requires
        !(agency.id@.len() > 0 && agency.id@[0] == '/'),
        !(other.id@.len() > 0 && other.id@[0] == '/'),
        agency.archive_place(data_dir) == other.archive_place(data_dir),
    ensures
        agency.id@ == other.id@,
{
    reveal_strlit("raw");
    reveal_strlit(".zip");
    reveal_strlit("/");
    let raw = path::within(data_dir, "raw"@);
    assert(raw.last() == 'w');
    let name = agency.id@ + ".zip"@;
    let other_name = other.id@ + ".zip"@;
    assert(name[0] != '/') by {
        if agency.id@.len() > 0 {
            assert(name[0] == agency.id@[0]);
        }
    }
    assert(other_name[0] != '/') by {
        if other.id@.len() > 0 {
            assert(other_name[0] == other.id@[0]);
        }
    }
    let place = raw + "/"@ + name;
    assert(place == raw + "/"@ + other_name);
    let n = raw.len() + 1;
    assert(agency.id@ =~= place.subrange(n as int, place.len() - 4));
    assert(other.id@ =~= place.subrange(n as int, place.len() - 4));
}

/// A registry that passes validation has agencies, with distinct ids, each with
/// a timezone that is known.
pub proof fn law_valid_registry(agencies: Seq<Agency>, known: Seq<bool>)
    requires
        registry_fault(agencies, known) is None,
    ensures
        agencies.len() > 0,
        forall|i: int, j: int|
            0 <= i < j < agencies.len() ==> (#[trigger] agencies[i]).id@ != (
            #[trigger] agencies[j]).id@,
        forall|i: int| 0 <= i < agencies.len() ==> #[trigger] known[i],
{
    lemma_faultless(agencies, known);
}

proof fn lemma_faultless(agencies: Seq<Agency>, known: Seq<bool>)
    requires
        agency_fault(agencies, known) is None,
    ensures
        forall|i: int, j: int|
            0 <= i < j < agencies.len() ==> (#[trigger] agencies[i]).id@ != (
            #[trigger] agencies[j]).id@,
        forall|i: int| 0 <= i < agencies.len() ==> #[trigger] known[i],
    decreases agencies.len(),
{
    if agencies.len() > 0 {
        let earlier = agencies.drop_last();
        lemma_faultless(earlier, known);
        assert forall|i: int, j: int| 0 <= i < j < agencies.len() implies (
        #[trigger] agencies[i]).id@ != (#[trigger] agencies[j]).id@ by {
            assert(earlier[i] == agencies[i]);
            if j < earlier.len() {
                assert(earlier[j] == agencies[j]);
            } else {
                assert(agency_ids(earlier)[i] == agencies[i].id@);
            }
        }
    }
}

/// A key is the agency's id, a colon and what it is the key of.
pub proof fn law_keys_name_their_agency(agency: Seq<char>, id: Seq<char>)
    ensures
        namespaced(agency, id).len() == agency.len() + 1 + id.len(),
        namespaced(agency, id).take(agency.len() as int) == agency,
        namespaced(agency, id)[agency.len() as int] == ':',
        namespaced(agency, id).skip((agency.len() + 1) as int) == id,
{
    reveal_strlit(":");
    let key = namespaced(agency, id);
    assert(key.take(agency.len() as int) =~= agency);
    assert(key.skip((agency.len() + 1) as int) =~= id);
}

/// An agency's archive lies in the directory `raw` under the data directory, in
/// a zip that is named after the agency's id.
pub proof fn law_archives_are_named_after_their_agency(agency: Agency, data_dir: Seq<char>)
    requires
        data_dir.len() > 0,
        data_dir.last() != '/',
        agency.id@.len() > 0,
        agency.id@[0] != '/',
    ensures
        agency.archive_place(data_dir) == data_dir + "/raw/"@ + agency.id@ + ".zip"@,
{
    reveal_strlit("/");
    reveal_strlit("raw");
    reveal_strlit("/raw/");
    reveal_strlit(".zip");
    let raw = path::within(data_dir, "raw"@);
    assert(raw.last() == 'w');
    let name = agency.id@ + ".zip"@;
    assert(name[0] == agency.id@[0]);
    assert(agency.archive_place(data_dir) =~= data_dir + "/raw/"@ + agency.id@ + ".zip"@);
}

/// A registry is valid exactly when it has agencies, their ids are distinct, and
/// each has a timezone that is known.
pub proof fn law_registries_are_valid_when_every_agency_is(agencies: Seq<Agency>, known: Seq<bool>)
    ensures
        registry_fault(agencies, known) is None <==> {
            &&& agencies.len() > 0
            &&& forall|i: int, j: int|
                0 <= i < j < agencies.len() ==> (#[trigger] agencies[i]).id@ != (
                #[trigger] agencies[j]).id@
            &&& forall|i: int| 0 <= i < agencies.len() ==> #[trigger] known[i]
        },
        agencies.len() == 0 ==> registry_fault(agencies, known) == Some(
            ConfigErrorView::NoAgencies,
        ),
{
    if registry_fault(agencies, known) is None {
        lemma_faultless(agencies, known);
    }
    if (forall|i: int, j: int|
        0 <= i < j < agencies.len() ==> (#[trigger] agencies[i]).id@ != (
        #[trigger] agencies[j]).id@) && (forall|i: int|
        0 <= i < agencies.len() ==> #[trigger] known[i]) {
        lemma_sound_agencies(agencies, known);
    }
}

proof fn lemma_sound_agencies(agencies: Seq<Agency>, known: Seq<bool>)
    requires
        forall|i: int, j: int|
            0 <= i < j < agencies.len() ==> (#[trigger] agencies[i]).id@ != (
            #[trigger] agencies[j]).id@,
        forall|i: int| 0 <= i < agencies.len() ==> #[trigger] known[i],
    ensures
        agency_fault(agencies, known) is None,
    decreases agencies.len(),
{
    if agencies.len() > 0 {
        let earlier = agencies.drop_last();
        let n = agencies.len() - 1;
        assert forall|i: int, j: int| 0 <= i < j < earlier.len() implies (
        #[trigger] earlier[i]).id@ != (#[trigger] earlier[j]).id@ by {
            assert(earlier[i] == agencies[i] && earlier[j] == agencies[j]);
        }
        assert forall|i: int| 0 <= i < earlier.len() implies #[trigger] known[i] by {}
        lemma_sound_agencies(earlier, known);
        let ids = agency_ids(earlier);
        if ids.contains(agencies[n].id@) {
            let k = choose|k: int| 0 <= k < ids.len() && ids[k] == agencies[n].id@;
            assert(agencies[k].id@ != agencies[n].id@);
        }
        assert(known[n]);
    }
}

/// The first agency that is at fault is the one that is reported: by an id that
/// came before, or else by a timezone that is not known.
pub proof fn law_first_bad_agency_is_reported(agencies: Seq<Agency>, known: Seq<bool>, n: int)
    requires
        0 <= n < agencies.len(),
        forall|i: int, j: int|
            0 <= i < j < n ==> (#[trigger] agencies[i]).id@ != (#[trigger] agencies[j]).id@,
        forall|i: int| 0 <= i < n ==> #[trigger] known[i],
        !known[n] || exists|i: int| 0 <= i < n && (#[trigger] agencies[i]).id@ == agencies[n].id@,
    ensures
        registry_fault(agencies, known) == Some(
            if exists|i: int| 0 <= i < n && (#[trigger] agencies[i]).id@ == agencies[n].id@ {
                ConfigErrorView::DuplicateAgencyId { agency: agencies[n].id@ }
            } else {
                ConfigErrorView::UnknownTimezone {
                    agency: agencies[n].id@,
                    timezone: agencies[n].timezone@,
                }
            },
        ),
{
    let earlier = agencies.take(n);
    let upto = agencies.take(n + 1);
    assert(upto.drop_last() =~= earlier);
    assert forall|i: int, j: int| 0 <= i < j < earlier.len() implies (#[trigger] earlier[i]).id@
        != (#[trigger] earlier[j]).id@ by {
        assert(earlier[i] == agencies[i] && earlier[j] == agencies[j]);
    }
    lemma_sound_agencies(earlier, known);
    let ids = agency_ids(earlier);
    if ids.contains(agencies[n].id@) {
        let k = choose|k: int| 0 <= k < ids.len() && ids[k] == agencies[n].id@;
        assert(agencies[k].id@ == agencies[n].id@);
    }
    if exists|i: int| 0 <= i < n && (#[trigger] agencies[i]).id@ == agencies[n].id@ {
        let i = choose|i: int| 0 <= i < n && (#[trigger] agencies[i]).id@ == agencies[n].id@;
        assert(ids[i] == agencies[n].id@);
    }
    lemma_fault_stays(agencies, known, n + 1);
}

/// Whether an agency's timezone is known is asked of its own timezone.
pub proof fn law_timezones_are_those_of_their_agencies(agencies: Seq<Agency>, i: int)
    requires
        0 <= i < agencies.len(),
    ensures
        zones_known(agencies).len() == agencies.len(),
        zones_known(agencies)[i] <==> zone::timezone_known(agencies[i].timezone@),
{
}

/// In a registry whose ids are distinct, what is found under an id is the one
/// agency with that id, and nothing is found exactly when there is none.
pub proof fn law_agencies_are_found_by_their_id(
    agencies: Seq<Agency>,
    id: Seq<char>,
    found: Option<Agency>,
    i: int,
)
    requires
        is_found(agencies, id, found),
        0 <= i < agencies.len(),
        forall|j: int, k: int|
            0 <= j < k < agencies.len() ==> (#[trigger] agencies[j]).id@ != (
            #[trigger] agencies[k]).id@,
    ensures
        agencies[i].id@ == id ==> found == Some(agencies[i]),
        found matches Some(agency) ==> agency.id@ == id && agencies.contains(agency),
{
    if agencies[i].id@ == id {
        assert(agency_ids(agencies)[i] == id);
        assert(agency_ids(agencies).contains(id));
    }
    if let Some(agency) = found {
        let k = choose|k: int|
            {
                &&& 0 <= k < agencies.len()
                &&& agency == #[trigger] agencies[k]
                &&& agency.id@ == id
                &&& !agency_ids(agencies.take(k)).contains(id)
            };
        assert(agencies[k].id@ == id);
    }
}

} // verus!
