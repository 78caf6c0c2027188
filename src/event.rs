use vstd::prelude::*;
use crate::date::Date;
use crate::order::{sort_order, stable_order, lemma_suffix_order, in_range};

verus! {

/// A place where events are held, shown under its display name.
#[derive(Clone, Debug)]
pub struct Location {
    pub name: String,
}

/// The places known by key. A later entry for a key replaces an earlier one.
#[derive(Clone, Debug)]
pub struct Locations {
    entries: Vec<(String, Location)>,
}

/// The key to display name map that a list of entries describes.
pub open spec fn entries_map(entries: Seq<(String, Location)>) -> Map<Seq<char>, Seq<char>>
    decreases entries.len(),
{
    if entries.len() == 0 {
        Map::empty()
    } else {
        entries_map(entries.drop_last()).insert(entries.last().0@, entries.last().1.name@)
    }
}

impl View for Locations {
    type V = Map<Seq<char>, Seq<char>>;

    closed spec fn view(&self) -> Map<Seq<char>, Seq<char>> {
        entries_map(self.entries@)
    }
}

impl Locations {
    /// No place at all.
    pub fn new() -> (r: Locations)
        ensures
            r@ == Map::<Seq<char>, Seq<char>>::empty(),
    {
        Locations { entries: Vec::new() }
    }

    /// Adds a place under `key`, replacing what was there.
    pub fn insert(&mut self, key: String, location: Location)
        ensures
            final(self)@ == old(self)@.insert(key@, location.name@),
    {
        let ghost before = self.entries@;
        self.entries.push((key, location));
        proof {
            assert(self.entries@.drop_last() =~= before);
        }
    }

    /// The place under `key`, if any.
    pub fn get(&self, key: &String) -> (r: Option<&Location>)
        ensures
            r is Some <==> self@.contains_key(key@),
            r matches Some(l) ==> l.name@ == self@[key@],
    {
        let mut i: usize = self.entries.len();
        assert(self.entries@.subrange(0, i as int) =~= self.entries@);
        while i > 0
            invariant
                i <= self.entries@.len(),
                entries_map(self.entries@.subrange(0, i as int)).contains_key(key@)
                    == self@.contains_key(key@),
                entries_map(self.entries@.subrange(0, i as int)).contains_key(key@)
                    ==> entries_map(self.entries@.subrange(0, i as int))[key@] == self@[key@],
            decreases i,
        {
            let ghost sub = self.entries@.subrange(0, i as int);
            assert(sub.drop_last() =~= self.entries@.subrange(0, i - 1));
            assert(sub.last() == self.entries@[i - 1]);
            let entry = &self.entries[i - 1];
            if entry.0 == *key {
                return Some(&entry.1);
            }
            i = i - 1;
        }
        assert(self.entries@.subrange(0, 0) =~= Seq::<(String, Location)>::empty());
        None
    }
}

/// Something held at a location from a start date on.
#[derive(Clone, Debug)]
pub struct Event {
    pub from: Date,
    pub loc: String,
}

impl PartialEq for Event {
    fn eq(&self, other: &Event) -> (r: bool) {
        self.from == other.from && self.loc == other.loc
    }
}

impl vstd::std_specs::cmp::PartialEqSpecImpl for Event {
    open spec fn obeys_eq_spec() -> bool {
        true
    }

    open spec fn eq_spec(&self, other: &Event) -> bool {
        self.from == other.from && self.loc@ == other.loc@
    }
}

/// What fails a resolution or the loading of its inputs.
#[derive(Clone, Debug)]
pub enum OuestError {
    /// The events or the locations could not be read.
    Load(String),
    /// The active event names a location that is not defined.
    UndefinedLocation(String),
}

/// The active event: where it is held, and the days it spans.
#[derive(Clone, Debug)]
pub struct ResolvedEvent {
    /// Display name of the location.
    pub name: String,
    /// Key of the location.
    pub loc: String,
    /// First day of the event.
    pub from: Date,
    /// First day of the next event, if there is one.
    pub to: Option<Date>,
}

/// The loaded inputs of a resolution.
#[derive(Clone, Debug)]
pub struct Data {
    pub loc: Locations,
    pub events: Vec<Event>,
}

/// What a resolution comes to, in terms of views.
pub enum Outcome {
    NoEvent,
    Active { name: Seq<char>, loc: Seq<char>, from: Date, to: Option<Date> },
    Undefined { loc: Seq<char> },
    LoadFailed,
}

pub open spec fn outcome_of(r: Result<Option<ResolvedEvent>, OuestError>) -> Outcome {
    match r {
        Ok(None) => Outcome::NoEvent,
        Ok(Some(e)) => Outcome::Active { name: e.name@, loc: e.loc@, from: e.from, to: e.to },
        Err(OuestError::UndefinedLocation(k)) => Outcome::Undefined { loc: k@ },
        Err(OuestError::Load(_)) => Outcome::LoadFailed,
    }
}

pub open spec fn starts_of(events: Seq<Event>) -> Seq<Date> {
    events.map_values(|e: Event| e.from)
}

/// The events in stable ascending order of start date.
pub open spec fn sorted_events(events: Seq<Event>) -> Seq<Event> {
    sort_order(starts_of(events)).map_values(|j: int| events[j])
}

/// Whether the `i`-th of the sorted events `s` spans `now`: from its own start
/// up to, but not including, the start of the next one, if any.
pub open spec fn covers(s: Seq<Event>, i: int, now: Date) -> bool {
    0 <= i < s.len() && !now.precedes(s[i].from) && (i + 1 == s.len() || now.precedes(
        s[i + 1].from))
}

/// Position, among the sorted events, of the event active on `now`.
pub open spec fn active_index(events: Seq<Event>, now: Date) -> Option<int> {
    let s = sorted_events(events);
    if exists|i: int| covers(s, i, now) {
        Some(choose|i: int| covers(s, i, now))
    } else {
        None
    }
}

/// The result of resolving `now` against `events` and the location map `locs`.
pub open spec fn resolution(now: Date, events: Seq<Event>, locs: Map<Seq<char>, Seq<char>>) -> Outcome {
    let s = sorted_events(events);
    match active_index(events, now) {
        None => Outcome::NoEvent,
        Some(i) => if locs.contains_key(s[i].loc@) {
            Outcome::Active {
                name: locs[s[i].loc@],
                loc: s[i].loc@,
                from: s[i].from,
                to: if i + 1 < s.len() { Some(s[i + 1].from) } else { None },
            }
        } else {
            Outcome::Undefined { loc: s[i].loc@ }
        },
    }
}

/// The sorted events are as many as the events, and their starts ascend.
pub proof fn lemma_sorted_events(events: Seq<Event>)
    ensures
        sorted_events(events).len() == events.len(),
        forall|a: int, b: int|
            0 <= a < b < events.len() ==> !(#[trigger] sorted_events(events)[b]).from.precedes(
                #[trigger] sorted_events(events)[a].from),
{
    let starts = starts_of(events);
    lemma_suffix_order(starts, 0);
    let ord = sort_order(starts);
    let s = sorted_events(events);
    assert forall|a: int, b: int| 0 <= a < b < events.len() implies !(
    #[trigger] s[b]).from.precedes(#[trigger] s[a].from) by {
        assert(in_range(ord, 0, events.len() as int));
        assert(0 <= ord[a] < events.len() && 0 <= ord[b] < events.len());
        assert(s[a] == events[ord[a]]);
        assert(s[b] == events[ord[b]]);
        assert(starts[ord[a]] == events[ord[a]].from);
        assert(starts[ord[b]] == events[ord[b]].from);
        assert(!starts[ord[b]].precedes(starts[ord[a]]));
    }
}

/// At most one event is active on any date, and the event that resolution
/// picks spans that date.
pub proof fn lemma_single_active(events: Seq<Event>, now: Date)
    ensures
        forall|i: int, j: int|
            covers(sorted_events(events), i, now) && covers(sorted_events(events), j, now)
                ==> i == j,
        active_index(events, now) matches Some(i) ==> covers(sorted_events(events), i, now),
{
    lemma_sorted_events(events);
    let s = sorted_events(events);
    assert forall|i: int, j: int| covers(s, i, now) && covers(s, j, now) implies i == j by {
        if i < j {
            assert(!s[j].from.precedes(s[i + 1].from));
        } else if j < i {
            assert(!s[i].from.precedes(s[j + 1].from));
        }
    }
}

/// Later dates never resolve to an earlier event: if `now1` is not after `now2`,
/// the event active on `now1` does not come after the one active on `now2` in
/// the sorted events.
pub proof fn lemma_monotonic(events: Seq<Event>, now1: Date, now2: Date)
    requires
        !now2.precedes(now1),
        active_index(events, now1) is Some,
        active_index(events, now2) is Some,
    ensures
        active_index(events, now1).unwrap() <= active_index(events, now2).unwrap(),
{
    lemma_single_active(events, now1);
    lemma_single_active(events, now2);
    lemma_sorted_events(events);
    let s = sorted_events(events);
    let i1 = active_index(events, now1).unwrap();
    let i2 = active_index(events, now2).unwrap();
    if i2 < i1 {
        assert(!s[i1].from.precedes(s[i2 + 1].from));
    }
}

/// Resolution is a function of its inputs: resolving the same date against the
/// same events and locations twice gives the same outcome.
pub proof fn lemma_deterministic(
    now: Date,
    events: Seq<Event>,
    locs: Map<Seq<char>, Seq<char>>,
    r1: Outcome,
    r2: Outcome,
)
    requires
        r1 == resolution(now, events, locs),
        r2 == resolution(now, events, locs),
    ensures
        r1 == r2,
{
}

/// The event active on `now`, with its location's display name and the day it
/// ends, or no event when `now` comes before every event. Fails when the active
/// event names a location that `locations` lacks.
pub fn resolve(now: Date, events: &Vec<Event>, locations: &Locations) -> (r: Result<
    Option<ResolvedEvent>,
    OuestError,
>)
    ensures
        outcome_of(r) == resolution(now, events@, locations@),
{
    let n = events.len();
    let mut starts: Vec<Date> = Vec::new();
    let mut k: usize = 0;
    while k < n
        invariant
            k <= n == events.len(),
            starts@ =~= starts_of(events@).take(k as int),
        decreases n - k,
    {
        starts.push(events[k].from);
        k = k + 1;
    }
    assert(starts@ =~= starts_of(events@));
    let ord = stable_order(&starts);
    let ghost s = sorted_events(events@);
    let ghost ordi = sort_order(starts@);
    proof {
        lemma_suffix_order(starts@, 0);
        lemma_sorted_events(events@);
        lemma_single_active(events@, now);
        assert(in_range(ordi, 0, n as int));
        assert(ord@.len() == ordi.len());
    }
    let mut i: usize = 0;
    while i < n
        invariant
            i <= n == events.len() == s.len() == ord@.len(),
            s == sorted_events(events@),
            ordi == sort_order(starts@),
            starts@ == starts_of(events@),
            ord@.map_values(|j: usize| j as int) == ordi,
            in_range(ordi, 0, n as int),
            forall|j: int| 0 <= j < i ==> !covers(s, j, now),
            forall|a: int, b: int| covers(s, a, now) && covers(s, b, now) ==> a == b,
        decreases n - i,
    {
        let c = ord[i];
        assert(c as int == ordi[i as int]);
        assert(s[i as int] == events@[c as int]);
        let cur = &events[c];
        if !now.is_before(&cur.from) {
            let last = i + 1 == n;
            let mut ends = true;
            let mut to: Option<Date> = None;
            if !last {
                let d = ord[i + 1];
                assert(d as int == ordi[i + 1]);
                assert(s[i + 1] == events@[d as int]);
                ends = now.is_before(&events[d].from);
                to = Some(events[d].from);
            }
            if ends {
                assert(covers(s, i as int, now));
                assert(active_index(events@, now) == Some(i as int));
                return match locations.get(&cur.loc) {
                    Some(l) => Ok(
                        Some(
                            ResolvedEvent {
                                name: l.name.clone(),
                                loc: cur.loc.clone(),
                                from: cur.from,
                                to,
                            },
                        ),
                    ),
                    None => Err(OuestError::UndefinedLocation(cur.loc.clone())),
                };
            }
        }
        i = i + 1;
    }
    Ok(None)
}

} // verus!
