//! Fetching lists: when to ask the server, when to use the cached copy, and what
//! to remember.
//!
//! A fetch is driven step by step: the caller performs an action, hands back
//! what came of it, and is given the next action, until the fetch has ended.
use vstd::prelude::*;
use crate::cache;
use crate::cache::{CachedList, CachedLists, Entry};
use crate::dns;
use crate::text;

verus! {

// ---------------------------------------------------------------------------
// Steps of a fetch
// ---------------------------------------------------------------------------

/// The status of a response that carries the list.
pub const STATUS_OK: u16 = 200;

/// The status of a response that says that the cached copy still holds.
pub const STATUS_NOT_MODIFIED: u16 = 304;

/// Why a fetch failed.
#[derive(Debug, Clone, Copy, PartialEq, Eq, Structural)]
pub enum FetchError {
    /// The server could not be asked.
    Send,
    /// The server answered with this status.
    Http(u16),
    /// The text of the response could not be read.
    Text,
    /// The list could not be written to its file.
    Write,
}

/// What came of an action.
#[derive(Debug)]
pub enum FetchEvent {
    /// The cached copy, where it could be read.
    BodyRead(Option<String>),
    /// The server could not be asked.
    SendFailed,
    /// The server answered.
    Response { status: u16, etag: Option<String> },
    /// The text of the response, where it could be read.
    TextRead(Option<String>),
    /// Whether the list was written to its file, and the time now.
    Written { ok: bool, now: u64 },
}

/// What to do next.
#[derive(Debug)]
pub enum FetchAction {
    /// Read the cached copy from its file.
    ReadBody { filename: String },
    /// Ask the server; with a tag, for the list unless it still has that tag.
    Get { etag: Option<String> },
    /// Read the text of the response.
    ReadText,
    /// Write the list to its file.
    WriteBody { filename: String, body: String },
    /// The fetch has ended with the list, and with what is now known of it
    /// where that is new.
    Finish { body: String, record: Option<CachedList> },
    /// The fetch has failed.
    Fail(FetchError),
}

/// How far a fetch has come.
#[derive(Debug)]
pub enum FetchPhase {
    /// The cached copy is fresh and is being read.
    FreshCopy,
    /// The server is being asked.
    Asked,
    /// The server could not be asked; the cached copy is being read.
    CopyForSend,
    /// The server says that the cached copy holds; it is being read.
    CopyHolds,
    /// The server answered with this status; the cached copy is being read.
    CopyForStatus(u16),
    /// The cached copy holds but is gone; the server is being asked anew.
    AskedAgain,
    /// The text of a response with this tag is being read.
    Reading { etag: Option<String> },
    /// The list, with this tag, is being written.
    Writing { etag: Option<String>, body: String },
    /// The fetch has ended.
    Ended,
}

/// A fetch of a list.
#[derive(Debug)]
pub struct Fetch {
    pub url: String,
    /// What was known of the list when the fetch began.
    pub cached: Option<CachedList>,
    pub phase: FetchPhase,
}

/// What came of an action, as a mathematical value.
pub enum Event {
    BodyRead(Option<Seq<char>>),
    SendFailed,
    Response { status: u16, etag: Option<Seq<char>> },
    TextRead(Option<Seq<char>>),
    Written { ok: bool, now: u64 },
}

/// What to do next, as a mathematical value.
pub enum Action {
    ReadBody { filename: Seq<char> },
    Get { etag: Option<Seq<char>> },
    ReadText,
    WriteBody { filename: Seq<char>, body: Seq<char> },
    Finish { body: Seq<char>, record: Option<Entry> },
    Fail(FetchError),
}

/// How far a fetch has come, as a mathematical value.
pub enum Phase {
    FreshCopy,
    Asked,
    CopyForSend,
    CopyHolds,
    CopyForStatus(u16),
    AskedAgain,
    Reading { etag: Option<Seq<char>> },
    Writing { etag: Option<Seq<char>>, body: Seq<char> },
    Ended,
}

/// A fetch of a list, as a mathematical value.
pub struct Fetching {
    pub url: Seq<char>,
    pub cached: Option<Entry>,
    pub phase: Phase,
}

impl View for FetchEvent {
    type V = Event;

    open spec fn view(&self) -> Event {
        match self {
            FetchEvent::BodyRead(b) => Event::BodyRead(dns::opt_view(*b)),
            FetchEvent::SendFailed => Event::SendFailed,
            FetchEvent::Response { status, etag } => Event::Response {
                status: *status,
                etag: dns::opt_view(*etag),
            },
            FetchEvent::TextRead(t) => Event::TextRead(dns::opt_view(*t)),
            FetchEvent::Written { ok, now } => Event::Written { ok: *ok, now: *now },
        }
    }
}

/// View of what is known of a list, where something is.
pub open spec fn entry_view(e: Option<CachedList>) -> Option<Entry> {
    match e {
        Some(c) => Some(c@),
        None => None,
    }
}

impl View for FetchAction {
    type V = Action;

    open spec fn view(&self) -> Action {
        match self {
            FetchAction::ReadBody { filename } => Action::ReadBody { filename: filename@ },
            FetchAction::Get { etag } => Action::Get { etag: dns::opt_view(*etag) },
            FetchAction::ReadText => Action::ReadText,
            FetchAction::WriteBody { filename, body } => Action::WriteBody {
                filename: filename@,
                body: body@,
            },
            FetchAction::Finish { body, record } => Action::Finish {
                body: body@,
                record: entry_view(*record),
            },
            FetchAction::Fail(e) => Action::Fail(*e),
        }
    }
}

impl View for FetchPhase {
    type V = Phase;

    open spec fn view(&self) -> Phase {
        match self {
            FetchPhase::FreshCopy => Phase::FreshCopy,
            FetchPhase::Asked => Phase::Asked,
            FetchPhase::CopyForSend => Phase::CopyForSend,
            FetchPhase::CopyHolds => Phase::CopyHolds,
            FetchPhase::CopyForStatus(s) => Phase::CopyForStatus(*s),
            FetchPhase::AskedAgain => Phase::AskedAgain,
            FetchPhase::Reading { etag } => Phase::Reading { etag: dns::opt_view(*etag) },
            FetchPhase::Writing { etag, body } => Phase::Writing {
                etag: dns::opt_view(*etag),
                body: body@,
            },
            FetchPhase::Ended => Phase::Ended,
        }
    }
}

impl View for Fetch {
    type V = Fetching;

    open spec fn view(&self) -> Fetching {
        Fetching { url: self.url@, cached: entry_view(self.cached), phase: self.phase@ }
    }
}

/// The tag of a cached list, where there is one.
pub open spec fn cached_tag(cached: Option<Entry>) -> Option<Seq<char>> {
    match cached {
        Some(e) => e.etag,
        None => None,
    }
}

/// How a fetch begins: with the cached copy where it is fresh, else with the
/// server.
pub open spec fn begun(url: Seq<char>, cached: Option<Entry>, interval: u64, now: u64) -> (
    Fetching,
    Action,
) {
    match cached {
        Some(e) if cache::is_fresh(e.fetched_at, now, interval) => (
            Fetching { url, cached, phase: Phase::FreshCopy },
            Action::ReadBody { filename: e.filename },
        ),
        _ => (
            Fetching { url, cached, phase: Phase::Asked },
            Action::Get { etag: cached_tag(cached) },
        ),
    }
}

/// Whether an event can come of what a fetch is doing.
pub open spec fn expects(phase: Phase, event: Event) -> bool {
    match phase {
        Phase::FreshCopy | Phase::CopyForSend | Phase::CopyHolds | Phase::CopyForStatus(
            _,
        ) => event is BodyRead,
        Phase::Asked | Phase::AskedAgain => event is SendFailed || event is Response,
        Phase::Reading { .. } => event is TextRead,
        Phase::Writing { .. } => event is Written,
        Phase::Ended => false,
    }
}

/// A fetch that has come to a phase, and what it does there.
pub open spec fn goes_on(f: Fetching, phase: Phase, action: Action) -> (Fetching, Action) {
    (Fetching { phase, ..f }, action)
}

/// A fetch that turns to the cached copy, or to something else where there is
/// none.
pub open spec fn turns_to_copy(
    f: Fetching,
    phase: Phase,
    instead: (Fetching, Action),
) -> (Fetching, Action) {
    match f.cached {
        Some(e) => goes_on(f, phase, Action::ReadBody { filename: e.filename }),
        None => instead,
    }
}

/// A fetch that asks the server anew, for the list whatever its tag.
pub open spec fn asks_again(f: Fetching) -> (Fetching, Action) {
    goes_on(f, Phase::AskedAgain, Action::Get { etag: None })
}

/// A fetch that ends.
pub open spec fn ends(f: Fetching, action: Action) -> (Fetching, Action) {
    goes_on(f, Phase::Ended, action)
}

/// A fetch that ends with the cached copy.
pub open spec fn ends_with_copy(f: Fetching, body: Seq<char>) -> (Fetching, Action) {
    ends(f, Action::Finish { body, record: None })
}

/// How a fetch goes on after an event.
pub open spec fn stepped(f: Fetching, event: Event) -> (Fetching, Action) {
    match (f.phase, event) {
        (Phase::FreshCopy, Event::BodyRead(Some(b))) => ends_with_copy(f, b),
        (Phase::FreshCopy, Event::BodyRead(None)) => goes_on(
            f,
            Phase::Asked,
            Action::Get { etag: cached_tag(f.cached) },
        ),
        (Phase::CopyForSend, Event::BodyRead(Some(b))) => ends_with_copy(f, b),
        (Phase::CopyForSend, Event::BodyRead(None)) => ends(f, Action::Fail(FetchError::Send)),
        (Phase::CopyHolds, Event::BodyRead(Some(b))) => ends_with_copy(f, b),
        (Phase::CopyHolds, Event::BodyRead(None)) => asks_again(f),
        (Phase::CopyForStatus(_), Event::BodyRead(Some(b))) => ends_with_copy(f, b),
        (Phase::CopyForStatus(s), Event::BodyRead(None)) => ends(
            f,
            Action::Fail(FetchError::Http(s)),
        ),
        (Phase::Asked, Event::SendFailed) => turns_to_copy(
            f,
            Phase::CopyForSend,
            ends(f, Action::Fail(FetchError::Send)),
        ),
        (Phase::Asked, Event::Response { status, etag }) => if status == STATUS_NOT_MODIFIED {
            turns_to_copy(f, Phase::CopyHolds, asks_again(f))
        } else if status == STATUS_OK {
            goes_on(f, Phase::Reading { etag }, Action::ReadText)
        } else {
            turns_to_copy(
                f,
                Phase::CopyForStatus(status),
                ends(f, Action::Fail(FetchError::Http(status))),
            )
        },
        (Phase::AskedAgain, Event::SendFailed) => ends(f, Action::Fail(FetchError::Send)),
        (Phase::AskedAgain, Event::Response { status: _, etag }) => goes_on(
            f,
            Phase::Reading { etag },
            Action::ReadText,
        ),
        (Phase::Reading { etag: _ }, Event::TextRead(None)) => ends(
            f,
            Action::Fail(FetchError::Text),
        ),
        (Phase::Reading { etag }, Event::TextRead(Some(body))) => goes_on(
            f,
            Phase::Writing { etag, body },
            Action::WriteBody { filename: cache::file_name(f.url), body },
        ),
        (Phase::Writing { etag, body }, Event::Written { ok, now }) => if ok {
            ends(
                f,
                Action::Finish {
                    body,
                    record: Some(
                        Entry { fetched_at: now, etag, filename: cache::file_name(f.url) },
                    ),
                },
            )
        } else {
            ends(f, Action::Fail(FetchError::Write))
        },
        _ => ends(f, Action::Fail(FetchError::Send)),
    }
}

/// The tag of a cached list, where there is one.
fn tag_of(cached: &Option<CachedList>) -> (r: Option<String>)
    ensures
        dns::opt_view(r) == cached_tag(entry_view(*cached)),
{
    match cached {
        Some(e) => match &e.etag {
            Some(t) => Some(t.clone()),
            None => None,
        },
        None => None,
    }
}

impl Fetch {
    /// Begins a fetch of a list.
    pub fn begin(url: String, cached: Option<CachedList>, interval_secs: u64, now: u64) -> (r: (
        Fetch,
        FetchAction,
    ))
        ensures
            r.0@ == begun(url@, entry_view(cached), interval_secs, now).0,
            r.1@ == begun(url@, entry_view(cached), interval_secs, now).1,
    {
        if let Some(e) = &cached {
            if now.saturating_sub(e.fetched_at) < interval_secs {
                let filename = e.filename.clone();
                return (
                    Fetch { url, cached, phase: FetchPhase::FreshCopy },
                    FetchAction::ReadBody { filename },
                );
            }
        }
        let etag = tag_of(&cached);
        (Fetch { url, cached, phase: FetchPhase::Asked }, FetchAction::Get { etag })
    }

    /// Turns to the cached copy where there is one.
    fn copy_action(&self) -> (r: Option<FetchAction>)
        ensures
            match self@.cached {
                Some(e) => r matches Some(a) && a@ == (Action::ReadBody { filename: e.filename }),
                None => r is None,
            },
    {
        match &self.cached {
            Some(e) => Some(FetchAction::ReadBody { filename: e.filename.clone() }),
            None => None,
        }
    }

    /// Goes on to a phase.
    fn go_on(self, phase: FetchPhase, action: FetchAction) -> (r: (Fetch, FetchAction))
        ensures
            r.0@ == goes_on(self@, phase@, action@).0,
            r.1@ == action@,
    {
        (Fetch { url: self.url, cached: self.cached, phase }, action)
    }

    /// Turns to the cached copy, or fails where there is none.
    fn copy_or_fail(self, phase: FetchPhase, error: FetchError) -> (r: (Fetch, FetchAction))
        ensures
            ({
                let next = turns_to_copy(self@, phase@, ends(self@, Action::Fail(error)));
                r.0@ == next.0 && r.1@ == next.1
            }),
    {
        match self.copy_action() {
            Some(action) => self.go_on(phase, action),
            None => self.go_on(FetchPhase::Ended, FetchAction::Fail(error)),
        }
    }

    /// What follows on reading the cached copy.
    fn after_copy(self, body: Option<String>) -> (r: (Fetch, FetchAction))
        requires
            expects(self@.phase, Event::BodyRead(dns::opt_view(body))),
        ensures
            r.0@ == stepped(self@, Event::BodyRead(dns::opt_view(body))).0,
            r.1@ == stepped(self@, Event::BodyRead(dns::opt_view(body))).1,
    {
        let ghost f = self@;
        match body {
            Some(body) => self.go_on(
                FetchPhase::Ended,
                FetchAction::Finish { body, record: None },
            ),
            None => match self.phase {
                FetchPhase::FreshCopy => {
                    let etag = tag_of(&self.cached);
                    self.go_on(FetchPhase::Asked, FetchAction::Get { etag })
                },
                FetchPhase::CopyHolds => self.go_on(
                    FetchPhase::AskedAgain,
                    FetchAction::Get { etag: None },
                ),
                FetchPhase::CopyForStatus(s) => self.go_on(
                    FetchPhase::Ended,
                    FetchAction::Fail(FetchError::Http(s)),
                ),
                _ => self.go_on(FetchPhase::Ended, FetchAction::Fail(FetchError::Send)),
            },
        }
    }

    /// What follows on a response of the server.
    fn after_response(self, status: u16, etag: Option<String>) -> (r: (Fetch, FetchAction))
        requires
            self@.phase is Asked || self@.phase is AskedAgain,
        ensures
            r.0@ == stepped(self@, Event::Response { status, etag: dns::opt_view(etag) }).0,
            r.1@ == stepped(self@, Event::Response { status, etag: dns::opt_view(etag) }).1,
    {
        let again = match self.phase {
            FetchPhase::AskedAgain => true,
            _ => false,
        };
        if again || status == STATUS_OK {
            self.go_on(FetchPhase::Reading { etag }, FetchAction::ReadText)
        } else if status == STATUS_NOT_MODIFIED {
            match self.copy_action() {
                Some(action) => self.go_on(FetchPhase::CopyHolds, action),
                None => self.go_on(FetchPhase::AskedAgain, FetchAction::Get { etag: None }),
            }
        } else {
            self.copy_or_fail(FetchPhase::CopyForStatus(status), FetchError::Http(status))
        }
    }

    /// Goes on after what came of the last action.
    pub fn step(self, event: FetchEvent) -> (r: (Fetch, FetchAction))
        requires
            expects(self@.phase, event@),
        ensures
            r.0@ == stepped(self@, event@).0,
            r.1@ == stepped(self@, event@).1,
    {
        match event {
            FetchEvent::BodyRead(body) => self.after_copy(body),
            FetchEvent::SendFailed => {
                let again = match self.phase {
                    FetchPhase::AskedAgain => true,
                    _ => false,
                };
                if again {
                    self.go_on(FetchPhase::Ended, FetchAction::Fail(FetchError::Send))
                } else {
                    self.copy_or_fail(FetchPhase::CopyForSend, FetchError::Send)
                }
            },
            FetchEvent::Response { status, etag } => self.after_response(status, etag),
            FetchEvent::TextRead(body) => match (self.phase, body) {
                (FetchPhase::Reading { etag }, Some(body)) => {
                    let filename = cache::url_to_filename(self.url.as_str());
                    let copy = body.clone();
                    (
                        Fetch {
                            url: self.url,
                            cached: self.cached,
                            phase: FetchPhase::Writing { etag, body: copy },
                        },
                        FetchAction::WriteBody { filename, body },
                    )
                },
                _ => (
                    Fetch { url: self.url, cached: self.cached, phase: FetchPhase::Ended },
                    FetchAction::Fail(FetchError::Text),
                ),
            },
            FetchEvent::Written { ok, now } => match self.phase {
                FetchPhase::Writing { etag, body } if ok => {
                    let filename = cache::url_to_filename(self.url.as_str());
                    (
                        Fetch { url: self.url, cached: self.cached, phase: FetchPhase::Ended },
                        FetchAction::Finish {
                            body,
                            record: Some(CachedList { fetched_at: now, etag, filename }),
                        },
                    )
                },
                _ => (
                    Fetch { url: self.url, cached: self.cached, phase: FetchPhase::Ended },
                    FetchAction::Fail(FetchError::Write),
                ),
            },
        }
    }
}

// ---------------------------------------------------------------------------
// Many lists
// ---------------------------------------------------------------------------

/// A fetch that has begun, and its first action.
#[derive(Debug)]
pub struct Planned {
    pub fetch: Fetch,
    pub action: FetchAction,
}

/// How the fetches of lists begin.
pub open spec fn plans(
    urls: Seq<Seq<char>>,
    cached: Seq<(Seq<char>, Entry)>,
    interval: u64,
    now: u64,
) -> Seq<(Fetching, Action)> {
    Seq::new(
        urls.len(),
        |i: int| begun(urls[i], cache::lookup(cached, urls[i]), interval, now),
    )
}

/// Views of fetches that have begun.
pub open spec fn planned_views(v: Seq<Planned>) -> Seq<(Fetching, Action)> {
    v.map_values(|p: Planned| (p.fetch@, p.action@))
}

/// The end of a fetch: the list and what is now known of it where that is new.
#[derive(Debug)]
pub struct Fetched {
    pub url: String,
    pub body: String,
    pub record: Option<CachedList>,
}

/// A list and its address.
#[derive(Debug, PartialEq, Eq)]
pub struct ListBody {
    pub url: String,
    pub body: String,
}

/// Views of lists with their addresses.
pub open spec fn bodies(v: Seq<ListBody>) -> Seq<(Seq<char>, Seq<char>)> {
    v.map_values(|b: ListBody| (b.url@, b.body@))
}

/// Lists with their addresses, as they were fetched.
pub open spec fn fetched_bodies(v: Seq<Fetched>) -> Seq<(Seq<char>, Seq<char>)> {
    v.map_values(|f: Fetched| (f.url@, f.body@))
}

/// The cache with what is known of fetched lists put in.
pub open spec fn with_records(cached: Seq<(Seq<char>, Entry)>, v: Seq<Fetched>) -> Seq<
    (Seq<char>, Entry),
>
    decreases v.len(),
{
    if v.len() == 0 {
        cached
    } else {
        let before = with_records(cached, v.drop_last());
        match v.last().record {
            Some(e) => cache::stored(before, v.last().url@, e@),
            None => before,
        }
    }
}

/// Whether something new is known of one of the lists.
pub open spec fn any_record(v: Seq<Fetched>) -> bool {
    exists|i: int| 0 <= i < v.len() && (#[trigger] v[i]).record is Some
}

impl CachedLists {
    /// Begins the fetches of lists.
    pub fn plan_fetches(&self, urls: &[String], interval_secs: u64, now: u64) -> (r: Vec<Planned>)
        ensures
            planned_views(r@) == plans(text::texts(urls@), self.map@, interval_secs, now),
    {
        let ghost all = plans(text::texts(urls@), self.map@, interval_secs, now);
        let mut out: Vec<Planned> = Vec::new();
        assert(planned_views(out@) =~= all.take(0));
        for i in 0..urls.len()
            invariant
                all == plans(text::texts(urls@), self.map@, interval_secs, now),
                planned_views(out@) == all.take(i as int),
        {
            let cached = match self.map.get(urls[i].as_str()) {
                Some(e) => Some(e.clone()),
                None => None,
            };
            let (fetch, action) = Fetch::begin(urls[i].clone(), cached, interval_secs, now);
            assert(text::texts(urls@)[i as int] == urls@[i as int]@);
            let ghost before = out@;
            let ghost view = (fetch@, action@);
            out.push(Planned { fetch, action });
            assert(planned_views(out@) =~= planned_views(before).push(view));
            assert(view == all[i as int]);
            assert(all.take(i + 1) =~= all.take(i as int).push(all[i as int]));
        }
        assert(all.take(all.len() as int) =~= all);
        out
    }

    /// Puts in what is known of fetched lists, and gives the lists.
    pub fn merge_downloads(&mut self, fetched: Vec<Fetched>) -> (r: Vec<ListBody>)
        ensures
            bodies(r@) == fetched_bodies(fetched@),
            final(self).map@ == with_records(old(self).map@, fetched@),
            final(self).dirty == (old(self).dirty || any_record(fetched@)),
    {
        let ghost all = fetched_bodies(fetched@);
        let mut out: Vec<ListBody> = Vec::new();
        assert(bodies(out@) =~= all.take(0));
        assert(fetched@.take(0) =~= Seq::empty());
        for i in 0..fetched.len()
            invariant
                all == fetched_bodies(fetched@),
                bodies(out@) == all.take(i as int),
                self.map@ == with_records(old(self).map@, fetched@.take(i as int)),
                self.dirty == (old(self).dirty || any_record(fetched@.take(i as int))),
        {
            let f = &fetched[i];
            let ghost before = out@;
            out.push(ListBody { url: f.url.clone(), body: f.body.clone() });
            assert(bodies(out@) =~= bodies(before).push(all[i as int]));
            assert(all.take(i + 1) =~= all.take(i as int).push(all[i as int]));
            assert(fetched@.take(i + 1).drop_last() =~= fetched@.take(i as int));
            proof {
                lemma_any_record(fetched@, i as int);
            }
            if let Some(e) = &f.record {
                self.record(f.url.clone(), e.clone());
            }
        }
        assert(all.take(all.len() as int) =~= all);
        assert(fetched@.take(fetched@.len() as int) =~= fetched@);
        out
    }
}

proof fn lemma_any_record(v: Seq<Fetched>, i: int)
    requires
        0 <= i < v.len(),
    ensures
        any_record(v.take(i + 1)) == (any_record(v.take(i)) || v[i].record is Some),
{
    let a = v.take(i);
    let b = v.take(i + 1);
    if any_record(a) {
        let k = choose|k: int| 0 <= k < a.len() && (#[trigger] a[k]).record is Some;
        assert(b[k] == a[k]);
    }
    if v[i].record is Some {
        assert(b[i] == v[i]);
    }
    if any_record(b) && !(v[i].record is Some) {
        let k = choose|k: int| 0 <= k < b.len() && (#[trigger] b[k]).record is Some;
        assert(a[k] == b[k]);
    }
}

// ---------------------------------------------------------------------------
// Where the server is
// ---------------------------------------------------------------------------

/// An address as the `url` crate parses it.
#[verifier::external_type_specification]
#[verifier::external_body]
pub struct ExUrl(url::Url);

/// The error that the `url` crate gives for a text that is no address.
#[verifier::external_type_specification]
#[verifier::external_body]
pub struct ExUrlParseError(url::ParseError);

/// What `Url::parse` makes of a text; `None` where it gives an error.
pub uninterp spec fn parsed_url(s: Seq<char>) -> Option<url::Url>;

/// The host of an address, as `Url::host_str` gives it.
pub uninterp spec fn host_of_url(u: url::Url) -> Option<Seq<char>>;

/// The port of an address, as `Url::port_or_known_default` gives it.
pub uninterp spec fn port_of_url(u: url::Url) -> Option<u16>;

/// `Url::parse` parses a text with the default options. What it gives depends on
/// the text alone.
pub assume_specification[ url::Url::parse ](input: &str) -> (r: Result<url::Url, url::ParseError>)
    ensures
        match r {
            Ok(u) => parsed_url(input@) == Some(u),
            Err(_) => parsed_url(input@) is None,
        },
;

/// `Url::host_str` gives the host of the address, and nothing where it has none.
pub assume_specification[ url::Url::host_str ](u: &url::Url) -> (r: Option<&str>)
    ensures
        match r {
            Some(h) => host_of_url(*u) == Some(h@),
            None => host_of_url(*u) is None,
        },
;

/// `Url::port_or_known_default` gives the port of the address, or the usual one
/// of its scheme where that is known.
pub assume_specification[ url::Url::port_or_known_default ](u: &url::Url) -> (r: Option<u16>)
    ensures
        r == port_of_url(*u),
;

/// The port where an address has none and its scheme has no usual one.
pub const DEFAULT_PORT: u16 = 443;

/// Why a host is left to the resolver of the system.
#[derive(Debug, Clone, Copy, PartialEq, Eq, Structural)]
pub enum Unpinned {
    /// The text is no address.
    BadUrl,
    /// The address has no host.
    NoHost,
    /// The host is an address of a machine already.
    IpLiteral,
    /// Upstream knows no machine of that name.
    NoAddresses,
    /// Upstream could not be asked.
    NotResolved,
}

/// A host and a port on it.
#[derive(Debug, PartialEq, Eq)]
pub struct HostPort {
    pub host: String,
    pub port: u16,
}

/// The host and the port that an address leads to.
pub open spec fn host_port(url: Seq<char>) -> Result<(Seq<char>, u16), Unpinned> {
    match parsed_url(url) {
        None => Err(Unpinned::BadUrl),
        Some(u) => match host_of_url(u) {
            None => Err(Unpinned::NoHost),
            Some(host) => Ok(
                (
                    host,
                    match port_of_url(u) {
                        Some(p) => p,
                        None => DEFAULT_PORT,
                    },
                ),
            ),
        },
    }
}

/// The host and the port that an address leads to.
pub fn url_host_port(url: &str) -> (r: Result<HostPort, Unpinned>)
    ensures
        match host_port(url@) {
            Ok((host, port)) => r matches Ok(hp) && hp.host@ == host && hp.port == port,
            Err(e) => r == Err::<HostPort, Unpinned>(e),
        },
{
    match url::Url::parse(url) {
        Ok(u) => host_port_of(
            match u.host_str() {
                Some(h) => Some(h.to_owned()),
                None => None,
            },
            u.port_or_known_default(),
        ),
        Err(_) => Err(Unpinned::BadUrl),
    }
}

/// The host and the port of an address, from its parts.
pub fn host_port_of(host: Option<String>, port: Option<u16>) -> (r: Result<HostPort, Unpinned>)
    ensures
        match host {
            None => r == Err::<HostPort, Unpinned>(Unpinned::NoHost),
            Some(h) => r matches Ok(hp) && hp.host@ == h@ && hp.port == match port {
                Some(p) => p,
                None => DEFAULT_PORT,
            },
        },
{
    match host {
        None => Err(Unpinned::NoHost),
        Some(host) => Ok(
            HostPort {
                host,
                port: match port {
                    Some(p) => p,
                    None => DEFAULT_PORT,
                },
            },
        ),
    }
}

/// The addresses that a host is pinned to: those that upstream gave, unless the
/// host needs no resolving or upstream gave none.
pub fn pin_host(is_ip: bool, resolved: Option<Vec<[u8; 4]>>) -> (r: Result<Vec<[u8; 4]>, Unpinned>)
    ensures
        r == if is_ip {
            Err::<Vec<[u8; 4]>, Unpinned>(Unpinned::IpLiteral)
        } else {
            match resolved {
                None => Err(Unpinned::NotResolved),
                Some(v) => if v@.len() == 0 {
                    Err(Unpinned::NoAddresses)
                } else {
                    Ok(v)
                },
            }
        },
{
    if is_ip {
        return Err(Unpinned::IpLiteral);
    }
    match resolved {
        None => Err(Unpinned::NotResolved),
        Some(v) => if v.is_empty() {
            Err(Unpinned::NoAddresses)
        } else {
            Ok(v)
        },
    }
}

// ---------------------------------------------------------------------------
// What a fetch promises
// ---------------------------------------------------------------------------

/// What a fetch meets with: the cached copy, the responses to the first and the
/// second request, the text of the response that is read, whether the list can
/// be written, and the time.
pub struct World {
    pub copy: Option<Seq<char>>,
    pub first: Option<(u16, Option<Seq<char>>)>,
    pub second: Option<(u16, Option<Seq<char>>)>,
    pub text: Option<Seq<char>>,
    pub writable: bool,
    pub now: u64,
}

/// The event that comes of an action.
pub open spec fn answer(w: World, phase: Phase, action: Action) -> Event {
    match action {
        Action::ReadBody { filename: _ } => Event::BodyRead(w.copy),
        Action::Get { etag: _ } => {
            let response = if phase is AskedAgain {
                w.second
            } else {
                w.first
            };
            match response {
                Some((status, etag)) => Event::Response { status, etag },
                None => Event::SendFailed,
            }
        },
        Action::ReadText => Event::TextRead(w.text),
        _ => Event::Written { ok: w.writable, now: w.now },
    }
}

/// How a fetch ends that is driven for at most `steps` steps.
pub open spec fn driven(f: Fetching, action: Action, w: World, steps: nat) -> Option<
    Result<(Seq<char>, Option<Entry>), FetchError>,
>
    decreases steps,
{
    match action {
        Action::Finish { body, record } => Some(Ok((body, record))),
        Action::Fail(e) => Some(Err(e)),
        _ => if steps == 0 {
            None
        } else {
            let (g, next) = stepped(f, answer(w, f.phase, action));
            driven(g, next, w, (steps - 1) as nat)
        },
    }
}

/// The list as it comes from the server, and what is then known of it.
pub open spec fn downloaded(url: Seq<char>, etag: Option<Seq<char>>, w: World) -> Result<
    (Seq<char>, Option<Entry>),
    FetchError,
> {
    match w.text {
        None => Err(FetchError::Text),
        Some(body) => if w.writable {
            Ok(
                (
                    body,
                    Some(Entry { fetched_at: w.now, etag, filename: cache::file_name(url) }),
                ),
            )
        } else {
            Err(FetchError::Write)
        },
    }
}

/// How a fetch ends, said all at once.
pub open spec fn fetched(
    url: Seq<char>,
    cached: Option<Entry>,
    interval: u64,
    now: u64,
    w: World,
) -> Result<(Seq<char>, Option<Entry>), FetchError> {
    let has_copy = cached is Some && w.copy is Some;
    let fresh = cached is Some && cache::is_fresh(cached->Some_0.fetched_at, now, interval);
    if fresh && has_copy {
        Ok((w.copy->Some_0, None))
    } else {
        match w.first {
            None => if has_copy {
                Ok((w.copy->Some_0, None))
            } else {
                Err(FetchError::Send)
            },
            Some((status, etag)) => if status == STATUS_OK {
                downloaded(url, etag, w)
            } else if has_copy {
                Ok((w.copy->Some_0, None))
            } else if status == STATUS_NOT_MODIFIED {
                match w.second {
                    None => Err(FetchError::Send),
                    Some((_, etag)) => downloaded(url, etag, w),
                }
            } else {
                Err(FetchError::Http(status))
            },
        }
    }
}

/// Driven by its actions, every fetch ends, within eight steps, and ends as
/// `fetched` says.
pub proof fn law_fetch_ends(
    url: Seq<char>,
    cached: Option<Entry>,
    interval: u64,
    now: u64,
    w: World,
)
    ensures
        ({
            let (f, action) = begun(url, cached, interval, now);
            driven(f, action, w, 8) == Some(fetched(url, cached, interval, now, w))
        }),
{
    reveal_with_fuel(driven, 9);
}

/// The last good copy is used where the server cannot be asked or answers with
/// anything but the list.
pub proof fn law_last_good_copy(
    url: Seq<char>,
    cached: Option<Entry>,
    interval: u64,
    now: u64,
    w: World,
)
    requires
        cached is Some,
        w.copy is Some,
        w.first matches Some((status, _)) ==> status != STATUS_OK,
    ensures
        fetched(url, cached, interval, now, w) == Ok::<(Seq<char>, Option<Entry>), FetchError>(
            (w.copy->Some_0, None),
        ),
{
}

/// A fresh copy that can be read is used without asking the server: the fetch
/// begins with reading it and ends there.
pub proof fn law_fresh_copy(
    url: Seq<char>,
    entry: Entry,
    interval: u64,
    now: u64,
    body: Seq<char>,
)
    requires
        cache::is_fresh(entry.fetched_at, now, interval),
    ensures
        ({
            let (f, action) = begun(url, Some(entry), interval, now);
            &&& action == (Action::ReadBody { filename: entry.filename })
            &&& stepped(f, Event::BodyRead(Some(body))).1 == (Action::Finish {
                body,
                record: None,
            })
        }),
{
}

/// Whether the events that can come of an action are those that a fetch expects.
pub open spec fn in_step(phase: Phase, action: Action) -> bool {
    match action {
        Action::ReadBody { filename: _ } => phase is FreshCopy || phase is CopyForSend
            || phase is CopyHolds || phase is CopyForStatus,
        Action::Get { etag: _ } => phase is Asked || phase is AskedAgain,
        Action::ReadText => phase is Reading,
        Action::WriteBody { filename: _, body: _ } => phase is Writing,
        Action::Finish { body: _, record: _ } => phase is Ended,
        Action::Fail(_) => phase is Ended,
    }
}

/// A fetch is always in step with the action it gives, at its beginning and
/// after every event that it expects. The first request asks with the tag that
/// is known; a list that is recorded has the file name of its address.
pub proof fn law_in_step(
    url: Seq<char>,
    cached: Option<Entry>,
    interval: u64,
    now: u64,
    f: Fetching,
    event: Event,
)
    requires
        expects(f.phase, event),
    ensures
        in_step(begun(url, cached, interval, now).0.phase, begun(url, cached, interval, now).1),
        in_step(stepped(f, event).0.phase, stepped(f, event).1),
        stepped(f, event).0.url == f.url,
        stepped(f, event).0.cached == f.cached,
        begun(url, cached, interval, now).1 matches Action::Get { etag } ==> etag == cached_tag(
            cached,
        ),
        stepped(f, event).1 matches Action::Finish { body, record: Some(e) } ==> e.filename
            == cache::file_name(f.url),
{
}

/// Whether a fetch has to ask the server: nothing is known of the list, or the
/// interval has passed since it was fetched, or the copy cannot be read.
pub open spec fn has_to_ask(cached: Option<Entry>, interval: u64, now: u64, w: World) -> bool {
    ||| cached is None
    ||| w.copy is None
    ||| interval == 0
    ||| now >= cached->Some_0.fetched_at + interval
}

/// How a fetch that is driven by its actions ends.
pub open spec fn outcome_of(
    url: Seq<char>,
    cached: Option<Entry>,
    interval: u64,
    now: u64,
    w: World,
) -> Option<Result<(Seq<char>, Option<Entry>), FetchError>> {
    driven(
        begun(url, cached, interval, now).0,
        begun(url, cached, interval, now).1,
        w,
        8,
    )
}

/// A list that the server sends and that can be written is the result, and it is
/// recorded with the tag of the response, the time now and the file name of its
/// address. A list whose text cannot be read, or that cannot be written, is an error,
/// even where there is a copy.
pub proof fn law_download(
    url: Seq<char>,
    cached: Option<Entry>,
    interval: u64,
    now: u64,
    w: World,
    tag: Option<Seq<char>>,
    body: Seq<char>,
)
    requires
        has_to_ask(cached, interval, now, w),
        w.first == Some((200u16, tag)),
    ensures
        w.text == Some(body) && w.writable ==> outcome_of(url, cached, interval, now, w) == Some(
            Ok::<(Seq<char>, Option<Entry>), FetchError>(
                (
                    body,
                    Some(Entry { fetched_at: w.now, etag: tag, filename: cache::file_name(url) }),
                ),
            ),
        ),
        w.text is None ==> outcome_of(url, cached, interval, now, w) == Some(
            Err::<(Seq<char>, Option<Entry>), FetchError>(FetchError::Text),
        ),
        w.text is Some && !w.writable ==> outcome_of(url, cached, interval, now, w) == Some(
            Err::<(Seq<char>, Option<Entry>), FetchError>(FetchError::Write),
        ),
{
    law_fetch_ends(url, cached, interval, now, w);
}

/// Without a copy, a server that cannot be asked is an error, and so is a response
/// that carries neither the list nor word that the copy holds, with its status.
pub proof fn law_failures(
    url: Seq<char>,
    cached: Option<Entry>,
    interval: u64,
    now: u64,
    w: World,
    status: u16,
    tag: Option<Seq<char>>,
)
    requires
        cached is None || w.copy is None,
    ensures
        w.first is None ==> outcome_of(url, cached, interval, now, w) == Some(
            Err::<(Seq<char>, Option<Entry>), FetchError>(FetchError::Send),
        ),
        w.first == Some((status, tag)) && status != 200 && status != 304 ==> outcome_of(
            url,
            cached,
            interval,
            now,
            w,
        ) == Some(Err::<(Seq<char>, Option<Entry>), FetchError>(FetchError::Http(status))),
{
    law_fetch_ends(url, cached, interval, now, w);
}

/// With a copy, whatever the server does but send the list gives the copy, and
/// nothing new is recorded.
pub proof fn law_copy_used(
    url: Seq<char>,
    cached: Option<Entry>,
    interval: u64,
    now: u64,
    w: World,
    copy: Seq<char>,
)
    requires
        cached is Some,
        w.copy == Some(copy),
        w.first is None || w.first->Some_0.0 != 200,
    ensures
        outcome_of(url, cached, interval, now, w) == Some(
            Ok::<(Seq<char>, Option<Entry>), FetchError>((copy, None)),
        ),
{
    law_fetch_ends(url, cached, interval, now, w);
}

/// A copy that the server says still holds but that is gone is fetched anew, whatever
/// the status of the second response; a second request that cannot be sent is an
/// error.
pub proof fn law_copy_gone(
    url: Seq<char>,
    cached: Option<Entry>,
    interval: u64,
    now: u64,
    w: World,
    tag: Option<Seq<char>>,
    status: u16,
    second_tag: Option<Seq<char>>,
    body: Seq<char>,
)
    requires
        cached is None || w.copy is None,
        w.first == Some((304u16, tag)),
    ensures
        w.second is None ==> outcome_of(url, cached, interval, now, w) == Some(
            Err::<(Seq<char>, Option<Entry>), FetchError>(FetchError::Send),
        ),
        w.second == Some((status, second_tag)) && w.text == Some(body) && w.writable ==> outcome_of(
            url,
            cached,
            interval,
            now,
            w,
        ) == Some(
            Ok::<(Seq<char>, Option<Entry>), FetchError>(
                (
                    body,
                    Some(
                        Entry {
                            fetched_at: w.now,
                            etag: second_tag,
                            filename: cache::file_name(url),
                        },
                    ),
                ),
            ),
        ),
{
    law_fetch_ends(url, cached, interval, now, w);
}

/// A fetch whose copy is not fresh begins with a request that carries the tag that is
/// known, and one of a list of which nothing is known with a request without a tag.
/// The request that follows on a copy that is gone carries none.
pub proof fn law_requests(url: Seq<char>, entry: Entry, interval: u64, now: u64)
    ensures
        begun(url, None, interval, now).1 == (Action::Get { etag: None }),
        interval == 0 || now >= entry.fetched_at + interval ==> begun(
            url,
            Some(entry),
            interval,
            now,
        ).1 == (Action::Get { etag: entry.etag }),
        interval > 0 && now < entry.fetched_at + interval ==> {
            let (f, action) = begun(url, Some(entry), interval, now);
            &&& action == (Action::ReadBody { filename: entry.filename })
            &&& stepped(f, Event::BodyRead(None)).1 == (Action::Get { etag: entry.etag })
        },
        forall|f: Fetching| f.phase is CopyHolds ==> (#[trigger] stepped(f, Event::BodyRead(None))).1
            == (Action::Get { etag: None }),
{
}

/// The list is written to the file of its address as it was read, and a copy is read
/// from the file that is known of it.
pub proof fn law_files(f: Fetching, event: Event)
    requires
        expects(f.phase, event),
    ensures
        stepped(f, event).1 matches Action::WriteBody { filename, body } ==> filename
            == cache::file_name(f.url) && event == Event::TextRead(Some(body)),
        stepped(f, event).1 matches Action::ReadBody { filename } ==> (f.cached matches Some(e)
            && filename == e.filename),
{
}

/// Every address has its fetch, in its place, which begins with what is known of the
/// list at that address.
pub proof fn law_plans(
    urls: Seq<Seq<char>>,
    cached: Seq<(Seq<char>, Entry)>,
    interval: u64,
    now: u64,
    i: int,
)
    requires
        0 <= i < urls.len(),
    ensures
        plans(urls, cached, interval, now).len() == urls.len(),
        plans(urls, cached, interval, now)[i].0.url == urls[i],
        plans(urls, cached, interval, now)[i].0.cached == cache::lookup(cached, urls[i]),
        plans(urls, cached, interval, now)[i] == begun(
            urls[i],
            cache::lookup(cached, urls[i]),
            interval,
            now,
        ),
{
}

/// Whether a download recorded something of the list at an address.
pub open spec fn records_of(f: Fetched, url: Seq<char>) -> bool {
    f.url@ == url && f.record is Some
}

/// Once downloads are put in, what is known of a list is what the last of them that
/// recorded something of it says.
pub proof fn law_last_record_counts(
    cached: Seq<(Seq<char>, Entry)>,
    v: Seq<Fetched>,
    url: Seq<char>,
    i: int,
)
    requires
        0 <= i < v.len(),
        records_of(v[i], url),
        forall|j: int| i < j < v.len() ==> !records_of(#[trigger] v[j], url),
    ensures
        cache::lookup(with_records(cached, v), url) == Some(v[i].record->Some_0@),
    decreases v.len(),
{
    let front = v.drop_last();
    let last = v[v.len() - 1];
    let before = with_records(cached, front);
    if let Some(e) = last.record {
        cache::law_stored_is_found(before, last.url@, e@, url);
    }
    if i < v.len() - 1 {
        assert(front[i] == v[i]);
        assert forall|j: int| i < j < front.len() implies !records_of(#[trigger] front[j], url) by {
            assert(front[j] == v[j]);
        }
        law_last_record_counts(cached, front, url, i);
        assert(!records_of(last, url));
    }
}

/// Once downloads are put in, what is known of a list of which none of them recorded
/// anything is what was known.
pub proof fn law_unrecorded_kept(cached: Seq<(Seq<char>, Entry)>, v: Seq<Fetched>, url: Seq<char>)
    requires
        forall|j: int| 0 <= j < v.len() ==> !records_of(#[trigger] v[j], url),
    ensures
        cache::lookup(with_records(cached, v), url) == cache::lookup(cached, url),
    decreases v.len(),
{
    if v.len() > 0 {
        let front = v.drop_last();
        let last = v[v.len() - 1];
        if let Some(e) = last.record {
            cache::law_stored_is_found(with_records(cached, front), last.url@, e@, url);
        }
        assert forall|j: int| 0 <= j < front.len() implies !records_of(#[trigger] front[j], url) by {
            assert(front[j] == v[j]);
        }
        law_unrecorded_kept(cached, front, url);
        assert(!records_of(last, url));
    }
}

/// An address leads to its host, on the port that it names or that its scheme is known
/// for, and on port 443 where there is neither.
pub proof fn law_host_port(url: Seq<char>, u: url::Url, host: Seq<char>, port: u16)
    requires
        parsed_url(url) == Some(u),
    ensures
        host_of_url(u) == Some(host) && port_of_url(u) == Some(port) ==> host_port(url) == Ok::<
            (Seq<char>, u16),
            Unpinned,
        >((host, port)),
        host_of_url(u) == Some(host) && port_of_url(u) is None ==> host_port(url) == Ok::<
            (Seq<char>, u16),
            Unpinned,
        >((host, 443u16)),
        host_of_url(u) is None ==> host_port(url) == Err::<(Seq<char>, u16), Unpinned>(
            Unpinned::NoHost,
        ),
{
}

/// Something new is known where one of the downloads recorded something, whichever it is.
pub proof fn law_any_record(a: Seq<Fetched>, f: Fetched, b: Seq<Fetched>)
    ensures
        !any_record(Seq::empty()),
        f.record is Some ==> any_record(a.push(f) + b),
        f.record is None ==> (any_record(a.push(f) + b) <==> any_record(a) || any_record(b)),
{
    let all = a.push(f) + b;
    assert(all[a.len() as int] == f);
    if any_record(a) {
        let k = choose|k: int| 0 <= k < a.len() && (#[trigger] a[k]).record is Some;
        assert(all[k] == a[k]);
    }
    if any_record(b) {
        let k = choose|k: int| 0 <= k < b.len() && (#[trigger] b[k]).record is Some;
        assert(all[a.len() + 1 + k] == b[k]);
    }
    if any_record(all) && f.record is None {
        let k = choose|k: int| 0 <= k < all.len() && (#[trigger] all[k]).record is Some;
        if k < a.len() {
            assert(a[k] == all[k]);
        } else {
            assert(b[k - a.len() - 1] == all[k]);
        }
    }
}

/// Each download gives its list at its address, in order.
pub proof fn law_fetched_bodies(v: Seq<Fetched>, w: Seq<ListBody>, i: int)
    requires
        bodies(w) == fetched_bodies(v),
        0 <= i < v.len(),
    ensures
        w.len() == v.len(),
        w[i].url@ == v[i].url@,
        w[i].body@ == v[i].body@,
{
    assert(bodies(w).len() == w.len());
    assert(bodies(w)[i] == fetched_bodies(v)[i]);
}

/// What is known of a list stands for its parts.
pub proof fn law_entry_parts(e: CachedList)
    ensures
        e@.fetched_at == e.fetched_at,
        e@.filename == e.filename@,
        e.etag is Some ==> e@.etag == Some(e.etag->Some_0@),
        e.etag is None ==> e@.etag is None,
{
}

/// Whatever comes of the action that a fetch gives, the fetch expects it, until it has
/// ended.
pub proof fn law_answers_expected(w: World, phase: Phase, action: Action)
    requires
        in_step(phase, action),
        !(action is Finish) && !(action is Fail),
    ensures
        expects(phase, answer(w, phase, action)),
{
}

} // verus!
