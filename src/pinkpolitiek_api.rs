use vstd::prelude::*;
use vstd::string::*;

use crate::store::{sync_outcome, EventStore, SyncError};

verus! {

/// The venue of a remote event.
#[derive(Clone, Debug)]
pub struct Venue {
    pub id: i32,
    pub url: String,
    pub name: String,
    pub show_map: bool,
}

/// The remote API sends a venue object, or an empty array when an event has no venue.
#[derive(Clone, Debug)]
pub enum PPVenueOrVec {
    Venue(Venue),
    Absent,
}

/// One event as the remote events endpoint describes it.
#[derive(Clone, Debug)]
pub struct PPEvent {
    pub id: i32,
    pub global_id: String,
    pub author: String,
    pub status: String,
    pub date: String,
    pub date_utc: String,
    pub modified: String,
    pub modified_utc: String,
    pub url: String,
    pub rest_url: String,
    pub title: String,
    pub description: String,
    pub excerpt: String,
    pub slug: String,
    pub all_day: bool,
    pub start_date: String,
    pub venue: PPVenueOrVec,
}

/// One page of the remote events endpoint.
#[derive(Clone, Debug)]
pub struct PPEventsData {
    pub events: Vec<PPEvent>,
    pub rest_url: String,
    pub total: i32,
    pub total_pages: i32,
}

/// What the remote login endpoint returns on success.
#[derive(Clone, Debug)]
pub struct PPLoginResponse {
    pub token: String,
    pub user_email: String,
    pub user_nicename: String,
    pub user_display_name: String,
}

/// The status carried inside a remote error envelope.
#[derive(Clone, Copy, Debug, PartialEq, Eq, Structural)]
pub struct PPErrorData {
    pub status: i32,
}

/// The error envelope of the remote API.
#[derive(Clone, Debug)]
pub struct PPErrorResponse {
    pub code: String,
    pub message: String,
    pub data: PPErrorData,
}


/// Why fetching a page of remote events did not give events.
#[derive(Clone, Debug)]
pub enum FetchError {
    /// The remote API could not be reached at `endpoint`.
    ConnectionError { endpoint: String },
    /// The remote API answered with a failure.
    RemoteError { status: i32, message: String },
    /// The remote API answered with a payload of the wrong shape.
    DecodeError,
    /// The events were fetched but one could not be stored.
    Sync(SyncError),
}

/// What the remote API answered: its status, the page and the error envelope as far
/// as the body decodes into them, and the body itself.
#[derive(Clone, Debug)]
pub struct EventsReply {
    pub status: u16,
    pub page: Option<PPEventsData>,
    pub envelope: Option<PPErrorResponse>,
    pub body: String,
}

/// A byte that URL encoding leaves as it is: `A-Z a-z 0-9 - . _ ~`.
pub open spec fn unreserved(b: u8) -> bool {
    (48 <= b <= 57) || (65 <= b <= 90) || (97 <= b <= 122) || b == 45 || b == 46 || b == 95 || b == 126
}

/// The upper-case hex digit of `d`, below 16.
pub open spec fn hex_digit(d: u8) -> char {
    if d < 10 {
        ((48 + d) as u8) as char
    } else {
        ((55 + d) as u8) as char
    }
}

/// `bytes` percent-encoded: each reserved byte becomes `%` and two hex digits.
pub open spec fn percent_encoded(bytes: Seq<u8>) -> Seq<char>
    decreases bytes.len(),
{
    if bytes.len() == 0 {
        Seq::empty()
    } else {
        let b = bytes.last();
        percent_encoded(bytes.drop_last()) + if unreserved(b) {
            seq![b as char]
        } else {
            seq!['%', hex_digit(b / 16), hex_digit(b % 16)]
        }
    }
}

/// Relies on urlencoding::encode: every byte of the text's UTF-8 form outside
/// `A-Z a-z 0-9 - . _ ~` becomes `%` followed by two upper-case hex digits.
#[verifier::external_body]
fn url_encode(s: &str) -> (r: String)
    ensures
        r@ == percent_encoded(s.spec_bytes()),
{
    urlencoding::encode(s).into_owned()
}

/// The remote login endpoint for these credentials.
pub fn login_url(base: &str, username: &str, password: &str) -> (r: String)
    ensures
        r@ == base@ + "/jwt-auth/v1/token?username="@ + percent_encoded(username.spec_bytes())
            + "&password="@ + percent_encoded(password.spec_bytes()),
{
    let mut url = base.to_owned();
    url.append("/jwt-auth/v1/token?username=");
    let user = url_encode(username);
    url.append(user.as_str());
    url.append("&password=");
    let pass = url_encode(password);
    url.append(pass.as_str());
    url
}

/// The remote events endpoint, for the first page or for page `page`.
pub fn events_url(base: &str, page: Option<&str>) -> (r: String)
    ensures
        page is None ==> r@ == base@ + "/tribe/events/v1/events"@,
        page is Some ==> r@ == base@ + "/tribe/events/v1/events"@ + "?page="@ + page.unwrap()@,
{
    let mut url = base.to_owned();
    url.append("/tribe/events/v1/events");
    match page {
        Some(p) => {
            url.append("?page=");
            url.append(p);
        },
        None => {},
    }
    url
}

/// The error for a failed remote answer: status and message from the error envelope
/// when the body holds one, else the HTTP status and the raw body.
pub open spec fn remote_failure(status: u16, envelope: Option<PPErrorResponse>, body: String) -> FetchError {
    match envelope {
        Some(e) => FetchError::RemoteError { status: e.data.status, message: e.message },
        None => FetchError::RemoteError { status: status as i32, message: body },
    }
}

/// The error for a failed remote answer (see `remote_failure`).
pub fn remote_error(status: u16, envelope: Option<PPErrorResponse>, body: String) -> (r: FetchError)
    ensures
        r == remote_failure(status, envelope, body),
{
    match envelope {
        Some(e) => FetchError::RemoteError { status: e.data.status, message: e.message },
        None => FetchError::RemoteError { status: status as i32, message: body },
    }
}

/// The events of a reply that carries a page: status 200 and a body that decodes.
pub open spec fn page_events(reply: Option<EventsReply>) -> Option<Seq<PPEvent>> {
    match reply {
        Some(rep) => if rep.status == 200 && rep.page is Some {
            Some(rep.page.unwrap().events@)
        } else {
            None
        },
        None => None,
    }
}

/// `r` is what a reply to a page request at `endpoint` gives: no reply is a
/// `ConnectionError` naming the endpoint; a status other than 200 is a remote failure;
/// a 200 whose body is not a page is a `DecodeError`; else the page's events.
pub open spec fn reply_gives(endpoint: Seq<char>, reply: Option<EventsReply>, r: Result<Vec<PPEvent>, FetchError>) -> bool {
    match reply {
        None => match r {
            Err(FetchError::ConnectionError { endpoint: e }) => e@ == endpoint,
            _ => false,
        },
        Some(rep) => if rep.status != 200 {
            r == Err::<Vec<PPEvent>, FetchError>(remote_failure(rep.status, rep.envelope, rep.body))
        } else {
            match rep.page {
                Some(p) => r is Ok && r.unwrap()@ == p.events@,
                None => r == Err::<Vec<PPEvent>, FetchError>(FetchError::DecodeError),
            }
        },
    }
}

/// Reads the reply to a page request at `endpoint`.
pub fn events_from_reply(endpoint: &str, reply: Option<EventsReply>) -> (r: Result<Vec<PPEvent>, FetchError>)
    ensures
        reply_gives(endpoint@, reply, r),
{
    match reply {
        None => Err(FetchError::ConnectionError { endpoint: endpoint.to_owned() }),
        Some(rep) => {
            if rep.status != 200 {
                Err(remote_error(rep.status, rep.envelope, rep.body))
            } else {
                match rep.page {
                    Some(p) => Ok(p.events),
                    None => Err(FetchError::DecodeError),
                }
            }
        },
    }
}

/// One sync pass: reads the reply to a page request and stores its events. On success
/// it returns the events; a store failure ends the pass as `store_to_db` does.
pub fn get_events(store: &mut EventStore, endpoint: &str, reply: Option<EventsReply>) -> (r: Result<Vec<PPEvent>, FetchError>)
    requires
        old(store).wf(),
    ensures
        final(store).wf(),
        final(store).pairs() == old(store).pairs(),
        page_events(reply) is None ==> reply_gives(endpoint@, reply, r) && final(store).rows() == old(store).rows(),
        page_events(reply) is Some ==> exists|s: Result<(), SyncError>|
            sync_outcome(old(store).rows(), final(store).rows(), page_events(reply).unwrap(), s)
            && (s is Ok ==> r is Ok && r.unwrap()@ == page_events(reply).unwrap())
            && (s is Err ==> r == Err::<Vec<PPEvent>, FetchError>(FetchError::Sync(s->Err_0))),
{
    let events = match events_from_reply(endpoint, reply) {
        Ok(events) => events,
        Err(e) => {
            return Err(e);
        },
    };
    let stored = store.store_to_db(&events);
    let r = match stored {
        Ok(()) => Ok(events),
        Err(e) => Err(FetchError::Sync(e)),
    };
    assert(sync_outcome(old(store).rows(), store.rows(), page_events(reply).unwrap(), stored));
    r
}

} // verus!
