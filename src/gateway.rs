//! The request handler: decides, for one request, whether a point is stored
//! and which response the device gets. The transport and the storage client
//! stay outside; they hand in the request and the outcome of the write.

use vstd::prelude::*;
use crate::decode::decode;
use crate::point::{build, record_point, record_values, DataPoint, PointModel};
use crate::schema::{is_record, is_valid};

verus! {

/// The method of a request. Only `Put`, the store verb, asks for ingestion.
#[derive(Clone, Copy, Debug, PartialEq, Eq, Structural)]
pub enum Method {
    Get,
    Post,
    Put,
    Delete,
    Fetch,
    Patch,
    IPatch,
    Unknown,
}

/// Status class of a response.
#[derive(Clone, Copy, Debug, PartialEq, Eq, Structural)]
pub enum Status {
    /// The point was stored.
    Valid,
    /// The request was malformed.
    BadOption,
    /// The request was well formed but storage failed.
    InternalServerError,
}

/// A response to a device: a status and a body.
pub struct Response {
    pub status: Status,
    pub body: Vec<u8>,
}

/// What the handler asks for next.
pub enum Step {
    /// Write this point to the destination, then report the outcome.
    Store(DataPoint),
    /// Answer the device with this response; nothing is written.
    Reply(Response),
}

/// How a storage write went.
#[derive(Clone, Copy, Debug, PartialEq, Eq, Structural)]
pub enum WriteOutcome {
    Written,
    Failed,
}

/// The body byte that marks a rejected request.
pub const ERROR_MARKER: u8 = 0x30;

/// The request is accepted for ingestion: the store verb and a well-formed
/// record.
pub open spec fn accepts(method: Method, p: Seq<u8>) -> bool {
    method == Method::Put && is_record(p)
}

/// The response for a rejected request.
pub open spec fn is_rejection(r: Response) -> bool {
    r.status == Status::BadOption && r.body@ == seq![ERROR_MARKER]
}

/// The response for the outcome of a write.
pub open spec fn is_completion(r: Response, outcome: WriteOutcome) -> bool {
    &&& r.body@.len() == 0
    &&& r.status == (match outcome {
        WriteOutcome::Written => Status::Valid,
        WriteOutcome::Failed => Status::InternalServerError,
    })
}

/// The timestamp given after `last` when the clock reads `now`: timestamps
/// never go back, even when the wall clock does.
pub open spec fn next_stamp(last: i64, now: i64) -> i64 {
    if now >= last {
        now
    } else {
        last
    }
}

/// The handler's state as values.
pub struct GatewayModel {
    pub bucket: Seq<char>,
    pub last_stamp: i64,
}

/// The point that a request yields from state `g` when the clock reads `now`.
pub open spec fn step_point(g: GatewayModel, method: Method, p: Seq<u8>, now: i64) -> Option<
    PointModel,
> {
    if accepts(method, p) {
        Some(record_point(p, next_stamp(g.last_stamp, now) as int))
    } else {
        None
    }
}

/// The state after that request.
pub open spec fn step_state(g: GatewayModel, method: Method, p: Seq<u8>, now: i64) -> GatewayModel {
    if accepts(method, p) {
        GatewayModel { last_stamp: next_stamp(g.last_stamp, now), ..g }
    } else {
        g
    }
}

/// The shared part of the ingestion path: the destination's name, fixed at
/// start, and the last timestamp handed out.
pub struct Gateway {
    bucket: String,
    last_stamp: i64,
}

impl View for Gateway {
    type V = GatewayModel;

    closed spec fn view(&self) -> GatewayModel {
        GatewayModel { bucket: self.bucket@, last_stamp: self.last_stamp }
    }
}

/// Relies on std's `SystemTime::now`, chrono's `From<SystemTime>` for
/// `DateTime<Utc>` (which takes readings before 1970 as negative times) and
/// `DateTime::timestamp_nanos_opt`: the wall clock in nanoseconds since the
/// Unix epoch, `None` where that does not fit in an `i64`. Nothing is promised
/// of the reading.
#[verifier::external_body]
fn wall_clock_nanos() -> (r: Option<i64>) {
    chrono::DateTime::<chrono::Utc>::from(std::time::SystemTime::now()).timestamp_nanos_opt()
}

/// The response to a rejected request.
pub fn rejection() -> (r: Response)
    ensures
        is_rejection(r),
{
    let mut body: Vec<u8> = Vec::new();
    body.push(ERROR_MARKER);
    assert(body@ =~= seq![ERROR_MARKER]);
    Response { status: Status::BadOption, body }
}

/// The response once the write of an accepted request has finished.
pub fn complete(outcome: WriteOutcome) -> (r: Response)
    ensures
        is_completion(r, outcome),
{
    let status = match outcome {
        WriteOutcome::Written => Status::Valid,
        WriteOutcome::Failed => Status::InternalServerError,
    };
    Response { status, body: Vec::new() }
}

impl Gateway {
    /// A handler writing to destination `bucket`, with no timestamp given yet.
    pub fn new(bucket: String) -> (g: Gateway)
        ensures
            g@.bucket == bucket@,
            g@.last_stamp == i64::MIN,
    {
        Gateway { bucket, last_stamp: i64::MIN }
    }

    /// The destination's name.
    pub fn bucket(&self) -> (r: &String)
        ensures
            r@ == self@.bucket,
    {
        &self.bucket
    }

    /// The last timestamp handed out.
    pub fn last_stamp(&self) -> (r: i64)
        ensures
            r == self@.last_stamp,
    {
        self.last_stamp
    }

    /// Hands out the timestamp for a clock reading of `now`.
    pub fn stamp_at(&mut self, now: i64) -> (r: i64)
        ensures
            r == next_stamp(old(self)@.last_stamp, now),
            final(self)@ == (GatewayModel { last_stamp: r, ..old(self)@ }),
    {
        if now > self.last_stamp {
            self.last_stamp = now;
        }
        self.last_stamp
    }

    /// Hands out a timestamp from the wall clock; where the clock cannot be
    /// read in nanoseconds, the last timestamp is given again.
    pub fn stamp(&mut self) -> (r: i64)
        ensures
            r >= old(self)@.last_stamp,
            final(self)@ == (GatewayModel { last_stamp: r, ..old(self)@ }),
    {
        let now = match wall_clock_nanos() {
            Some(t) => t,
            None => self.last_stamp,
        };
        self.stamp_at(now)
    }

    /// Handles one request when the clock reads `now`: validate, decode,
    /// build. An accepted request yields the point to store; any other
    /// yields the rejection and leaves the state as it was.
    pub fn handle_at(&mut self, method: Method, payload: &[u8], now: i64) -> (r: Step)
        ensures
            final(self)@ == step_state(old(self)@, method, payload@, now),
            match r {
                Step::Store(pt) => step_point(old(self)@, method, payload@, now) == Some(pt@),
                Step::Reply(resp) => step_point(old(self)@, method, payload@, now) is None
                    && is_rejection(resp),
            },
    {
        if method == Method::Put && is_valid(payload) {
            let d = decode(payload);
            let ghost vals = d.values@;
            let t = self.stamp_at(now);
            let pt = build(d, t);
            assert(vals.map_values(|v: String| v@) =~= record_values(payload@));
            Step::Store(pt)
        } else {
            Step::Reply(rejection())
        }
    }

    /// Handles one request, stamping an accepted one from the wall clock.
    pub fn handle(&mut self, method: Method, payload: &[u8]) -> (r: Step)
        ensures
            final(self)@.bucket == old(self)@.bucket,
            match r {
                Step::Store(pt) => {
                    &&& accepts(method, payload@)
                    &&& pt@ == record_point(payload@, pt.time as int)
                    &&& pt.time >= old(self)@.last_stamp
                    &&& final(self)@.last_stamp == pt.time
                },
                Step::Reply(resp) => {
                    &&& !accepts(method, payload@)
                    &&& is_rejection(resp)
                    &&& final(self)@ == old(self)@
                },
            },
    {
        let now = match wall_clock_nanos() {
            Some(t) => t,
            None => self.last_stamp,
        };
        self.handle_at(method, payload, now)
    }
}

/// Timestamps never go back: each one handed out is at least the previous
/// one, whatever the clock reads.
pub proof fn lemma_stamps_non_decreasing(last: i64, now1: i64, now2: i64)
    ensures
        next_stamp(last, now1) >= last,
        next_stamp(next_stamp(last, now1), now2) >= next_stamp(last, now1),
{
}

/// A request as the handler sees it: method, payload and clock reading.
pub type RequestModel = (Method, Seq<u8>, i64);

/// The state after handling `reqs` in order from `g`.
pub open spec fn run_state(g: GatewayModel, reqs: Seq<RequestModel>) -> GatewayModel
    decreases reqs.len(),
{
    if reqs.len() == 0 {
        g
    } else {
        let r = reqs.last();
        step_state(run_state(g, reqs.drop_last()), r.0, r.1, r.2)
    }
}

/// The points yielded by handling `reqs` in order from `g`, one entry per
/// request.
pub open spec fn run_points(g: GatewayModel, reqs: Seq<RequestModel>) -> Seq<Option<PointModel>>
    decreases reqs.len(),
{
    if reqs.len() == 0 {
        Seq::empty()
    } else {
        let r = reqs.last();
        run_points(g, reqs.drop_last()).push(
            step_point(run_state(g, reqs.drop_last()), r.0, r.1, r.2),
        )
    }
}

/// Any number of requests, handled one after the other in whatever order the
/// shared guard lets them in, each yield exactly one point when accepted and
/// none otherwise. Each point's fields come from its own payload alone; the
/// shared state adds only the timestamp, and those never go back.
pub proof fn lemma_points_from_own_payload(g: GatewayModel, reqs: Seq<RequestModel>)
    ensures
        run_points(g, reqs).len() == reqs.len(),
        run_state(g, reqs).bucket == g.bucket,
        run_state(g, reqs).last_stamp >= g.last_stamp,
        forall|i: int|
            0 <= i < reqs.len() ==> (#[trigger] run_points(g, reqs)[i] is Some <==> accepts(
                reqs[i].0,
                reqs[i].1,
            )),
        forall|i: int|
            0 <= i < reqs.len() && run_points(g, reqs)[i] is Some ==> {
                let pt = #[trigger] run_points(g, reqs)[i]->0;
                &&& pt == record_point(reqs[i].1, pt.time)
                &&& g.last_stamp <= pt.time <= run_state(g, reqs).last_stamp
            },
        forall|i: int, j: int|
            0 <= i < j < reqs.len() && run_points(g, reqs)[i] is Some && run_points(g, reqs)[j] is Some
                ==> (#[trigger] run_points(g, reqs)[i])->0.time <= (#[trigger] run_points(
                g,
                reqs,
            )[j])->0.time,
    decreases reqs.len(),
{
    if reqs.len() > 0 {
        let init = reqs.drop_last();
        lemma_points_from_own_payload(g, init);
        let prev = run_points(g, init);
        let pts = run_points(g, reqs);
        assert forall|i: int| 0 <= i < init.len() implies pts[i] == prev[i] && reqs[i] == init[i] by {}
    }
}

/// A failed write touches no state, so a later valid request is accepted as
/// it would have been; the failure is answered with a server error, apart
/// from the rejection of malformed requests.
pub proof fn lemma_failure_isolated(g: GatewayModel, r: Response, method: Method, p: Seq<u8>, now: i64)
    requires
        is_completion(r, WriteOutcome::Failed),
        accepts(method, p),
    ensures
        step_point(g, method, p, now) == Some(record_point(p, next_stamp(g.last_stamp, now) as int)),
        r.status != Status::BadOption,
        r.status != Status::Valid,
{
}

} // verus!
