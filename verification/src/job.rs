//! Job submission entities and their persisted record format.

use vstd::prelude::*;

use crate::queue::Queue;
use crate::worker::{Worker, WorkerView};
use crate::codec::{
    all_hex, hex_bytes, hex_fixed, hex_seq_value, is_hex_digit, lemma_hex_fixed,
    lemma_hex_fixed_basic, lemma_hex_seq_value_bound, lemma_pow16_32, lemma_unhex_hex_bytes,
    match_lit, parse_hex_bytes, parse_hex_run, pow16, push_hex_bytes, push_hex_fixed, ts_code,
    ts_code_exec, ts_of, ts_of_exec, unhex_bytes, Record, LBRACE, RBRACE,
};

verus! {

/// A job to be processed by a worker.
pub struct Job {
    /// The unique identifier of the job, assigned at creation.
    pub id: u128,
    /// The data to be processed: an opaque payload the broker never inspects.
    pub data: Vec<u8>,
    /// Seconds since the epoch at which the job was submitted.
    pub submitted_at: i64,
}

/// The mathematical value of a job.
pub ghost struct JobView {
    pub id: u128,
    pub data: Seq<u8>,
    pub submitted_at: i64,
}

impl View for Job {
    type V = JobView;

    open spec fn view(&self) -> JobView {
        JobView { id: self.id, data: self.data@, submitted_at: self.submitted_at }
    }
}

impl Job {
    /// Creates a new job with the given data, a fresh identifier and the
    /// current time.
    pub fn new(data: Vec<u8>) -> (r: Job)
        ensures
            r.data@ == data@,
    {
        Job { id: fresh_id(), data, submitted_at: now_seconds() }
    }
}

/// Relies on uuid::Uuid::new_v4, a random identifier: nothing is promised of
/// the value.
#[verifier::external_body]
fn fresh_id() -> u128 {
    uuid::Uuid::new_v4().as_u128()
}

/// Relies on chrono::Utc::now for the wall clock: nothing is promised of the
/// value.
#[verifier::external_body]
pub fn now_seconds() -> i64 {
    chrono::Utc::now().timestamp()
}

// ---------------------------------------------------------------------------
// The persisted record of a job
// ---------------------------------------------------------------------------

/// The record bytes `{"id":"` that precede the identifier digits.
pub open spec fn job_open() -> Seq<u8> {
    seq![123u8, 34u8, 105u8, 100u8, 34u8, 58u8, 34u8]
}

/// The record bytes `","submitted_at":"` between identifier and timestamp.
pub open spec fn job_mid1() -> Seq<u8> {
    seq![
        34u8, 44u8, 34u8, 115u8, 117u8, 98u8, 109u8, 105u8, 116u8, 116u8, 101u8, 100u8, 95u8,
        97u8, 116u8, 34u8, 58u8, 34u8,
    ]
}

/// The record bytes `","data":"` between timestamp and payload.
pub open spec fn job_mid2() -> Seq<u8> {
    seq![34u8, 44u8, 34u8, 100u8, 97u8, 116u8, 97u8, 34u8, 58u8, 34u8]
}

/// The record bytes `"}` that close a record.
pub open spec fn rec_close() -> Seq<u8> {
    seq![34u8, 125u8]
}

fn job_open_vec() -> (v: Vec<u8>)
    ensures
        v@ == job_open(),
{
    let mut v: Vec<u8> = Vec::new();
    v.push(123);
    v.push(34);
    v.push(105);
    v.push(100);
    v.push(34);
    v.push(58);
    v.push(34);
    proof {
        assert(v@ =~= job_open());
    }
    v
}

fn job_mid1_vec() -> (v: Vec<u8>)
    ensures
        v@ == job_mid1(),
{
    let mut v: Vec<u8> = Vec::new();
    v.push(34);
    v.push(44);
    v.push(34);
    v.push(115);
    v.push(117);
    v.push(98);
    v.push(109);
    v.push(105);
    v.push(116);
    v.push(116);
    v.push(101);
    v.push(100);
    v.push(95);
    v.push(97);
    v.push(116);
    v.push(34);
    v.push(58);
    v.push(34);
    proof {
        assert(v@ =~= job_mid1());
    }
    v
}

fn job_mid2_vec() -> (v: Vec<u8>)
    ensures
        v@ == job_mid2(),
{
    let mut v: Vec<u8> = Vec::new();
    v.push(34);
    v.push(44);
    v.push(34);
    v.push(100);
    v.push(97);
    v.push(116);
    v.push(97);
    v.push(34);
    v.push(58);
    v.push(34);
    proof {
        assert(v@ =~= job_mid2());
    }
    v
}

pub fn rec_close_vec() -> (v: Vec<u8>)
    ensures
        v@ == rec_close(),
{
    let mut v: Vec<u8> = Vec::new();
    v.push(34);
    v.push(125);
    proof {
        assert(v@ =~= rec_close());
    }
    v
}

/// Whether `s` is a well-formed job record.
pub open spec fn job_wf(s: Seq<u8>) -> bool {
    &&& s.len() >= 85
    &&& (s.len() - 85) % 2 == 0
    &&& s.subrange(0, 7) == job_open()
    &&& all_hex(s.subrange(7, 39))
    &&& s.subrange(39, 57) == job_mid1()
    &&& all_hex(s.subrange(57, 73))
    &&& s.subrange(73, 83) == job_mid2()
    &&& all_hex(s.subrange(83, s.len() as int - 2))
    &&& s.subrange(s.len() as int - 2, s.len() as int) == rec_close()
}

impl Record for Job {
    open spec fn encoded_v(v: JobView) -> Seq<u8> {
        job_open() + hex_fixed(v.id as nat, 32) + job_mid1() + hex_fixed(
            ts_code(v.submitted_at),
            16,
        ) + job_mid2() + hex_bytes(v.data) + rec_close()
    }

    open spec fn decoded(s: Seq<u8>) -> Option<JobView> {
        if job_wf(s) {
            Some(
                JobView {
                    id: hex_seq_value(s.subrange(7, 39)) as u128,
                    data: unhex_bytes(s.subrange(83, s.len() as int - 2)),
                    submitted_at: ts_of(hex_seq_value(s.subrange(57, 73))),
                },
            )
        } else {
            None
        }
    }

    fn encode(&self) -> (r: Vec<u8>) {
        let mut out = job_open_vec();
        push_hex_fixed(&mut out, self.id, 32);
        let mut m1 = job_mid1_vec();
        out.append(&mut m1);
        let code = ts_code_exec(self.submitted_at);
        push_hex_fixed(&mut out, code as u128, 16);
        let mut m2 = job_mid2_vec();
        out.append(&mut m2);
        push_hex_bytes(&mut out, &self.data);
        let mut cl = rec_close_vec();
        out.append(&mut cl);
        proof {
            assert(out@ =~= Self::encoded_v(self@));
        }
        out
    }

    fn decode(s: &Vec<u8>) -> (r: Option<Job>) {
        let slen = s.len();
        if slen < 85 {
            return None;
        }
        if (slen - 85) % 2 != 0 {
            return None;
        }
        let open = job_open_vec();
        if !match_lit(s, 0, &open) {
            return None;
        }
        let id = match parse_hex_run(s, 7, 32) {
            Some(v) => v,
            None => {
                return None;
            },
        };
        let m1 = job_mid1_vec();
        if !match_lit(s, 39, &m1) {
            return None;
        }
        let tsr = match parse_hex_run(s, 57, 16) {
            Some(v) => v,
            None => {
                return None;
            },
        };
        let m2 = job_mid2_vec();
        if !match_lit(s, 73, &m2) {
            return None;
        }
        let data = match parse_hex_bytes(s, 83, slen - 2) {
            Some(v) => v,
            None => {
                return None;
            },
        };
        let cl = rec_close_vec();
        if !match_lit(s, slen - 2, &cl) {
            return None;
        }
        proof {
            assert(job_wf(s@));
            lemma_hex_seq_value_bound(s@.subrange(57, 73));
            lemma_hex_seq_value_bound(s@.subrange(7, 39));
            lemma_pow16_32();
        }
        let ts = ts_of_exec(tsr as u64);
        Some(Job { id, data, submitted_at: ts })
    }

    proof fn lemma_shape(v: JobView) {
        let e = Self::encoded_v(v);
        lemma_hex_fixed_basic(v.id as nat, 32);
        lemma_hex_fixed_basic(ts_code(v.submitted_at), 16);
        lemma_unhex_hex_bytes(v.data);
        let h1 = hex_fixed(v.id as nat, 32);
        let h2 = hex_fixed(ts_code(v.submitted_at), 16);
        let h3 = hex_bytes(v.data);
        assert(e.len() == 85 + h3.len());
        assert(e[0] == LBRACE);
        assert(e.last() == RBRACE);
        assert forall|i: int| 0 < i < e.len() - 1 implies e[i] != LBRACE && e[i] != RBRACE by {
            if i < 7 {
                assert(e[i] == job_open()[i]);
            } else if i < 39 {
                assert(e[i] == h1[i - 7]);
                assert(is_hex_digit(h1[i - 7]));
            } else if i < 57 {
                assert(e[i] == job_mid1()[i - 39]);
            } else if i < 73 {
                assert(e[i] == h2[i - 57]);
                assert(is_hex_digit(h2[i - 57]));
            } else if i < 83 {
                assert(e[i] == job_mid2()[i - 73]);
            } else if i < e.len() - 2 {
                assert(e[i] == h3[i - 83]);
                assert(is_hex_digit(h3[i - 83]));
            } else {
                assert(e[i] == rec_close()[0]);
            }
        }
    }

    proof fn lemma_round_trip(v: JobView) {
        let e = Self::encoded_v(v);
        lemma_pow16_32();
        assert((v.id as nat) < pow16(32));
        lemma_hex_fixed(v.id as nat, 32);
        assert(ts_code(v.submitted_at) < pow16(16));
        lemma_hex_fixed(ts_code(v.submitted_at), 16);
        lemma_unhex_hex_bytes(v.data);
        let h3 = hex_bytes(v.data);
        assert(e.len() == 85 + h3.len());
        assert(e.subrange(0, 7) =~= job_open());
        assert(e.subrange(7, 39) =~= hex_fixed(v.id as nat, 32));
        assert(e.subrange(39, 57) =~= job_mid1());
        assert(e.subrange(57, 73) =~= hex_fixed(ts_code(v.submitted_at), 16));
        assert(e.subrange(73, 83) =~= job_mid2());
        assert(e.subrange(83, e.len() as int - 2) =~= h3);
        assert(e.subrange(e.len() as int - 2, e.len() as int) =~= rec_close());
        assert(job_wf(e));
        assert(hex_seq_value(e.subrange(7, 39)) == v.id as nat);
        assert(ts_of(hex_seq_value(e.subrange(57, 73))) == v.submitted_at);
        assert(unhex_bytes(e.subrange(83, e.len() as int - 2)) == v.data);
    }
}

// ---------------------------------------------------------------------------
// Responses
// ---------------------------------------------------------------------------

/// The response to a job submission: `Assigned` when a worker took the job,
/// `Queued` with the job's one-based position otherwise.
pub enum SubmitJobResponse {
    /// A worker was assigned the job, and it is being processed.
    Assigned,
    /// No worker was available; the job was queued at this position.
    Queued { position: usize },
}

impl SubmitJobResponse {
    /// The HTTP status the broker answers with: 200 when assigned, 202 when
    /// queued.
    pub fn status_code(&self) -> (r: u16)
        ensures
            *self is Assigned ==> r == 200,
            *self is Queued ==> r == 202,
    {
        match self {
            SubmitJobResponse::Assigned => 200,
            SubmitJobResponse::Queued { .. } => 202,
        }
    }
}

/// The body pushed to a worker's callback address: the job wrapped under a
/// tag, mirroring the synchronous register-worker response shape.
pub enum AsynchronousWorkerResponse {
    Job(Job),
}


// ---------------------------------------------------------------------------
// Job submission: the matching loop
// ---------------------------------------------------------------------------

/// What one delivery attempt to a worker's callback address came to.
#[derive(Clone, Copy)]
pub enum DeliveryOutcome {
    /// The worker answered the push with a success status: it owns the job.
    Delivered,
    /// The push failed — a network error, a timeout, or a non-success
    /// status: the worker is discarded.
    Failed,
}

/// The outcome a delivery attempt's HTTP answer amounts to: only a success
/// status means the worker took the job; any other status discards it, as
/// does a network failure (for which there is no status at all).
pub fn outcome_of_status(status: u16) -> (r: DeliveryOutcome)
    ensures
        r is Delivered <==> (200 <= status && status < 300),
{
    if crate::status_is_success(status) {
        DeliveryOutcome::Delivered
    } else {
        DeliveryOutcome::Failed
    }
}

/// The decision for one iteration of the matching loop, from the delivery
/// outcome of the worker pulled in this iteration, or `None` when the worker
/// queue had no worker left to pull.
pub enum SubmitStep {
    /// The pulled worker accepted the job: it is assigned, the loop is done.
    Assigned,
    /// The pulled worker's delivery failed: it is discarded for good, and the
    /// next worker is pulled.
    TryNext,
    /// No worker is left: the job joins the job queue, the loop is done.
    QueueJob,
}

/// One decision of the matching loop.  The loop — here in `submit_job`, and
/// in the shell that interleaves the actual network pushes — pulls a worker,
/// attempts delivery, and acts on this step.
pub fn submit_step(pulled: Option<DeliveryOutcome>) -> (r: SubmitStep)
    ensures
        r is Assigned <==> pulled == Some(DeliveryOutcome::Delivered),
        r is TryNext <==> pulled == Some(DeliveryOutcome::Failed),
        r is QueueJob <==> pulled is None,
{
    match pulled {
        None => SubmitStep::QueueJob,
        Some(DeliveryOutcome::Delivered) => SubmitStep::Assigned,
        Some(DeliveryOutcome::Failed) => SubmitStep::TryNext,
    }
}

/// The index of the first of `n` waiting workers whose delivery attempt
/// succeeds, given the attempts' outcomes; `None` when every attempt fails.
pub open spec fn first_accepted(n: nat, outs: Seq<DeliveryOutcome>) -> Option<int>
    decreases n,
{
    if n == 0 {
        None
    } else if outs[0] is Delivered {
        Some(0int)
    } else {
        match first_accepted((n - 1) as nat, outs.drop_first()) {
            Some(k) => Some(k + 1),
            None => None,
        }
    }
}

/// How many delivery attempts the matching loop makes over `n` waiting
/// workers: it stops at the first success, and otherwise tries them all.
pub open spec fn attempts(n: nat, outs: Seq<DeliveryOutcome>) -> nat {
    match first_accepted(n, outs) {
        Some(k) => (k + 1) as nat,
        None => n,
    }
}

/// What a job submission comes to: the response, the workers still waiting,
/// and the jobs then queued.  Workers are pulled oldest first; each failed
/// delivery discards the pulled worker for good; the first success assigns
/// the job; if no worker accepts, the job joins the tail of the job queue
/// and its one-based position is reported.
pub open spec fn submit_model(
    workers: Seq<WorkerView>,
    outs: Seq<DeliveryOutcome>,
    jobs: Seq<JobView>,
    job: JobView,
) -> (SubmitJobResponse, Seq<WorkerView>, Seq<JobView>) {
    match first_accepted(workers.len(), outs) {
        Some(k) => (SubmitJobResponse::Assigned, workers.skip(k + 1), jobs),
        None => (
            SubmitJobResponse::Queued { position: (jobs.len() + 1) as usize },
            Seq::empty(),
            jobs.push(job),
        ),
    }
}

proof fn lemma_first_accepted_at(n: nat, outs: Seq<DeliveryOutcome>, i: int)
    requires
        0 <= i <= n,
        n <= outs.len(),
        forall|k: int| 0 <= k < i ==> !(#[trigger] outs[k] is Delivered),
    ensures
        i < n && outs[i] is Delivered ==> first_accepted(n, outs) == Some(i),
        i == n ==> first_accepted(n, outs) is None,
    decreases i,
{
    if i > 0 {
        assert(!(outs[0] is Delivered));
        assert forall|k: int| 0 <= k < i - 1 implies !(#[trigger] outs.drop_first()[k]
            is Delivered) by {
            assert(outs.drop_first()[k] == outs[k + 1]);
        }
        lemma_first_accepted_at((n - 1) as nat, outs.drop_first(), i - 1);
        if i < n && outs[i] is Delivered {
            assert(outs.drop_first()[i - 1] == outs[i]);
        }
    }
}

/// Runs the matching loop of one job submission, with the outcome of each
/// delivery attempt supplied as data: the caller performs the actual pushes,
/// one per pulled worker, in order.  Workers are pulled oldest first and a
/// failed delivery discards the pulled worker permanently; on the first
/// success the job is assigned.  If no worker accepts, the job is queued and
/// its one-based position — the job queue's length right after this
/// enqueue — is reported.  The submitter never sees a delivery failure.
pub fn submit_job(
    job: Job,
    worker_queue: &mut Queue<Worker>,
    job_queue: &mut Queue<Job>,
    outcomes: &Vec<DeliveryOutcome>,
) -> (r: SubmitJobResponse)
    requires
        outcomes@.len() >= old(worker_queue)@.len(),
        old(job_queue)@.len() < usize::MAX,
    ensures
        r == submit_model(old(worker_queue)@, outcomes@, old(job_queue)@, job@).0,
        final(worker_queue)@ == submit_model(old(worker_queue)@, outcomes@, old(job_queue)@, job@).1,
        final(job_queue)@ == submit_model(old(worker_queue)@, outcomes@, old(job_queue)@, job@).2,
{
    let ghost ws0 = old(worker_queue)@;
    let olen = outcomes.len();
    let mut i: usize = 0;
    loop
        invariant
            i <= ws0.len(),
            ws0 == old(worker_queue)@,
            worker_queue@ == ws0.skip(i as int),
            job_queue@ == old(job_queue)@,
            old(job_queue)@.len() < usize::MAX,
            olen == outcomes@.len(),
            outcomes@.len() >= ws0.len(),
            forall|k: int| 0 <= k < i ==> !(#[trigger] outcomes@[k] is Delivered),
        decreases ws0.len() - i,
    {
        let pulled = worker_queue.dequeue();
        let outcome = match &pulled {
            None => None,
            Some(_) => {
                proof {
                    assert(i < ws0.len());
                }
                Some(outcomes[i])
            },
        };
        match submit_step(outcome) {
            SubmitStep::Assigned => {
                proof {
                    assert(pulled is Some);
                    assert(outcomes@[i as int] is Delivered);
                    lemma_first_accepted_at(ws0.len(), outcomes@, i as int);
                    assert(first_accepted(ws0.len(), outcomes@) == Some(i as int));
                    assert(worker_queue@ =~= ws0.skip(i as int + 1));
                }
                return SubmitJobResponse::Assigned;
            },
            SubmitStep::TryNext => {
                proof {
                    assert(pulled is Some);
                    assert(worker_queue@ =~= ws0.skip(i as int + 1));
                }
                i = i + 1;
            },
            SubmitStep::QueueJob => {
                proof {
                    assert(pulled is None);
                    assert(ws0.skip(i as int).len() == 0);
                    assert(i == ws0.len());
                    lemma_first_accepted_at(ws0.len(), outcomes@, i as int);
                    assert(first_accepted(ws0.len(), outcomes@) is None);
                    assert(worker_queue@ =~= Seq::<WorkerView>::empty());
                }
                let n = job_queue.enqueue(job);
                return SubmitJobResponse::Queued { position: n };
            },
        }
    }
}

// ---------------------------------------------------------------------------
// Laws of the matching loop
// ---------------------------------------------------------------------------

/// At-most-one-assignment: with exactly one waiting worker whose delivery
/// succeeds, a submission makes exactly one delivery attempt, the job is
/// assigned, the worker leaves the queue, and the job queue is untouched.
pub proof fn lemma_at_most_one_assignment(
    w: WorkerView,
    outs: Seq<DeliveryOutcome>,
    jobs: Seq<JobView>,
    job: JobView,
)
    requires
        outs.len() >= 1,
        outs[0] is Delivered,
    ensures
        submit_model(seq![w], outs, jobs, job).0 == SubmitJobResponse::Assigned,
        submit_model(seq![w], outs, jobs, job).1 == Seq::<WorkerView>::empty(),
        submit_model(seq![w], outs, jobs, job).2 == jobs,
        attempts(1, outs) == 1,
{
    assert(first_accepted(1, outs) == Some(0int));
    assert(seq![w].skip(1) =~= Seq::<WorkerView>::empty());
}

/// Discard-on-failure: when the only waiting worker's delivery fails, the
/// submission is queued at position 1, and the failed worker is gone for
/// good — it is never re-queued, so a later registration cannot meet it.
pub proof fn lemma_discard_on_failure(w: WorkerView, outs: Seq<DeliveryOutcome>, job: JobView)
    requires
        outs.len() >= 1,
        !(outs[0] is Delivered),
    ensures
        submit_model(seq![w], outs, Seq::empty(), job).0 == (SubmitJobResponse::Queued {
            position: 1,
        }),
        submit_model(seq![w], outs, Seq::empty(), job).1 == Seq::<WorkerView>::empty(),
        submit_model(seq![w], outs, Seq::empty(), job).2 == seq![job],
        attempts(1, outs) == 1,
{
    assert(first_accepted(0, outs.drop_first()) is None);
    assert(first_accepted(1, outs) is None);
    assert(Seq::<JobView>::empty().push(job) =~= seq![job]);
}

proof fn lemma_first_accepted_range(n: nat, outs: Seq<DeliveryOutcome>)
    ensures
        match first_accepted(n, outs) {
            Some(k) => 0 <= k < n,
            None => true,
        },
    decreases n,
{
    if n > 0 && !(outs[0] is Delivered) {
        lemma_first_accepted_range((n - 1) as nat, outs.drop_first());
    }
}

/// Discarded means gone for good: the workers a submission leaves waiting are
/// exactly those that stood strictly behind its last delivery attempt, so a
/// worker whose delivery failed is in neither queue afterwards.  Since
/// `submit_job` never appends a worker and `register_worker` only appends one
/// built from its own request, no later call can dequeue it again.
pub proof fn lemma_discarded_worker_stays_gone(
    workers: Seq<WorkerView>,
    outs: Seq<DeliveryOutcome>,
    jobs: Seq<JobView>,
    job: JobView,
)
    ensures
        attempts(workers.len(), outs) <= workers.len(),
        submit_model(workers, outs, jobs, job).1 == workers.skip(
            attempts(workers.len(), outs) as int,
        ),
{
    lemma_first_accepted_range(workers.len(), outs);
    match first_accepted(workers.len(), outs) {
        Some(k) => {
        },
        None => {
            assert(workers.skip(workers.len() as int) =~= Seq::<WorkerView>::empty());
        },
    }
}

/// Position accuracy: with no worker waiting, consecutive submissions are
/// queued at consecutive one-based positions — from an empty job queue,
/// three submissions report positions 1, 2 and 3, in submission order.
pub proof fn lemma_position_accuracy(
    outs: Seq<DeliveryOutcome>,
    j1: JobView,
    j2: JobView,
    j3: JobView,
)
    ensures
        ({
            let none = Seq::<WorkerView>::empty();
            let m1 = submit_model(none, outs, Seq::empty(), j1);
            let m2 = submit_model(none, outs, m1.2, j2);
            let m3 = submit_model(none, outs, m2.2, j3);
            &&& m1.0 == (SubmitJobResponse::Queued { position: 1 })
            &&& m2.0 == (SubmitJobResponse::Queued { position: 2 })
            &&& m3.0 == (SubmitJobResponse::Queued { position: 3 })
            &&& m3.2 == seq![j1, j2, j3]
        }),
{
    let none = Seq::<WorkerView>::empty();
    let m1 = submit_model(none, outs, Seq::empty(), j1);
    let m2 = submit_model(none, outs, m1.2, j2);
    let m3 = submit_model(none, outs, m2.2, j3);
    assert(first_accepted(0, outs) is None);
    assert(m3.2 =~= seq![j1, j2, j3]);
}

} // verus!
