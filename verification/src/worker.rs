//! Worker registration entities and their persisted record format.

use vstd::prelude::*;

use crate::codec::{
    all_hex, hex_bytes, hex_fixed, hex_seq_value, is_hex_digit, lemma_hex_fixed,
    lemma_hex_fixed_basic, lemma_hex_seq_value_bound, lemma_pow16_32, lemma_unhex_hex_bytes,
    match_lit, parse_hex_bytes, parse_hex_run, pow16, push_hex_bytes, push_hex_fixed, ts_code,
    ts_code_exec, ts_of, ts_of_exec, unhex_bytes, Record, LBRACE, RBRACE,
};
use crate::job::{now_seconds, rec_close, rec_close_vec, Job};
use crate::queue::Queue;

verus! {

/// A worker that can process one job, reached at its callback address.
pub struct Worker {
    /// The URL to which a job should be sent, as normalized URL text.
    pub callback_url: Vec<u8>,
    /// Seconds since the epoch at which the worker was registered.
    pub registered_at: i64,
}

/// The mathematical value of a worker.
pub ghost struct WorkerView {
    pub callback_url: Seq<u8>,
    pub registered_at: i64,
}

impl View for Worker {
    type V = WorkerView;

    open spec fn view(&self) -> WorkerView {
        WorkerView { callback_url: self.callback_url@, registered_at: self.registered_at }
    }
}

impl Worker {
    /// Creates a new worker with the given callback URL and the current time.
    pub fn new(callback_url: Vec<u8>) -> (r: Worker)
        ensures
            r.callback_url@ == callback_url@,
    {
        Worker { callback_url, registered_at: now_seconds() }
    }
}

// ---------------------------------------------------------------------------
// The persisted record of a worker
// ---------------------------------------------------------------------------

/// The record bytes `{"registered_at":"` that precede the timestamp digits.
pub open spec fn worker_open() -> Seq<u8> {
    seq![
        123u8, 34u8, 114u8, 101u8, 103u8, 105u8, 115u8, 116u8, 101u8, 114u8, 101u8, 100u8, 95u8,
        97u8, 116u8, 34u8, 58u8, 34u8,
    ]
}

/// The record bytes `","callback_url":"` between timestamp and address.
pub open spec fn worker_mid() -> Seq<u8> {
    seq![
        34u8, 44u8, 34u8, 99u8, 97u8, 108u8, 108u8, 98u8, 97u8, 99u8, 107u8, 95u8, 117u8, 114u8,
        108u8, 34u8, 58u8, 34u8,
    ]
}

fn worker_open_vec() -> (v: Vec<u8>)
    ensures
        v@ == worker_open(),
{
    let mut v: Vec<u8> = Vec::new();
    v.push(123);
    v.push(34);
    v.push(114);
    v.push(101);
    v.push(103);
    v.push(105);
    v.push(115);
    v.push(116);
    v.push(101);
    v.push(114);
    v.push(101);
    v.push(100);
    v.push(95);
    v.push(97);
    v.push(116);
    v.push(34);
    v.push(58);
    v.push(34);
    proof {
        assert(v@ =~= worker_open());
    }
    v
}

fn worker_mid_vec() -> (v: Vec<u8>)
    ensures
        v@ == worker_mid(),
{
    let mut v: Vec<u8> = Vec::new();
    v.push(34);
    v.push(44);
    v.push(34);
    v.push(99);
    v.push(97);
    v.push(108);
    v.push(108);
    v.push(98);
    v.push(97);
    v.push(99);
    v.push(107);
    v.push(95);
    v.push(117);
    v.push(114);
    v.push(108);
    v.push(34);
    v.push(58);
    v.push(34);
    proof {
        assert(v@ =~= worker_mid());
    }
    v
}

/// Whether `s` is a well-formed worker record.
pub open spec fn worker_wf(s: Seq<u8>) -> bool {
    &&& s.len() >= 54
    &&& (s.len() - 54) % 2 == 0
    &&& s.subrange(0, 18) == worker_open()
    &&& all_hex(s.subrange(18, 34))
    &&& s.subrange(34, 52) == worker_mid()
    &&& all_hex(s.subrange(52, s.len() as int - 2))
    &&& s.subrange(s.len() as int - 2, s.len() as int) == rec_close()
}

impl Record for Worker {
    open spec fn encoded_v(v: WorkerView) -> Seq<u8> {
        worker_open() + hex_fixed(ts_code(v.registered_at), 16) + worker_mid() + hex_bytes(
            v.callback_url,
        ) + rec_close()
    }

    open spec fn decoded(s: Seq<u8>) -> Option<WorkerView> {
        if worker_wf(s) {
            Some(
                WorkerView {
                    callback_url: unhex_bytes(s.subrange(52, s.len() as int - 2)),
                    registered_at: ts_of(hex_seq_value(s.subrange(18, 34))),
                },
            )
        } else {
            None
        }
    }

    fn encode(&self) -> (r: Vec<u8>) {
        let mut out = worker_open_vec();
        let code = ts_code_exec(self.registered_at);
        push_hex_fixed(&mut out, code as u128, 16);
        let mut m = worker_mid_vec();
        out.append(&mut m);
        push_hex_bytes(&mut out, &self.callback_url);
        let mut cl = rec_close_vec();
        out.append(&mut cl);
        proof {
            assert(out@ =~= Self::encoded_v(self@));
        }
        out
    }

    fn decode(s: &Vec<u8>) -> (r: Option<Worker>) {
        let slen = s.len();
        if slen < 54 {
            return None;
        }
        if (slen - 54) % 2 != 0 {
            return None;
        }
        let open = worker_open_vec();
        if !match_lit(s, 0, &open) {
            return None;
        }
        let tsr = match parse_hex_run(s, 18, 16) {
            Some(v) => v,
            None => {
                return None;
            },
        };
        let m = worker_mid_vec();
        if !match_lit(s, 34, &m) {
            return None;
        }
        let url = match parse_hex_bytes(s, 52, slen - 2) {
            Some(v) => v,
            None => {
                return None;
            },
        };
        let cl = rec_close_vec();
        if !match_lit(s, slen - 2, &cl) {
            return None;
        }
        proof {
            assert(worker_wf(s@));
            lemma_hex_seq_value_bound(s@.subrange(18, 34));
            lemma_pow16_32();
        }
        let ts = ts_of_exec(tsr as u64);
        Some(Worker { callback_url: url, registered_at: ts })
    }

    proof fn lemma_shape(v: WorkerView) {
        let e = Self::encoded_v(v);
        lemma_hex_fixed_basic(ts_code(v.registered_at), 16);
        lemma_unhex_hex_bytes(v.callback_url);
        let h1 = hex_fixed(ts_code(v.registered_at), 16);
        let h2 = hex_bytes(v.callback_url);
        assert(e.len() == 54 + h2.len());
        assert(e[0] == LBRACE);
        assert(e.last() == RBRACE);
        assert forall|i: int| 0 < i < e.len() - 1 implies e[i] != LBRACE && e[i] != RBRACE by {
            if i < 18 {
                assert(e[i] == worker_open()[i]);
            } else if i < 34 {
                assert(e[i] == h1[i - 18]);
                assert(is_hex_digit(h1[i - 18]));
            } else if i < 52 {
                assert(e[i] == worker_mid()[i - 34]);
            } else if i < e.len() - 2 {
                assert(e[i] == h2[i - 52]);
                assert(is_hex_digit(h2[i - 52]));
            } else {
                assert(e[i] == rec_close()[0]);
            }
        }
    }

    proof fn lemma_round_trip(v: WorkerView) {
        let e = Self::encoded_v(v);
        lemma_pow16_32();
        assert(ts_code(v.registered_at) < pow16(16));
        lemma_hex_fixed(ts_code(v.registered_at), 16);
        lemma_unhex_hex_bytes(v.callback_url);
        let h2 = hex_bytes(v.callback_url);
        assert(e.len() == 54 + h2.len());
        assert(e.subrange(0, 18) =~= worker_open());
        assert(e.subrange(18, 34) =~= hex_fixed(ts_code(v.registered_at), 16));
        assert(e.subrange(34, 52) =~= worker_mid());
        assert(e.subrange(52, e.len() as int - 2) =~= h2);
        assert(e.subrange(e.len() as int - 2, e.len() as int) =~= rec_close());
        assert(worker_wf(e));
        assert(ts_of(hex_seq_value(e.subrange(18, 34))) == v.registered_at);
        assert(unhex_bytes(e.subrange(52, e.len() as int - 2)) == v.callback_url);
    }
}

// ---------------------------------------------------------------------------
// Callback-header validation
// ---------------------------------------------------------------------------

/// An error that can occur when registering a worker.
pub enum CallbackHeaderError {
    /// The callback header was missing from the request.
    Missing,
    /// The callback header held bytes that are not readable text.
    NotAString,
    /// The callback header was not a valid URL.
    NotAUrl,
}

/// Header bytes count as text when every byte is printable ASCII or a tab.
pub open spec fn ascii_text(s: Seq<u8>) -> bool {
    forall|i: int| 0 <= i < s.len() ==> (32 <= #[trigger] s[i] <= 126 || s[i] == 9)
}

/// Whether header bytes are readable text.
pub fn is_ascii_text(h: &Vec<u8>) -> (r: bool)
    ensures
        r == ascii_text(h@),
{
    let n = h.len();
    for i in 0..n
        invariant
            n == h@.len(),
            forall|k: int| 0 <= k < i ==> (32 <= #[trigger] h@[k] <= 126 || h@[k] == 9),
    {
        let b = h[i];
        if (b < 32 || b > 126) && b != 9 {
            return false;
        }
    }
    true
}

/// What url::Url::parse makes of a byte string: `None` when it is not a
/// well-formed absolute URL, otherwise its normalized serialization.
pub uninterp spec fn parsed_url(s: Seq<u8>) -> Option<Seq<u8>>;

/// Relies on url::Url::parse: whether a byte string is a well-formed absolute
/// URL, and what its normalized serialization is, depend on the bytes alone.
#[verifier::external_body]
pub fn parse_url(h: &Vec<u8>) -> (r: Option<Vec<u8>>)
    ensures
        match r {
            Some(u) => parsed_url(h@) == Some(u@),
            None => parsed_url(h@) is None,
        },
{
    std::str::from_utf8(h).ok().and_then(|t| url::Url::parse(t).ok()).map(
        |u| u.as_str().as_bytes().to_vec(),
    )
}

// ---------------------------------------------------------------------------
// Responses
// ---------------------------------------------------------------------------

/// The response to a worker registration request.
pub enum RegisterWorkerResponse {
    /// No job was available and the worker was queued for a later callback.
    Queued,
    /// A queued job was immediately available and is returned.
    Job(Job),
    /// The callback header was rejected.
    Error(CallbackHeaderError),
}

impl RegisterWorkerResponse {
    /// The HTTP status the broker answers with: 200 with a job, 202 when the
    /// worker was queued, 400 on a rejected callback header.
    pub fn status_code(&self) -> (r: u16)
        ensures
            *self is Queued ==> r == 202,
            *self is Job ==> r == 200,
            *self is Error ==> r == 400,
    {
        match self {
            RegisterWorkerResponse::Queued => 202,
            RegisterWorkerResponse::Job(..) => 200,
            RegisterWorkerResponse::Error(..) => 400,
        }
    }

    /// Whether the response must carry the header that tells the caller to
    /// expect an asynchronous callback: exactly when the worker was queued.
    pub fn expects_callback(&self) -> (r: bool)
        ensures
            r == (*self is Queued),
    {
        match self {
            RegisterWorkerResponse::Queued => true,
            _ => false,
        }
    }
}


// ---------------------------------------------------------------------------
// Worker registration
// ---------------------------------------------------------------------------

/// Validates the callback header of a registration request: the bytes must
/// be present, readable text, and a well-formed URL, in that order; the
/// winner is the URL's normalized text.
pub fn extract_callback_header(header: Option<Vec<u8>>) -> (r: Result<
    Vec<u8>,
    CallbackHeaderError,
>)
    ensures
        match header {
            None => r == Err::<Vec<u8>, CallbackHeaderError>(CallbackHeaderError::Missing),
            Some(h) => {
                if !ascii_text(h@) {
                    r == Err::<Vec<u8>, CallbackHeaderError>(CallbackHeaderError::NotAString)
                } else {
                    match parsed_url(h@) {
                        None => r == Err::<Vec<u8>, CallbackHeaderError>(
                            CallbackHeaderError::NotAUrl,
                        ),
                        Some(u) => r matches Ok(v) && v@ == u,
                    }
                }
            },
        },
{
    let h = match header {
        Some(h) => h,
        None => {
            return Err(CallbackHeaderError::Missing);
        },
    };
    if !is_ascii_text(&h) {
        return Err(CallbackHeaderError::NotAString);
    }
    match parse_url(&h) {
        Some(u) => Ok(u),
        None => Err(CallbackHeaderError::NotAUrl),
    }
}

/// Registers a worker that is ready to receive one job.
///
/// The caller passes the raw bytes of the callback header, or `None` when the
/// request carried none.  A missing header, one that is not readable text, or
/// one that is not a well-formed URL is rejected without touching either
/// queue.  Otherwise the oldest waiting job, if any, is handed back directly;
/// with no job waiting, the worker is queued for a later asynchronous
/// callback at its (normalized) callback URL.
pub fn register_worker(
    header: Option<Vec<u8>>,
    job_queue: &mut Queue<Job>,
    worker_queue: &mut Queue<Worker>,
) -> (r: RegisterWorkerResponse)
    ensures
        match header {
            None => r == RegisterWorkerResponse::Error(CallbackHeaderError::Missing)
                && final(job_queue)@ == old(job_queue)@
                && final(worker_queue)@ == old(worker_queue)@,
            Some(h) => {
                if !ascii_text(h@) {
                    &&& r == RegisterWorkerResponse::Error(CallbackHeaderError::NotAString)
                    &&& final(job_queue)@ == old(job_queue)@
                    &&& final(worker_queue)@ == old(worker_queue)@
                } else if parsed_url(h@) is None {
                    &&& r == RegisterWorkerResponse::Error(CallbackHeaderError::NotAUrl)
                    &&& final(job_queue)@ == old(job_queue)@
                    &&& final(worker_queue)@ == old(worker_queue)@
                } else if old(job_queue)@.len() > 0 {
                    &&& r matches RegisterWorkerResponse::Job(j) && j@ == old(job_queue)@[0]
                    &&& final(job_queue)@ == old(job_queue)@.drop_first()
                    &&& final(worker_queue)@ == old(worker_queue)@
                } else {
                    &&& r is Queued
                    &&& final(job_queue)@ == old(job_queue)@
                    &&& final(worker_queue)@.len() == old(worker_queue)@.len() + 1
                    &&& final(worker_queue)@.subrange(0, old(worker_queue)@.len() as int)
                        == old(worker_queue)@
                    &&& final(worker_queue)@.last().callback_url == parsed_url(h@).unwrap()
                }
            },
        },
{
    let url = match extract_callback_header(header) {
        Ok(url) => url,
        Err(err) => {
            return RegisterWorkerResponse::Error(err);
        },
    };
    if let Some(job) = job_queue.dequeue() {
        RegisterWorkerResponse::Job(job)
    } else {
        let w = Worker::new(url);
        worker_queue.enqueue(w);
        proof {
            assert(worker_queue@.subrange(0, old(worker_queue)@.len() as int)
                =~= old(worker_queue)@);
        }
        RegisterWorkerResponse::Queued
    }
}

} // verus!
