use job_broker::codec::{load_records, save_records};
use job_broker::job::{
    submit_job, submit_step, AsynchronousWorkerResponse, DeliveryOutcome, Job, SubmitJobResponse,
    SubmitStep,
};
use job_broker::queue::{CachedJsonFileQueue, InMemoryQueue, JsonFileQueue, Queue};
use job_broker::status_is_success;
use job_broker::worker::{
    register_worker, CallbackHeaderError, RegisterWorkerResponse, Worker,
};

fn job(tag: u8) -> Job {
    Job::new(vec![tag, tag + 1])
}

fn worker(url: &str) -> Worker {
    Worker::new(url.as_bytes().to_vec())
}

fn empty_job_queue() -> Queue<Job> {
    Queue::InMemory(InMemoryQueue::new())
}

fn empty_worker_queue() -> Queue<Worker> {
    Queue::InMemory(InMemoryQueue::new())
}

#[test]
fn fifo_in_memory() {
    let mut q: InMemoryQueue<Job> = InMemoryQueue::new();
    let a = job(1);
    let b = job(3);
    assert_eq!(q.enqueue(a), 1);
    assert_eq!(q.enqueue(b), 2);
    let first = q.dequeue().expect("first element");
    let second = q.dequeue().expect("second element");
    assert_eq!(first.data, vec![1, 2]);
    assert_eq!(second.data, vec![3, 4]);
    assert!(q.dequeue().is_none());
}

#[test]
fn fifo_json_file() {
    let mut q: Queue<Job> =
        Queue::JsonFile(JsonFileQueue::new("jobs.json".to_string(), Vec::new()));
    assert_eq!(q.enqueue(job(1)), 1);
    assert_eq!(q.enqueue(job(3)), 2);
    let first = q.dequeue().expect("first element");
    let second = q.dequeue().expect("second element");
    assert_eq!(first.data, vec![1, 2]);
    assert_eq!(second.data, vec![3, 4]);
    assert!(q.dequeue().is_none());
}

#[test]
fn fifo_cached_json_file() {
    let mut q: Queue<Worker> =
        Queue::CachedJsonFile(CachedJsonFileQueue::new("workers.json".to_string(), Vec::new()));
    assert_eq!(q.enqueue(worker("http://one.example/")), 1);
    assert_eq!(q.enqueue(worker("http://two.example/")), 2);
    let first = q.dequeue().expect("first element");
    let second = q.dequeue().expect("second element");
    assert_eq!(first.callback_url, b"http://one.example/".to_vec());
    assert_eq!(second.callback_url, b"http://two.example/".to_vec());
    assert!(q.dequeue().is_none());
}

#[test]
fn file_round_trip_uncached() {
    let mut q: JsonFileQueue<Job> = JsonFileQueue::new("jobs.json".to_string(), Vec::new());
    let x = job(7);
    let id = x.id;
    let at = x.submitted_at;
    q.enqueue(x);
    let image = q.file_image().clone();
    let mut rebuilt: JsonFileQueue<Job> = JsonFileQueue::new("jobs.json".to_string(), image);
    let y = rebuilt.dequeue().expect("the persisted job");
    assert_eq!(y.id, id);
    assert_eq!(y.data, vec![7, 8]);
    assert_eq!(y.submitted_at, at);
    assert!(rebuilt.dequeue().is_none());
}

#[test]
fn file_round_trip_cached() {
    let mut q: CachedJsonFileQueue<Worker> =
        CachedJsonFileQueue::new("workers.json".to_string(), Vec::new());
    let w = worker("http://callback.example/job");
    let at = w.registered_at;
    q.enqueue(w);
    let image = q.file_image();
    let mut rebuilt: CachedJsonFileQueue<Worker> =
        CachedJsonFileQueue::new("workers.json".to_string(), image);
    let y = rebuilt.dequeue().expect("the persisted worker");
    assert_eq!(y.callback_url, b"http://callback.example/job".to_vec());
    assert_eq!(y.registered_at, at);
    assert!(rebuilt.dequeue().is_none());
}

#[test]
fn save_then_load_returns_all_records() {
    let jobs = vec![job(1), job(3), job(5)];
    let ids: Vec<u128> = jobs.iter().map(|j| j.id).collect();
    let bytes = save_records(&jobs);
    assert_eq!(bytes[0], b'[');
    assert_eq!(*bytes.last().unwrap(), b']');
    let loaded: Vec<Job> = load_records(&bytes);
    assert_eq!(loaded.len(), 3);
    for (j, id) in loaded.iter().zip(ids.iter()) {
        assert_eq!(j.id, *id);
    }
    assert_eq!(loaded[0].data, vec![1, 2]);
    assert_eq!(loaded[2].data, vec![5, 6]);
}

#[test]
fn skip_malformed_record() {
    let bytes = save_records(&vec![job(9)]);
    // splice a malformed record in front of the closing bracket
    let mut tampered = bytes[..bytes.len() - 1].to_vec();
    tampered.extend_from_slice(b",{\"id\":17}");
    tampered.push(b']');
    let loaded: Vec<Job> = load_records(&tampered);
    assert_eq!(loaded.len(), 1);
    assert_eq!(loaded[0].data, vec![9, 10]);
}

#[test]
fn empty_or_garbled_file_loads_empty() {
    let empty: Vec<Job> = load_records(&Vec::new());
    assert!(empty.is_empty());
    let garbled: Vec<Job> = load_records(&b"not json at all".to_vec());
    assert!(garbled.is_empty());
}

#[test]
fn position_accuracy_three_jobs() {
    let mut jobs = empty_job_queue();
    let mut workers = empty_worker_queue();
    let outcomes: Vec<DeliveryOutcome> = Vec::new();
    for expected in 1..=3usize {
        let r = submit_job(job(expected as u8), &mut workers, &mut jobs, &outcomes);
        match r {
            SubmitJobResponse::Queued { position } => assert_eq!(position, expected),
            SubmitJobResponse::Assigned => panic!("no worker was available"),
        }
    }
}

#[test]
fn submit_with_no_workers_is_accepted() {
    let mut jobs = empty_job_queue();
    let mut workers = empty_worker_queue();
    let r = submit_job(job(1), &mut workers, &mut jobs, &Vec::new());
    assert_eq!(r.status_code(), 202);
    assert!(matches!(r, SubmitJobResponse::Queued { position: 1 }));
}

#[test]
fn at_most_one_assignment() {
    let mut jobs = empty_job_queue();
    let mut workers = empty_worker_queue();
    workers.enqueue(worker("http://only.example/"));
    let outcomes = vec![DeliveryOutcome::Delivered];
    let r = submit_job(job(1), &mut workers, &mut jobs, &outcomes);
    assert_eq!(r.status_code(), 200);
    assert!(matches!(r, SubmitJobResponse::Assigned));
    // the worker was consumed by its one delivery and the job was not queued
    assert!(workers.dequeue().is_none());
    assert!(jobs.dequeue().is_none());
}

#[test]
fn discard_on_failure() {
    let mut jobs = empty_job_queue();
    let mut workers = empty_worker_queue();
    workers.enqueue(worker("http://unreachable.example/"));
    let outcomes = vec![DeliveryOutcome::Failed];
    let r = submit_job(job(1), &mut workers, &mut jobs, &outcomes);
    assert_eq!(r.status_code(), 202);
    assert!(matches!(r, SubmitJobResponse::Queued { position: 1 }));
    // the failed worker is gone for good: a fresh registration is not handed
    // a stale reference, it gets the queued job instead
    let fresh = register_worker(
        Some(b"http://fresh.example/".to_vec()),
        &mut jobs,
        &mut workers,
    );
    match fresh {
        RegisterWorkerResponse::Job(j) => assert_eq!(j.data, vec![1, 2]),
        _ => panic!("the queued job should be handed over"),
    }
    assert!(workers.dequeue().is_none());
}

#[test]
fn register_worker_queued_signals_callback() {
    let mut jobs = empty_job_queue();
    let mut workers = empty_worker_queue();
    let r = register_worker(
        Some(b"http://worker.example/cb".to_vec()),
        &mut jobs,
        &mut workers,
    );
    assert_eq!(r.status_code(), 202);
    assert!(r.expects_callback());
    assert!(matches!(r, RegisterWorkerResponse::Queued));
    let queued = workers.dequeue().expect("the worker was queued");
    assert_eq!(queued.callback_url, b"http://worker.example/cb".to_vec());
}

#[test]
fn register_worker_gets_waiting_job() {
    let mut jobs = empty_job_queue();
    let mut workers = empty_worker_queue();
    let j = job(4);
    let id = j.id;
    jobs.enqueue(j);
    let r = register_worker(
        Some(b"http://worker.example/cb".to_vec()),
        &mut jobs,
        &mut workers,
    );
    assert_eq!(r.status_code(), 200);
    assert!(!r.expects_callback());
    match r {
        RegisterWorkerResponse::Job(got) => {
            assert_eq!(got.id, id);
            assert_eq!(got.data, vec![4, 5]);
        },
        _ => panic!("the waiting job should be returned"),
    }
    // no queuing occurred
    assert!(workers.dequeue().is_none());
    assert!(jobs.dequeue().is_none());
}

#[test]
fn register_worker_missing_header() {
    let mut jobs = empty_job_queue();
    let mut workers = empty_worker_queue();
    let r = register_worker(None, &mut jobs, &mut workers);
    assert_eq!(r.status_code(), 400);
    assert!(matches!(
        r,
        RegisterWorkerResponse::Error(CallbackHeaderError::Missing)
    ));
    assert!(workers.dequeue().is_none());
}

#[test]
fn register_worker_header_not_text() {
    let mut jobs = empty_job_queue();
    let mut workers = empty_worker_queue();
    let r = register_worker(Some(vec![0x07, 0x1f, 0xff]), &mut jobs, &mut workers);
    assert_eq!(r.status_code(), 400);
    assert!(matches!(
        r,
        RegisterWorkerResponse::Error(CallbackHeaderError::NotAString)
    ));
}

#[test]
fn register_worker_header_not_a_url() {
    let mut jobs = empty_job_queue();
    let mut workers = empty_worker_queue();
    let r = register_worker(Some(b"not a url".to_vec()), &mut jobs, &mut workers);
    assert_eq!(r.status_code(), 400);
    assert!(matches!(
        r,
        RegisterWorkerResponse::Error(CallbackHeaderError::NotAUrl)
    ));
}

#[test]
fn delivery_tries_workers_oldest_first() {
    let mut jobs = empty_job_queue();
    let mut workers = empty_worker_queue();
    workers.enqueue(worker("http://first.example/"));
    workers.enqueue(worker("http://second.example/"));
    // the first worker fails, the second accepts
    let outcomes = vec![DeliveryOutcome::Failed, DeliveryOutcome::Delivered];
    let r = submit_job(job(1), &mut workers, &mut jobs, &outcomes);
    assert!(matches!(r, SubmitJobResponse::Assigned));
    // both workers left the queue: one discarded, one assigned
    assert!(workers.dequeue().is_none());
}

#[test]
fn status_codes() {
    assert!(status_is_success(200));
    assert!(status_is_success(204));
    assert!(status_is_success(299));
    assert!(!status_is_success(199));
    assert!(!status_is_success(300));
    assert!(!status_is_success(404));
    assert!(!status_is_success(500));
}

#[test]
fn asynchronous_response_wraps_the_job() {
    let j = job(2);
    let id = j.id;
    let r = AsynchronousWorkerResponse::Job(j);
    let AsynchronousWorkerResponse::Job(inner) = r;
    assert_eq!(inner.id, id);
    assert_eq!(inner.data, vec![2, 3]);
}

#[test]
fn contents_without_array_frame_load_empty() {
    let framed = save_records(&vec![job(2)]);
    // the bare record without the surrounding array brackets is no queue
    let bare = framed[1..framed.len() - 1].to_vec();
    let loaded: Vec<Job> = load_records(&bare);
    assert!(loaded.is_empty());
    // trailing bytes after the closing bracket spoil the frame too
    let mut trailing = framed.clone();
    trailing.push(b'x');
    let loaded: Vec<Job> = load_records(&trailing);
    assert!(loaded.is_empty());
}

#[test]
fn register_worker_header_with_tab_is_text() {
    let mut jobs = empty_job_queue();
    let mut workers = empty_worker_queue();
    let r = register_worker(
        Some(b"http://worker.example/\tcb".to_vec()),
        &mut jobs,
        &mut workers,
    );
    assert_eq!(r.status_code(), 202);
    assert!(matches!(r, RegisterWorkerResponse::Queued));
    // the URL parser strips the tab while normalizing
    let queued = workers.dequeue().expect("the worker was queued");
    assert!(!queued.callback_url.contains(&b'\t'));
}

#[test]
fn submit_step_decisions() {
    assert!(matches!(
        submit_step(Some(DeliveryOutcome::Delivered)),
        SubmitStep::Assigned
    ));
    assert!(matches!(
        submit_step(Some(DeliveryOutcome::Failed)),
        SubmitStep::TryNext
    ));
    assert!(matches!(submit_step(None), SubmitStep::QueueJob));
}
