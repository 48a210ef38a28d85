use kvs::cli::{Commands, EngineKind, Get, Rm, Server, SetArgs};
use kvs::codec::Command;
use kvs::errors::KvsError;
use kvs::pool::{Action, JobQueue, Message, Signal, Supervisor};

#[test]
fn test_panic_thread() {
    let mut sup = Supervisor::new(4);
    assert_eq!(sup.on_signal(Signal::Panic), Action::SpawnWorker);
    assert_eq!(sup.active, 4);
    assert_eq!(sup.on_signal(Signal::Panic), Action::SpawnWorker);
    assert_eq!(sup.active, 4);
    assert_eq!(sup.on_signal(Signal::Shutdown), Action::Wait);
    assert_eq!(sup.on_signal(Signal::Panic), Action::SpawnWorker);
    assert_eq!(sup.on_signal(Signal::Shutdown), Action::Wait);
    assert_eq!(sup.on_signal(Signal::Shutdown), Action::Wait);
    assert_eq!(sup.on_signal(Signal::Shutdown), Action::Exit);
    assert_eq!(sup.active, 0);
    assert_eq!(sup.stopped, 4);
}

#[test]
fn queue_is_fifo_with_shutdowns_last() {
    let mut q: JobQueue<u32> = JobQueue::new();
    q.push_job(1);
    q.push_job(2);
    q.push_shutdowns(2);
    assert_eq!(q.len(), 4);
    assert!(matches!(q.pop(), Some(Message::Job(1))));
    assert!(matches!(q.pop(), Some(Message::Job(2))));
    assert!(matches!(q.pop(), Some(Message::Shutdown)));
    assert!(matches!(q.pop(), Some(Message::Shutdown)));
    assert!(q.pop().is_none());
}

#[test]
fn subcommands_become_commands() {
    let set = Commands::set(SetArgs { key: Some("k".to_string()), value: Some("v".to_string()) });
    assert_eq!(set.to_command(), Some(Command::Put { key: "k".to_string(), value: "v".to_string() }));
    let missing = Commands::set(SetArgs { key: Some("k".to_string()), value: None });
    assert_eq!(missing.to_command(), None);
    let get = Commands::get(Get { key: Some("k".to_string()) });
    assert_eq!(get.to_command(), Some(Command::Get { key: "k".to_string() }));
    let rm = Commands::rm(Rm { key: None });
    assert_eq!(rm.to_command(), None);
}

#[test]
fn engine_names() {
    let server = |e: &str| Server { addr: "127.0.0.1:4000".to_string(), engine: e.to_string() };
    assert_eq!(server("kvs").engine_kind(), Ok(EngineKind::Kvs));
    assert_eq!(server("sled").engine_kind(), Ok(EngineKind::Sled));
    assert_eq!(server("other").engine_kind(), Err(KvsError::Config("other".to_string())));
}
