use hello_server::pool::{Action, Pool, PoolError, SubmitError};

#[test]
fn zero_workers_is_refused() {
    assert!(matches!(Pool::<u32>::new(0), Err(PoolError::NoWorkers)));
    assert!(Pool::<u32>::new(4).is_ok());
}

#[test]
fn fresh_pool() {
    let p = Pool::<u32>::new(4).unwrap();
    assert_eq!(p.size(), 4);
    assert!(p.is_accepting());
    assert_eq!(p.pending(), 0);
    assert_eq!(p.in_flight(), 0);
    assert!(p.is_idle(3));
    assert!(!p.is_idle(4));
}

#[test]
fn jobs_are_handed_out_in_order() {
    let mut p = Pool::new(2).unwrap();
    assert_eq!(p.submit("a"), Ok(0));
    assert_eq!(p.submit("b"), Ok(1));
    assert!(matches!(p.take(1), Action::Run(0, "a")));
    assert!(matches!(p.take(0), Action::Run(1, "b")));
    assert!(!p.is_idle(0));
    assert_eq!(p.in_flight(), 2);
    assert_eq!(p.finish(1), 0);
    assert!(matches!(p.take(1), Action::Wait));
    assert_eq!(p.finish(0), 1);
    assert_eq!(p.in_flight(), 0);
}

#[test]
fn more_clients_than_workers_all_served() {
    let n: usize = 3;
    let m: u32 = 10;
    let mut p = Pool::new(n).unwrap();
    for c in 0..m {
        assert_eq!(p.submit(c), Ok(c as u64));
    }
    let mut served: Vec<u32> = Vec::new();
    loop {
        let mut ran = false;
        for w in 0..n {
            if p.is_idle(w) {
                if let Action::Run(_, job) = p.take(w) {
                    served.push(job);
                    ran = true;
                }
            }
            assert!(p.in_flight() <= n);
        }
        for w in 0..n {
            if !p.is_idle(w) {
                p.finish(w);
                ran = true;
            }
        }
        if !ran {
            break;
        }
    }
    assert_eq!(served, (0..m).collect::<Vec<u32>>());
    assert_eq!(p.pending(), 0);
}

#[test]
fn shutdown_drains_and_refuses() {
    let mut p = Pool::new(2).unwrap();
    p.submit(10u8).unwrap();
    p.submit(11u8).unwrap();
    p.submit(12u8).unwrap();
    assert!(matches!(p.take(0), Action::Run(0, 10)));
    p.shutdown();
    assert!(!p.is_accepting());
    assert_eq!(p.submit(13), Err(SubmitError::ShutDown));
    assert_eq!(p.pending(), 2);
    assert!(matches!(p.take(1), Action::Run(1, 11)));
    assert_eq!(p.finish(0), 0);
    assert!(matches!(p.take(0), Action::Run(2, 12)));
    assert_eq!(p.finish(1), 1);
    assert!(matches!(p.take(1), Action::Exit));
    assert_eq!(p.finish(0), 2);
    assert!(matches!(p.take(0), Action::Exit));
    assert_eq!(p.in_flight(), 0);
}
