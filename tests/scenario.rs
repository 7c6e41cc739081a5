use kernel::{Kernel, KernelState, LockResult, LockStep, ThreadId, TICKS_PER_SEC};

#[derive(Debug, Clone, Copy, PartialEq)]
enum Seen {
    Value(u64),
    Timeout,
}

struct Sim {
    k: KernelState,
    idle: ThreadId,
    a: ThreadId,
    b: ThreadId,
    m: usize,
    a_pc: u32,
    b_pc: u32,
}

impl Sim {
    fn new() -> Sim {
        let mut k = KernelState::new();
        let boot = k.main();
        let idle = k.bootstrap_thread_entry();
        let a = k.create_thread();
        let b = k.create_thread();
        let m = k.create_mutex(0);
        k.start_thread(a);
        k.start_thread(b);
        assert_eq!(k.get_scheduler().current(), Some(boot));
        // The bootstrap thread has nothing more to do.
        k.sleep_until(u64::MAX);
        Sim { k, idle, a, b, m, a_pc: 0, b_pc: 0 }
    }

    fn current(&self) -> ThreadId {
        self.k.get_scheduler().current().unwrap()
    }

    // Runs the current thread until it gives up the core.
    fn step(&mut self, seen: &mut Vec<Seen>) {
        let cur = self.current();
        let now = self.k.now();
        if cur == self.idle {
            if self.k.get_scheduler().run_queue().is_empty() {
                let next = self.k.get_timer_queue().entries()[0].deadline;
                self.k.tick(next);
            }
            self.k.yield_timeslice();
        } else if cur == self.a {
            match self.a_pc {
                0 => {
                    self.a_pc = 1;
                    self.k.mutex_lock(self.m);
                }
                1 => {
                    self.a_pc = 2;
                    self.k.sleep_until(now + TICKS_PER_SEC);
                }
                _ => {
                    let v = self.k.mutex_value(self.m);
                    self.k.set_mutex_value(self.m, v + 1);
                    self.k.mutex_unlock(self.m);
                    self.a_pc = 0;
                }
            }
        } else if cur == self.b {
            match self.b_pc {
                0 => {
                    self.b_pc = 1;
                    if let LockStep::Acquired = self.k.mutex_lock_until(self.m, now + 600) {
                        self.b_pc = 2;
                    }
                }
                1 => {
                    if self.k.lock_result(self.b) == Some(LockResult::TimedOut) {
                        seen.push(Seen::Timeout);
                        self.b_pc = 0;
                    } else {
                        self.b_pc = 2;
                    }
                }
                _ => {
                    seen.push(Seen::Value(self.k.mutex_value(self.m)));
                    self.k.mutex_unlock(self.m);
                    self.b_pc = 0;
                    self.k.yield_timeslice();
                }
            }
        } else {
            panic!("unexpected thread {}", cur);
        }
    }
}

#[test]
fn sleeper_and_timed_poller_share_a_counter() {
    let mut sim = Sim::new();
    let mut seen: Vec<Seen> = Vec::new();
    let mut steps = 0;
    loop {
        let done = seen.len() >= 2
            && seen[seen.len() - 1] == Seen::Timeout
            && seen.contains(&Seen::Value(3));
        if done {
            break;
        }
        sim.step(&mut seen);
        steps += 1;
        assert!(steps < 10_000, "scenario did not finish: {:?}", seen);
    }
    let values: Vec<u64> = seen
        .iter()
        .filter_map(|s| if let Seen::Value(v) = s { Some(*v) } else { None })
        .collect();
    assert!(values.windows(2).all(|w| w[0] <= w[1]));
    assert!(values.contains(&1) && values.contains(&2) && values.contains(&3));
    assert!(seen.contains(&Seen::Timeout));
    assert!(!values.contains(&4));
    assert!(sim.k.now() >= 3 * TICKS_PER_SEC);
}
