use sdm_engine::entity::Entity;
use sdm_engine::entity_set::{EntitySet, EntitySetMode};
use sdm_engine::error::SdmError;
use sdm_engine::event::Event;
use sdm_engine::process::Process;
use sdm_engine::resource::Resource;
use sdm_engine::scheduler::{Dispatch, Scheduler};

#[test]
fn empty_run_returns_at_once() {
    let mut sched = Scheduler::new();
    sched.simulate();
    assert_eq!(sched.time(), 0);
}

#[test]
fn simulate_drains_callbackless_events() {
    let mut sched = Scheduler::new();
    sched.schedule_at(Event::new("a"), 3);
    sched.schedule_at(Event::new("b"), 7);
    sched.schedule_now(Event::new("c"));
    sched.simulate();
    assert_eq!(sched.time(), 7);
}

#[test]
fn single_event_at_five_sets_flag() {
    let mut sched = Scheduler::new();
    let ev = Event::new("flag");
    let id = ev.id();
    sched.schedule_at(ev, 5);
    let mut flag = false;
    loop {
        match sched.simulate_one_step() {
            Dispatch::Done => break,
            Dispatch::Event(e) => {
                if e.id() == id {
                    flag = true;
                    assert_eq!(sched.time(), 5);
                }
                let durations = vec![0u64; sched.n_running()];
                sched.complete_event_step(&durations);
            },
            Dispatch::ProcessEnd(_) => {},
        }
    }
    assert!(flag);
    assert_eq!(sched.time(), 5);
}

#[test]
fn schedule_in_offsets_from_the_current_time() {
    let mut sched = Scheduler::new();
    sched.schedule_at(Event::new("first"), 4);
    let mut fired_at: Vec<u64> = Vec::new();
    let mut chained = false;
    loop {
        match sched.simulate_one_step() {
            Dispatch::Done => break,
            Dispatch::Event(_) => {
                fired_at.push(sched.time());
                if !chained {
                    chained = true;
                    // From t = 4, three ticks out: fires at t = 7.
                    sched.schedule_in(Event::new("chained"), 3);
                }
                let durations = vec![0u64; sched.n_running()];
                sched.complete_event_step(&durations);
            },
            Dispatch::ProcessEnd(_) => {},
        }
    }
    assert_eq!(fired_at, [4, 7]);
}

#[test]
fn start_process_in_stages_relative_to_now() {
    let mut sched = Scheduler::new();
    sched.schedule_at(Event::new("early"), 2);
    sched.schedule_at(Event::new("late"), 6);
    // Staged from t = 0, due at t = 3: absent at the first event step,
    // present at the second.
    sched.start_process_in(Process::new("p", 0), 3);
    let mut running_at_events: Vec<usize> = Vec::new();
    loop {
        match sched.simulate_one_step() {
            Dispatch::Done => break,
            Dispatch::Event(_) => {
                running_at_events.push(sched.n_running());
                let durations = vec![1u64; sched.n_running()];
                sched.complete_event_step(&durations);
            },
            Dispatch::ProcessEnd(_) => {},
        }
    }
    assert_eq!(running_at_events, [0, 1]);
}

#[test]
fn events_at_equal_time_dispatch_in_schedule_order() {
    let mut sched = Scheduler::new();
    let first = Event::new("first");
    let second = Event::new("second");
    let third = Event::new("third");
    let ids = [first.id(), second.id(), third.id()];
    sched.schedule_at(first, 4);
    sched.schedule_at(second, 4);
    sched.schedule_at(third, 4);
    let mut seen: Vec<u128> = Vec::new();
    loop {
        match sched.simulate_one_step() {
            Dispatch::Done => break,
            Dispatch::Event(e) => {
                seen.push(e.id());
                let durations = vec![0u64; sched.n_running()];
                sched.complete_event_step(&durations);
            },
            Dispatch::ProcessEnd(_) => {},
        }
    }
    assert_eq!(seen, ids);
}

#[test]
fn process_finish_wins_tie_against_event() {
    let mut sched = Scheduler::new();
    let worker = Process::new("worker", 10);
    let worker_pid = worker.pid();
    sched.start_process_now(worker);
    sched.schedule_at(Event::new("kick"), 0);
    sched.schedule_at(Event::new("rival"), 10);
    let mut order: Vec<String> = Vec::new();
    loop {
        match sched.simulate_one_step() {
            Dispatch::Done => break,
            Dispatch::Event(e) => {
                order.push(format!("event:{}", e.name()));
                let durations = vec![10u64; sched.n_running()];
                sched.complete_event_step(&durations);
            },
            Dispatch::ProcessEnd(pid) => {
                assert_eq!(pid, worker_pid);
                if order.len() == 1 {
                    // The first finish marker and the rival event are both
                    // due at t = 10: the process finish must dispatch first.
                    assert_eq!(sched.time(), 10);
                }
                order.push("finish".to_string());
            },
        }
    }
    assert_eq!(order, ["event:kick", "finish", "event:rival", "finish"]);
}

#[test]
fn every_running_process_gets_one_finish_marker() {
    let mut sched = Scheduler::new();
    let p1 = Process::new("p1", 0);
    let p2 = Process::new("p2", 0);
    let pid1 = p1.pid();
    let pid2 = p2.pid();
    sched.start_process_now(p1);
    sched.start_process_now(p2);
    sched.schedule_at(Event::new("kick"), 1);
    let mut finishes: Vec<(u64, u128)> = Vec::new();
    let mut event_steps = 0u32;
    loop {
        match sched.simulate_one_step() {
            Dispatch::Done => break,
            Dispatch::Event(_) => {
                event_steps += 1;
                assert_eq!(sched.running_pids(), [pid1, pid2]);
                // Registry order fixes the duration order: p1 takes 3, p2
                // takes 4 ticks.
                sched.complete_event_step(&vec![3u64, 4u64]);
            },
            Dispatch::ProcessEnd(pid) => {
                finishes.push((sched.time(), pid));
            },
        }
    }
    assert_eq!(event_steps, 1);
    // Exactly one marker per process, at event time plus its duration.
    assert_eq!(finishes, [(4, pid1), (5, pid2)]);
}

#[test]
fn duration_sampled_exactly_once_per_start() {
    // A counting stand-in for a duration distribution: the host samples it
    // exactly once per running process per event step.
    let mut samples = 0u32;
    let mut sample = |n: &mut u32| -> u64 {
        *n += 1;
        2
    };
    let mut sched = Scheduler::new();
    sched.start_process_now(Process::new("p", 0));
    sched.schedule_at(Event::new("kick"), 0);
    sched.schedule_at(Event::new("kick2"), 1);
    let mut event_steps = 0u32;
    loop {
        match sched.simulate_one_step() {
            Dispatch::Done => break,
            Dispatch::Event(_) => {
                event_steps += 1;
                let mut durations: Vec<u64> = Vec::new();
                for _pid in sched.running_pids() {
                    durations.push(sample(&mut samples));
                }
                sched.complete_event_step(&durations);
            },
            Dispatch::ProcessEnd(_) => {},
        }
    }
    assert_eq!(event_steps, 2);
    assert_eq!(samples, 2);
}

#[test]
fn staged_process_joins_registry_when_due() {
    let mut sched = Scheduler::new();
    let p = Process::new("late", 0);
    sched.start_process_at(p, 3);
    sched.schedule_at(Event::new("early"), 1);
    sched.schedule_at(Event::new("later"), 5);
    let mut running_at_events: Vec<usize> = Vec::new();
    loop {
        match sched.simulate_one_step() {
            Dispatch::Done => break,
            Dispatch::Event(_) => {
                running_at_events.push(sched.n_running());
                let durations = vec![1u64; sched.n_running()];
                sched.complete_event_step(&durations);
            },
            Dispatch::ProcessEnd(_) => {},
        }
    }
    assert_eq!(running_at_events, [0, 1]);
}

#[test]
fn virtual_time_never_decreases() {
    let mut sched = Scheduler::new();
    sched.start_process_now(Process::new("w", 0));
    sched.schedule_at(Event::new("a"), 2);
    sched.schedule_at(Event::new("b"), 2);
    sched.schedule_at(Event::new("c"), 9);
    let mut last = sched.time();
    loop {
        match sched.simulate_one_step() {
            Dispatch::Done => break,
            Dispatch::Event(_) => {
                assert!(sched.time() >= last);
                last = sched.time();
                let durations = vec![3u64; sched.n_running()];
                sched.complete_event_step(&durations);
            },
            Dispatch::ProcessEnd(_) => {
                assert!(sched.time() >= last);
                last = sched.time();
            },
        }
    }
}

#[test]
fn managed_handles_read_back() {
    let mut sched = Scheduler::new();
    let q = sched.manage_entity_set(EntitySet::new("orders", EntitySetMode::FIFO));
    let r = sched.manage_resource(Resource::new("cooks", 3));
    assert_eq!(sched.entity_set(q).name().as_str(), "orders");
    assert_eq!(sched.resource(r).capacity(), 3);
    sched.set_push(q, Entity::new("car", 0)).unwrap();
    assert_eq!(sched.entity_set(q).size(), 1);
    let e = sched.set_pop(q).unwrap();
    let id = e.id();
    sched.set_push(q, e).unwrap();
    let back = sched.set_remove(q, id).unwrap();
    assert_eq!(back.id(), id);
    sched.resource_allocate(r, 2).unwrap();
    assert_eq!(sched.resource(r).free(), 1);
    sched.resource_release(r, 2).unwrap();
    assert_eq!(sched.resource(r).free(), 3);
}

#[test]
fn managed_handles_surface_errors() {
    let mut sched = Scheduler::new();
    let q = sched.manage_entity_set(EntitySet::new_sized("tiny", EntitySetMode::FIFO, 1));
    let r = sched.manage_resource(Resource::new("one", 1));
    sched.set_push(q, Entity::new("a", 0)).unwrap();
    assert_eq!(
        sched.set_push(q, Entity::new("b", 0)),
        Err(SdmError::CapacityExceeded)
    );
    assert_eq!(
        sched.resource_allocate(r, 2),
        Err(SdmError::InsufficientResource)
    );
    assert_eq!(sched.resource_release(r, 1), Err(SdmError::OverRelease));
    assert_eq!(sched.resource(r).free(), 1);
    assert_eq!(sched.entity_set(q).size(), 1);
}

#[test]
fn fuel_station_minimal() {
    let mut sched = Scheduler::new();
    let q = sched.manage_entity_set(EntitySet::new("Q", EntitySetMode::FIFO));
    let pump = sched.manage_resource(Resource::new("pump", 2));
    let serve = Process::new("Serve", 8);
    let serve_pid = serve.pid();
    sched.start_process_now(serve);
    sched.schedule_at(Event::new("Arrive"), 0);

    let mut arrivals = 0u32;
    let mut served = 0u32;
    let mut did_allocate: Vec<bool> = Vec::new();
    let mut last_time = 0u64;
    loop {
        match sched.simulate_one_step() {
            Dispatch::Done => break,
            Dispatch::Event(e) => {
                let t = sched.time();
                assert!(t >= last_time);
                last_time = t;
                if e.name().as_str() == "Arrive" {
                    arrivals += 1;
                    sched.set_push(q, Entity::new("car", t)).unwrap();
                    if t + 5 < 100 {
                        sched.schedule_at(Event::new("Arrive"), t + 5);
                    }
                }
                let mut durations: Vec<u64> = Vec::new();
                for pid in sched.running_pids() {
                    assert_eq!(pid, serve_pid);
                    // Serve.on_start: take a waiting car if a pump is free.
                    if !sched.entity_set(q).is_empty()
                        && sched.resource_allocate(pump, 1).is_ok()
                    {
                        sched.set_pop(q).unwrap();
                        did_allocate.push(true);
                    } else {
                        did_allocate.push(false);
                    }
                    // Constant service duration.
                    durations.push(8);
                }
                sched.complete_event_step(&durations);
            },
            Dispatch::ProcessEnd(pid) => {
                let t = sched.time();
                assert!(t >= last_time);
                last_time = t;
                assert_eq!(pid, serve_pid);
                // Serve.on_end: put the pump back for the matching start.
                if did_allocate.remove(0) {
                    sched.resource_release(pump, 1).unwrap();
                    served += 1;
                }
            },
        }
        let free = sched.resource(pump).free();
        assert!(free <= 2);
        assert_eq!(sched.resource(pump).n_allocated(), 2 - free);
    }
    assert_eq!(arrivals, 20);
    // A pump is always free when a car arrives, so every car is served.
    assert_eq!(served, 20);
    assert_eq!(sched.entity_set(q).size(), 0);
    // Every pump taken was given back.
    assert_eq!(sched.resource(pump).free(), 2);
    let rate = sched.resource(pump).busy_time() as f32 / sched.time() as f32;
    assert!((0.0..=1.0).contains(&rate));
    // The last arrival at t = 95 finishes service at t = 103.
    assert_eq!(sched.time(), 103);
}
