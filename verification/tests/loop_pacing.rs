use spine_render::run::{Action, Pace, Pacer};

const TICK: u64 = 16_666_667;

#[test]
fn new_pacer_has_run_up_nothing() {
    assert_eq!(Pacer::new(TICK, 5), Pacer { duration_ns: TICK, accumulator: 0, previous_clock: 5 });
}

#[test]
fn step_of_no_length_sleeps_a_whole_tick() {
    let mut p = Pacer::new(TICK, 100);
    assert_eq!(p.advance(Action::Continue, 100), Pace::Sleep(TICK));
    assert_eq!(p.accumulator, 0);
}

#[test]
fn short_step_sleeps_the_rest_of_the_tick() {
    let mut p = Pacer::new(TICK, 0);
    assert_eq!(p.advance(Action::Continue, 1000), Pace::Sleep(16_665_667));
    assert_eq!(p, Pacer { duration_ns: TICK, accumulator: 1000, previous_clock: 1000 });
}

#[test]
fn steady_loop_sleeps_about_a_tick_each_time() {
    let mut p = Pacer::new(TICK, 0);
    let mut now = 0;
    for _ in 0..100 {
        now += 2_000;
        match p.advance(Action::Continue, now) {
            Pace::Sleep(ns) => {
                assert!(ns <= TICK && ns > TICK - 300_000, "{}", ns);
                now += ns;
            }
            Pace::Exit => panic!("left the loop"),
        }
    }
}

#[test]
fn whole_ticks_drop_out_of_the_accumulator() {
    let mut p = Pacer::new(10, 0);
    assert_eq!(p.advance(Action::Continue, 37), Pace::Sleep(3));
    assert_eq!(p.accumulator, 7);
    assert_eq!(p.advance(Action::Continue, 40), Pace::Sleep(10));
    assert_eq!(p.accumulator, 0);
    assert_eq!(p.advance(Action::Continue, 49), Pace::Sleep(1));
    assert_eq!(p.accumulator, 9);
    assert_eq!(p.advance(Action::Continue, 51), Pace::Sleep(9));
    assert_eq!(p.accumulator, 1);
}

#[test]
fn stop_leaves_at_once_and_changes_nothing() {
    let mut p = Pacer::new(TICK, 0);
    p.advance(Action::Continue, 1000);
    let before = p;
    assert_eq!(p.advance(Action::Stop, 999_999_999), Pace::Exit);
    assert_eq!(p, before);
    assert_eq!(p.tick(Action::Stop), Pace::Exit);
    assert_eq!(p, before);
}

#[test]
fn clock_that_ran_backwards_counts_as_no_time() {
    let mut p = Pacer::new(100, 50);
    assert_eq!(p.advance(Action::Continue, 80), Pace::Sleep(70));
    assert_eq!(p.advance(Action::Continue, 10), Pace::Sleep(70));
    assert_eq!(p, Pacer { duration_ns: 100, accumulator: 30, previous_clock: 10 });
}

#[test]
fn tick_of_no_length_never_sleeps() {
    let mut p = Pacer::new(0, 0);
    assert_eq!(p.advance(Action::Continue, 12345), Pace::Sleep(0));
    assert_eq!(p.accumulator, 0);
}

#[test]
fn largest_values_do_not_overflow() {
    let mut p = Pacer { duration_ns: u64::MAX, accumulator: u64::MAX - 1, previous_clock: 0 };
    assert_eq!(p.advance(Action::Continue, u64::MAX), Pace::Sleep(1));
    assert_eq!(p.accumulator, u64::MAX - 1);
    let mut q = Pacer { duration_ns: 7, accumulator: 6, previous_clock: 0 };
    assert_eq!(q.advance(Action::Continue, u64::MAX), Pace::Sleep(7 - (6 + u64::MAX % 7) % 7));
}

#[test]
fn pacer_on_the_real_clock() {
    let mut p = Pacer::start(TICK);
    assert_eq!(p.duration_ns, TICK);
    assert_eq!(p.accumulator, 0);
    let started = p.previous_clock;
    match p.tick(Action::Continue) {
        Pace::Sleep(ns) => {
            assert!(ns > 0 && ns <= TICK);
            assert_eq!(ns, TICK - p.accumulator);
        }
        Pace::Exit => panic!("left the loop"),
    }
    assert!(p.accumulator < TICK);
    assert!(p.previous_clock >= started);
    assert_eq!(p.accumulator, (p.previous_clock - started) % TICK);
}
