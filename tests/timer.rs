use alarm_timer::timer::{render, Timer, TimerState};

#[test]
fn countdown_fires_once_after_showing_zero() {
    let (mut timer, first) = Timer::start(3);
    assert_eq!(first.line, " 00:00:03");
    assert!(!first.trigger);
    let mut fired = 0;
    let expected = [" 00:00:02", " 00:00:01", " 00:00:00"];
    for line in expected {
        let step = timer.tick();
        assert_eq!(step.line, line);
        if step.trigger {
            fired += 1;
        }
    }
    assert_eq!(fired, 1);
    assert_eq!(timer.state(), TimerState::Overtime(0));
    let step = timer.tick();
    assert!(!step.trigger);
    assert_eq!(step.line, "-00:00:01");
    assert_eq!(timer.state(), TimerState::Overtime(1));
}

#[test]
fn zero_duration_shows_zero_before_firing() {
    let (mut timer, first) = Timer::start(0);
    assert_eq!(first.line, " 00:00:00");
    assert!(first.trigger);
    assert_eq!(timer.state(), TimerState::Overtime(0));
    for expected in ["-00:00:01", "-00:00:02"] {
        let step = timer.tick();
        assert!(!step.trigger);
        assert_eq!(step.line, expected);
    }
    assert_eq!(timer.state(), TimerState::Overtime(2));
}

#[test]
fn countdown_state_before_zero() {
    let (mut timer, _) = Timer::start(90);
    assert_eq!(timer.state(), TimerState::CountingDown(90));
    let step = timer.tick();
    assert_eq!(step.line, " 00:01:29");
    assert_eq!(timer.state(), TimerState::CountingDown(89));
}

#[test]
fn render_signs() {
    assert_eq!(render(TimerState::CountingDown(3661)), " 01:01:01");
    assert_eq!(render(TimerState::Overtime(3661)), "-01:01:01");
    assert_eq!(render(TimerState::Overtime(0)), "-00:00:00");
}
