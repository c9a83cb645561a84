use live_backend::admission::{AdmissionController, Decision};
use live_backend::fanout::{Broadcaster, Delivery};
use live_backend::reaper::{Reaper, Wake, DEFAULT_PERIOD_MS};
use live_backend::session::{Action, Input, Phase, Session};

#[test]
fn session_passes_events_on() {
    let mut s = Session::new(3);
    assert_eq!(s.handle(), 3);
    assert_eq!(s.phase(), Phase::Streaming);
    assert_eq!(s.step(Input::Item(Delivery::Event(5u32))), Action::Write(5));
    assert_eq!(s.step::<u32>(Input::Written), Action::Poll);
    assert_eq!(s.step::<u32>(Input::Item(Delivery::Gap(4))), Action::WriteGap(4));
    assert_eq!(s.step::<u32>(Input::Item(Delivery::Empty)), Action::Wait);
    assert_eq!(s.step::<u32>(Input::Published), Action::Poll);
    assert_eq!(s.phase(), Phase::Streaming);
    assert!(!s.is_closed());
}

#[test]
fn failed_write_ends_the_session() {
    let mut s = Session::new(0);
    assert_eq!(s.step(Input::Item(Delivery::Event(1u32))), Action::Write(1));
    assert_eq!(s.step::<u32>(Input::WriteFailed), Action::Release);
    assert!(s.is_closed());
    // Nothing is tried again.
    assert_eq!(s.step(Input::Item(Delivery::Event(2u32))), Action::Ignore);
    assert_eq!(s.step::<u32>(Input::Written), Action::Ignore);
    assert_eq!(s.step::<u32>(Input::Shutdown), Action::Ignore);
    assert_eq!(s.phase(), Phase::Closed);
}

#[test]
fn peer_close_and_lost_subscription_end_the_session() {
    let mut s = Session::new(0);
    assert_eq!(s.step::<u32>(Input::PeerClosed), Action::Release);
    assert!(s.is_closed());
    let mut s = Session::new(1);
    assert_eq!(s.step::<u32>(Input::Item(Delivery::Closed)), Action::Release);
    assert!(s.is_closed());
}

#[test]
fn draining_session_flushes_then_closes() {
    let mut s = Session::new(0);
    assert_eq!(s.step::<u32>(Input::Shutdown), Action::Poll);
    assert_eq!(s.phase(), Phase::Draining);
    assert_eq!(s.step(Input::Item(Delivery::Event(8u32))), Action::Write(8));
    assert_eq!(s.step::<u32>(Input::Written), Action::Poll);
    assert_eq!(s.step::<u32>(Input::Item(Delivery::Empty)), Action::Release);
    assert!(s.is_closed());
}

#[test]
fn grace_period_ends_a_session_that_still_drains() {
    let mut s = Session::new(0);
    assert_eq!(s.step::<u32>(Input::Shutdown), Action::Poll);
    assert_eq!(s.step(Input::Item(Delivery::Event(8u32))), Action::Write(8));
    assert_eq!(s.step::<u32>(Input::GraceExpired), Action::Release);
    assert!(s.is_closed());
}

#[test]
fn shutdown_closes_five_sessions_and_stops_the_reaper() {
    let mut b: Broadcaster<u32> = Broadcaster::new(8);
    let mut reaper = Reaper::new(DEFAULT_PERIOD_MS, 0);
    let mut sessions: Vec<Session> = (0..5).map(|_| Session::new(b.subscribe().unwrap())).collect();
    assert_eq!(b.publish(1), 5);
    assert_eq!(b.publish(2), 5);

    reaper.cancel();
    for s in sessions.iter_mut() {
        // What still waits is flushed, then the session closes by itself.
        assert_eq!(s.advance(&mut b, Input::Shutdown), Action::Write(1));
        assert_eq!(s.phase(), Phase::Draining);
        assert_eq!(s.advance(&mut b, Input::Written), Action::Write(2));
        assert_eq!(s.advance(&mut b, Input::Written), Action::Release);
        assert!(s.is_closed());
        assert!(!b.is_subscribed(s.handle()));
    }
    assert_eq!(b.subscriber_count(), 0);
    assert!(!reaper.is_runnable());
    assert_eq!(reaper.wake(10 * DEFAULT_PERIOD_MS), Wake::Stop);
    let mut c = AdmissionController::with_defaults();
    assert_eq!(reaper.cycle(&mut c, 10 * DEFAULT_PERIOD_MS), (Wake::Stop, None));
}

#[test]
fn advance_polls_and_releases_for_the_owner() {
    let mut b: Broadcaster<u32> = Broadcaster::new(2);
    let mut s = Session::new(b.subscribe().unwrap());
    let other = b.subscribe().unwrap();
    assert_eq!(s.advance(&mut b, Input::Published), Action::Wait);
    for e in 1..=3u32 {
        b.publish(e);
    }
    assert_eq!(s.advance(&mut b, Input::Published), Action::WriteGap(1));
    assert_eq!(s.advance(&mut b, Input::Written), Action::Write(2));
    assert_eq!(s.advance(&mut b, Input::WriteFailed), Action::Release);
    assert!(s.is_closed());
    assert!(!b.is_subscribed(s.handle()));
    assert_eq!(s.advance(&mut b, Input::Published), Action::Ignore);
    // The other subscription has lost nothing by it.
    assert_eq!(b.recv(other), Delivery::Gap(1));
    assert_eq!(b.recv(other), Delivery::Event(2));
    assert_eq!(b.recv(other), Delivery::Event(3));
}

#[test]
fn grace_period_cuts_off_a_session_with_events_left() {
    let mut b: Broadcaster<u32> = Broadcaster::new(4);
    let mut s = Session::new(b.subscribe().unwrap());
    b.publish(1);
    b.publish(2);
    assert_eq!(s.advance(&mut b, Input::Shutdown), Action::Write(1));
    assert_eq!(s.advance(&mut b, Input::GraceExpired), Action::Release);
    assert!(s.is_closed());
    assert_eq!(b.subscriber_count(), 0);
}

#[test]
fn session_whose_subscription_is_gone_closes() {
    let mut b: Broadcaster<u32> = Broadcaster::new(4);
    let mut s = Session::new(b.subscribe().unwrap());
    assert!(b.unsubscribe(s.handle()));
    assert_eq!(s.advance(&mut b, Input::Published), Action::Release);
    assert!(s.is_closed());
}

#[test]
fn reaper_runs_once_per_period() {
    assert_eq!(DEFAULT_PERIOD_MS, 60_000);
    let mut r = Reaper::new(60_000, 1_000);
    assert!(r.is_runnable());
    assert_eq!(r.wake(1_000), Wake::Sleep(60_000));
    assert_eq!(r.wake(60_999), Wake::Sleep(1));
    assert_eq!(r.wake(61_000), Wake::Run);
    assert!(r.is_running());
    r.finish();
    assert!(!r.is_running());
    assert_eq!(r.wake(61_000), Wake::Sleep(60_000));
    assert_eq!(r.wake(130_000), Wake::Run);
}

#[test]
fn reaper_does_not_overlap_with_itself() {
    let mut r = Reaper::new(10, 0);
    assert_eq!(r.wake(10), Wake::Run);
    assert_eq!(r.wake(20), Wake::Skip);
    assert_eq!(r.wake(30), Wake::Skip);
    r.finish();
    assert_eq!(r.wake(30), Wake::Run);
}

#[test]
fn reaper_due_time_stops_at_the_end_of_time() {
    let mut r = Reaper::new(u64::MAX, 5);
    assert_eq!(r.wake(5), Wake::Sleep(u64::MAX - 5));
    assert_eq!(r.wake(u64::MAX), Wake::Run);
}

#[test]
fn cancelled_reaper_leaves_the_controller_alone() {
    let mut c = AdmissionController::with_defaults();
    assert_eq!(c.admit_at(1, 0), Decision::Allow);
    let mut r = Reaper::new(1_000, 0);
    r.cancel();
    assert_eq!(r.cycle(&mut c, 1_000_000), (Wake::Stop, None));
    assert_eq!(c.len(), 1);
}

#[test]
fn cycle_reclaims_when_due_and_reports_what_is_left() {
    let mut c = AdmissionController::new(8, 2);
    assert_eq!(c.admit_at(1, 0), Decision::Allow);
    for _ in 0..8 {
        assert_eq!(c.admit_at(2, 0), Decision::Allow);
    }
    let mut r = Reaper::new(1_000, 0);
    assert_eq!(r.cycle(&mut c, 999), (Wake::Sleep(1), None));
    assert_eq!(c.len(), 2);
    // At 1 s identity 1 is full again, identity 2 holds two tokens.
    assert_eq!(r.cycle(&mut c, 1_000), (Wake::Run, Some(1)));
    assert!(!r.is_running());
    assert_eq!(r.cycle(&mut c, 1_500), (Wake::Sleep(500), None));
    assert_eq!(r.cycle(&mut c, 4_000), (Wake::Run, Some(0)));
}
