use lib::playback::{PlayState, Toggle, scrub_time, stop_at_track_end, toggle_playback};
use lib::span::Span;

#[test]
fn mixed_players_all_pause() {
    let t = toggle_playback(&vec![true, false], Span::from_secs(3), Some(Span::from_secs(1)));
    assert_eq!(t, Toggle::Apply { play: false, rewind: false });
}

#[test]
fn playing_from_the_end_starts_over() {
    let t = toggle_playback(&vec![false], Span::from_secs(3), Some(Span::from_secs(3)));
    assert_eq!(t, Toggle::Apply { play: true, rewind: true });
    let t = toggle_playback(&vec![false], Span::from_secs(3), Some(Span::from_secs(2)));
    assert_eq!(t, Toggle::Apply { play: true, rewind: false });
}

#[test]
fn an_empty_track_does_not_play() {
    let t = toggle_playback(&vec![false], Span::zero(), None);
    assert_eq!(t, Toggle::Ignore);
    // Pausing still works.
    let t = toggle_playback(&vec![true], Span::zero(), None);
    assert_eq!(t, Toggle::Apply { play: false, rewind: false });
}

#[test]
fn players_stop_at_the_end_they_run_to() {
    let players = vec![(true, true), (true, false), (false, true)];
    assert_eq!(stop_at_track_end(&players, Span::from_secs(2), Span::from_secs(2)), vec![false, true, false]);
    assert_eq!(stop_at_track_end(&players, Span::from_secs(2), Span::zero()), vec![true, false, false]);
    assert_eq!(stop_at_track_end(&players, Span::zero(), Span::zero()), vec![true, true, false]);
}

#[test]
fn a_scrub_stops_at_the_end() {
    assert_eq!(scrub_time(Span::from_secs(5), Span::from_secs(2)), Span::from_secs(2));
    assert_eq!(scrub_time(Span::from_secs(1), Span::from_secs(2)), Span::from_secs(1));
}

#[test]
fn the_state_writes_only_when_something_moved() {
    let mut state = PlayState::new();
    assert!(state.follow(1, Span::from_secs(2)));
    assert!(!state.follow(1, Span::from_secs(2)));
    assert!(state.follow(1, Span::from_secs(3)));
    assert!(state.track_playing(&vec![false, true]));
    assert!(state.is_playing);
    assert!(!state.track_playing(&vec![true]));
    assert!(state.track_playing(&vec![]));
    assert!(!state.is_playing);
}

