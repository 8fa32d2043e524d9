//! Playback decisions: what play/pause does, when playing stops by
//! itself, where a scrub lands, and what the editor's state tracks.
//! Carrying them out (moving players and playheads) is the caller's.

use vstd::prelude::*;

use vstd::string::*;

use crate::span::Span;

verus! {

/// What a play/pause press does.
#[derive(Clone, Copy, Debug, PartialEq, Eq, Structural)]
pub enum Toggle {
    /// Nothing: there is nothing to play.
    Ignore,
    /// Every player set to `play`, at normal speed; when `rewind`, the
    /// playhead goes back to the start first.
    Apply { play: bool, rewind: bool },
}

/// Whether any player is playing.
pub open spec fn any_playing(playing: Seq<bool>) -> bool {
    exists|i: int| 0 <= i < playing.len() && playing[i]
}

/// What a play/pause press does, given which players are playing, how
/// long the track is, and where the focused timeline's playhead is
/// (`None` with no timeline to move). It inverts the whole, not each
/// player, so mixed states resolve to one play or one pause; a track
/// of no length has nothing to play; and playing from the very end
/// starts over.
pub open spec fn toggle_for(playing: Seq<bool>, duration: nat, playhead: Option<nat>) -> Toggle {
    let play = !any_playing(playing);
    if play && duration == 0 {
        Toggle::Ignore
    } else {
        Toggle::Apply {
            play,
            rewind: play && match playhead {
                Some(t) => t >= duration,
                None => false,
            },
        }
    }
}

/// A press while anything plays pauses every player and moves nothing;
/// a press while nothing plays plays every player, starting over from
/// the start exactly when the playhead stands at or past the track's
/// end; with nothing playing, a track of no length ignores the press.
/// On a track of some length, a second press undoes the first: every
/// player then plays, or none does, and the press turns that round.
pub proof fn lemma_toggle(playing: Seq<bool>, duration: nat, playhead: Option<nat>, n: nat)
    ensures
        any_playing(playing) ==> toggle_for(playing, duration, playhead) == (Toggle::Apply {
            play: false,
            rewind: false,
        }),
        !any_playing(playing) && duration == 0 ==> toggle_for(playing, duration, playhead) == Toggle::Ignore,
        !any_playing(playing) && duration > 0 ==> toggle_for(playing, duration, playhead) == (Toggle::Apply {
            play: true,
            rewind: playhead is Some && playhead->Some_0 >= duration,
        }),
        n > 0 && duration > 0 ==> ({
            let play = toggle_for(playing, duration, playhead)->Apply_play;
            &&& toggle_for(Seq::new(n, |i: int| play), duration, playhead) is Apply
            &&& toggle_for(Seq::new(n, |i: int| play), duration, playhead)->Apply_play == !play
        }),
{
    if n > 0 && duration > 0 {
        let play = toggle_for(playing, duration, playhead)->Apply_play;
        let after = Seq::new(n, |i: int| play);
        if play {
            assert(after[0]);
            assert(any_playing(after));
        } else {
            assert(!any_playing(after));
            assert(duration > 0 || any_playing(playing));
            if !(duration > 0) {
                assert(any_playing(playing));
            }
        }
    }
}

/// What a play/pause press does.
pub fn toggle_playback(playing: &Vec<bool>, duration: Span, playhead: Option<Span>) -> (r: Toggle)
    ensures
        r == toggle_for(
            playing@,
            duration@,
            match playhead {
                Some(t) => Some(t@),
                None => None,
            },
        ),
{
    let mut any = false;
    let mut i: usize = 0;
    while i < playing.len()
        invariant
            i <= playing@.len(),
            any == exists|j: int| 0 <= j < i && playing@[j],
        decreases playing@.len() - i,
    {
        if playing[i] {
            any = true;
        }
        i = i + 1;
    }
    let play = !any;
    if play && duration.is_zero() {
        return Toggle::Ignore;
    }
    let rewind = play && match playhead {
        Some(t) => duration.le(&t),
        None => false,
    };
    Toggle::Apply { play, rewind }
}

/// Whether a player, playing forwards or backwards, has run to its
/// end: forwards the track's end, backwards its start. A track of no
/// length stops nothing.
pub open spec fn at_end(playing: bool, forwards: bool, duration: nat, playhead: nat) -> bool {
    playing && duration > 0 && if forwards {
        playhead >= duration
    } else {
        playhead == 0
    }
}

/// A player playing forwards stops once the playhead reaches the
/// track's end or goes past it, one playing backwards once it is back
/// at the start; a paused player, or any on a track of no length, is
/// never stopped.
pub proof fn lemma_when_players_stop(playing: bool, forwards: bool, duration: nat, playhead: nat)
    ensures
        forwards ==> (at_end(playing, forwards, duration, playhead) <==> (playing && duration > 0
            && playhead >= duration)),
        !forwards ==> (at_end(playing, forwards, duration, playhead) <==> (playing && duration > 0
            && playhead == 0)),
        !playing || duration == 0 ==> !at_end(playing, forwards, duration, playhead),
{
}

/// Which players keep playing now that the playhead is at `playhead`:
/// each `(playing, forwards)` stops once it runs to its end, since the
/// timeline holds the playhead there and the player would otherwise
/// stay stuck playing against it.
pub fn stop_at_track_end(players: &Vec<(bool, bool)>, duration: Span, playhead: Span) -> (r: Vec<bool>)
    ensures
        r@.len() == players@.len(),
        forall|i: int|
            0 <= i < players@.len() ==> #[trigger] r@[i] == (players@[i].0 && !at_end(
                players@[i].0,
                players@[i].1,
                duration@,
                playhead@,
            )),
{
    let mut out: Vec<bool> = Vec::new();
    let mut i: usize = 0;
    while i < players.len()
        invariant
            i <= players@.len(),
            out@.len() == i,
            forall|j: int|
                0 <= j < i ==> #[trigger] out@[j] == (players@[j].0 && !at_end(
                    players@[j].0,
                    players@[j].1,
                    duration@,
                    playhead@,
                )),
        decreases players@.len() - i,
    {
        let (playing, forwards) = players[i];
        let ended = playing && !duration.is_zero() && if forwards {
            duration.le(&playhead)
        } else {
            playhead.is_zero()
        };
        out.push(playing && !ended);
        i = i + 1;
    }
    out
}

/// Where a scrub to `time` puts the playhead: never past the track's
/// end.
pub fn scrub_time(time: Span, duration: Span) -> (r: Span)
    ensures
        r@ == if time@ <= duration@ {
            time@
        } else {
            duration@
        },
{
    time.min(duration)
}

/// What the editor tracks of playback: the timeline it follows (by its
/// id), how long that timeline's track is, and whether anything plays.
#[derive(Clone, Copy, Debug, PartialEq, Eq, Structural)]
pub struct PlayState {
    pub timeline: Option<u64>,
    pub duration: Span,
    pub is_playing: bool,
}

impl PlayState {
    /// Nothing followed yet, nothing playing.
    pub fn new() -> (r: PlayState)
        ensures
            r.timeline is None,
            r.duration@ == 0,
            !r.is_playing,
    {
        PlayState { timeline: None, duration: Span::zero(), is_playing: false }
    }

    /// Follows the first timeline, `id`, whose track runs `duration`.
    /// Writes only when something moved, so a reader watching for
    /// changes sees one per change. Whether it wrote.
    pub fn follow(&mut self, id: u64, duration: Span) -> (r: bool)
        ensures
            r == !(old(self).timeline == Some(id) && old(self).duration@ == duration@),
            final(self).timeline == Some(id),
            final(self).duration@ == duration@,
            final(self).is_playing == old(self).is_playing,
            !r ==> *final(self) == *old(self),
    {
        let same = match self.timeline {
            Some(t) => t == id && self.duration.same(&duration),
            None => false,
        };
        if !same {
            self.timeline = Some(id);
            self.duration = duration;
        }
        !same
    }

    /// Tracks whether any player plays, writing only when that moved.
    /// Whether it wrote.
    pub fn track_playing(&mut self, playing: &Vec<bool>) -> (r: bool)
        ensures
            final(self).is_playing == any_playing(playing@),
            final(self).timeline == old(self).timeline,
            final(self).duration == old(self).duration,
            r == (old(self).is_playing != any_playing(playing@)),
    {
        let mut any = false;
        let mut i: usize = 0;
        while i < playing.len()
            invariant
                i <= playing@.len(),
                any == exists|j: int| 0 <= j < i && playing@[j],
            decreases playing@.len() - i,
        {
            if playing[i] {
                any = true;
            }
            i = i + 1;
        }
        if self.is_playing != any {
            self.is_playing = any;
            true
        } else {
            false
        }
    }
}

} // verus!
