//! The reindeer race: each reindeer alternates full-speed flight and rest,
//! and the winner is judged either by distance travelled or by points
//! awarded for being in the lead at each second.

use vstd::prelude::*;

use crate::util::{is_word, is_word_str, num_val, parse_decimal, split_bounds, split_char, str_eq};

verus! {

/// A racer's flight profile, parsed from one description line.
pub struct Reindeer {
    pub name: String,
    pub flying_speed: u32,
    pub flying_time: u32,
    pub rest_time: u32,
}

/// Distance flown in `t` seconds by a racer that flies `ft` seconds at
/// `speed`, rests `rt` seconds, and repeats.
pub open spec fn fly_dist(speed: int, ft: int, rt: int, t: int) -> int
    decreases (if t >= 0 {
        t
    } else {
        0
    })
        when ft + rt >= 1
{
    if t <= 0 {
        0
    } else if t <= ft {
        speed * t
    } else {
        speed * ft + fly_dist(speed, ft, rt, t - ft - rt)
    }
}

proof fn lemma_fly_dist_nonneg(speed: int, ft: int, rt: int, t: int)
    requires
        speed >= 0,
        ft >= 0,
        rt >= 0,
        ft + rt >= 1,
    ensures
        fly_dist(speed, ft, rt, t) >= 0,
    decreases (if t >= 0 {
        t
    } else {
        0
    }),
{
    if t > 0 && t > ft {
        lemma_fly_dist_nonneg(speed, ft, rt, t - ft - rt);
        assert(speed * ft >= 0) by (nonlinear_arith)
            requires
                speed >= 0,
                ft >= 0,
        ;
    } else if t > 0 {
        assert(speed * t >= 0) by (nonlinear_arith)
            requires
                speed >= 0,
                t >= 0,
        ;
    }
}

/// Largest distance any of the racers reaches in `t` seconds.
pub open spec fn best_distance(rs: Seq<Reindeer>, t: int) -> int
    decreases rs.len(),
{
    if rs.len() == 0 {
        0
    } else {
        let d = fly_dist(
            rs.last().flying_speed as int,
            rs.last().flying_time as int,
            rs.last().rest_time as int,
            t,
        );
        let rest = best_distance(rs.drop_last(), t);
        if d >= rest {
            d
        } else {
            rest
        }
    }
}

/// Every racer has a positive cycle, so the race makes progress.
pub open spec fn racers_ok(rs: Seq<Reindeer>) -> bool {
    forall|i: int|
        0 <= i < rs.len() ==> (#[trigger] rs[i]).flying_time + rs[i].rest_time >= 1
}

/// No racer's total distance can overflow the distance counter.
pub open spec fn distances_fit(rs: Seq<Reindeer>, t: int) -> bool {
    forall|i: int|
        0 <= i < rs.len() ==> fly_dist(
            (#[trigger] rs[i]).flying_speed as int,
            rs[i].flying_time as int,
            rs[i].rest_time as int,
            t,
        ) <= u32::MAX
}

/// Distance travelled by the winning reindeer after `race_time` seconds.
pub fn distance_winning_reindeer_traveled(reindeer: &[Reindeer], race_time: u32) -> (r: u32)
    requires
        reindeer@.len() > 0,
        racers_ok(reindeer@),
        distances_fit(reindeer@, race_time as int),
    ensures
        r == best_distance(reindeer@, race_time as int),
{
    let n = reindeer.len();
    let mut best: u32 = 0;
    let mut i: usize = 0;
    while i < n
        invariant
            n == reindeer@.len(),
            i <= n,
            racers_ok(reindeer@),
            distances_fit(reindeer@, race_time as int),
            best == best_distance(reindeer@.take(i as int), race_time as int),
        decreases n - i,
    {
        let racer = &reindeer[i];
        let ghost speed = racer.flying_speed as int;
        let ghost ft = racer.flying_time as int;
        let ghost rt = racer.rest_time as int;
        let mut time_left = race_time;
        let mut distance: u32 = 0;
        proof {
            lemma_fly_dist_nonneg(speed, ft, rt, race_time as int);
        }
        while time_left != 0
            invariant
                speed == racer.flying_speed as int,
                ft == racer.flying_time as int,
                rt == racer.rest_time as int,
                ft + rt >= 1,
                fly_dist(speed, ft, rt, race_time as int) <= u32::MAX,
                distance + fly_dist(speed, ft, rt, time_left as int) == fly_dist(
                    speed,
                    ft,
                    rt,
                    race_time as int,
                ),
                fly_dist(speed, ft, rt, time_left as int) >= 0,
            decreases time_left,
        {
            let flying_time = if time_left >= racer.flying_time {
                racer.flying_time
            } else {
                time_left
            };
            proof {
                lemma_fly_dist_nonneg(speed, ft, rt, time_left as int - ft - rt);
                lemma_fly_dist_nonneg(speed, ft, rt, time_left as int);
                if time_left as int <= ft {
                    assert(fly_dist(speed, ft, rt, time_left as int) == speed * time_left as int);
                } else {
                    assert(fly_dist(speed, ft, rt, time_left as int) == speed * ft + fly_dist(
                        speed,
                        ft,
                        rt,
                        time_left as int - ft - rt,
                    ));
                }
                assert(speed * flying_time as int <= fly_dist(speed, ft, rt, time_left as int));
            }
            distance = distance + racer.flying_speed * flying_time;
            time_left = time_left - flying_time;
            let rest_time = if time_left >= racer.rest_time {
                racer.rest_time
            } else {
                time_left
            };
            time_left = time_left - rest_time;
            proof {
                lemma_fly_dist_nonneg(speed, ft, rt, time_left as int);
            }
        }
        proof {
            assert(reindeer@.take(i + 1).drop_last() =~= reindeer@.take(i as int));
            assert(reindeer@.take(i + 1).last() == reindeer@[i as int]);
        }
        if distance > best {
            best = distance;
        }
        i = i + 1;
    }
    proof {
        assert(reindeer@.take(n as int) =~= reindeer@);
    }
    best
}

/// A racer's current activity and how long it has been at it.
#[derive(Clone, Copy, Debug)]
pub enum RacerState {
    Flying(u32),
    Resting(u32),
}

/// Per-racer simulation state for the points-based race.
#[derive(Clone, Copy, Debug)]
pub struct Racer {
    pub state: RacerState,
    pub distance: u32,
    pub points: u32,
}

impl Racer {
    /// A racer on the starting line.
    pub fn new() -> (r: Racer)
        ensures
            r == initial_racer(),
    {
        Racer { state: RacerState::Flying(0), distance: 0, points: 0 }
    }
}

impl Default for Racer {
    /// A racer on the starting line.
    fn default() -> (r: Racer)
        ensures
            r == initial_racer(),
    {
        Racer::new()
    }
}

/// The state every racer starts in.
pub open spec fn initial_racer() -> Racer {
    Racer { state: RacerState::Flying(0), distance: 0, points: 0 }
}

/// One second of movement for one racer: fly while flying time remains,
/// otherwise rest until the rest time is served.
pub open spec fn step_racer(deer: Reindeer, r: Racer) -> Racer {
    match r.state {
        RacerState::Flying(n) => {
            if n == deer.flying_time {
                Racer { state: RacerState::Resting(1), distance: r.distance, points: r.points }
            } else {
                Racer {
                    state: RacerState::Flying((n + 1) as u32),
                    distance: (r.distance + deer.flying_speed) as u32,
                    points: r.points,
                }
            }
        },
        RacerState::Resting(n) => {
            if n == deer.rest_time {
                Racer {
                    state: RacerState::Flying(1),
                    distance: (r.distance + deer.flying_speed) as u32,
                    points: r.points,
                }
            } else {
                Racer { state: RacerState::Resting((n + 1) as u32), distance: r.distance, points: r.points }
            }
        },
    }
}

/// Largest distance among the racers.
pub open spec fn lead_distance(racers: Seq<Racer>) -> int
    decreases racers.len(),
{
    if racers.len() == 0 {
        0
    } else {
        let d = racers.last().distance as int;
        let rest = lead_distance(racers.drop_last());
        if d >= rest {
            d
        } else {
            rest
        }
    }
}

/// Every racer tied for the lead is awarded one point.
pub open spec fn award_points(racers: Seq<Racer>) -> Seq<Racer> {
    Seq::new(
        racers.len(),
        |i: int|
            if racers[i].distance == lead_distance(racers) {
                Racer {
                    state: racers[i].state,
                    distance: racers[i].distance,
                    points: (racers[i].points + 1) as u32,
                }
            } else {
                racers[i]
            },
    )
}

/// The field of racers after `t` seconds of racing and awarding.
pub open spec fn race_state(rs: Seq<Reindeer>, t: int) -> Seq<Racer>
    decreases t,
{
    if t <= 0 {
        Seq::new(rs.len(), |i: int| initial_racer())
    } else {
        award_points(Seq::new(rs.len(), |i: int| step_racer(rs[i], race_state(rs, t - 1)[i])))
    }
}

/// Most points any racer holds.
pub open spec fn best_points(racers: Seq<Racer>) -> int
    decreases racers.len(),
{
    if racers.len() == 0 {
        0
    } else {
        let p = racers.last().points as int;
        let rest = best_points(racers.drop_last());
        if p >= rest {
            p
        } else {
            rest
        }
    }
}

/// Bounds that hold of every racer throughout the simulation: distance grows
/// by at most the speed per second, points by at most one, and activity
/// counters by at most one.
proof fn lemma_race_state_bounds(rs: Seq<Reindeer>, t: int, cap: int)
    requires
        0 <= t <= cap,
        cap + 1 <= u32::MAX,
        forall|i: int| 0 <= i < rs.len() ==> (#[trigger] rs[i]).flying_speed * cap <= u32::MAX,
    ensures
        race_state(rs, t).len() == rs.len(),
        forall|i: int|
            0 <= i < rs.len() ==> (#[trigger] race_state(rs, t)[i]).distance
                <= rs[i].flying_speed * t && race_state(rs, t)[i].points <= t && (match race_state(
                rs,
                t,
            )[i].state {
                RacerState::Flying(n) => n <= t,
                RacerState::Resting(n) => n <= t,
            }),
    decreases t,
{
    if t > 0 {
        lemma_race_state_bounds(rs, t - 1, cap);
        let prev = race_state(rs, t - 1);
        let stepped = Seq::new(rs.len(), |i: int| step_racer(rs[i], prev[i]));
        assert(race_state(rs, t) == award_points(stepped));
        assert forall|i: int|
            0 <= i < rs.len() implies (#[trigger] race_state(rs, t)[i]).distance
                <= rs[i].flying_speed * t && race_state(rs, t)[i].points <= t && (match race_state(
                rs,
                t,
            )[i].state {
                RacerState::Flying(n) => n <= t,
                RacerState::Resting(n) => n <= t,
            }) by {
            let s = rs[i].flying_speed as int;
            assert(s * t == s * (t - 1) + s) by (nonlinear_arith);
            assert(s * t <= s * cap) by (nonlinear_arith)
                requires
                    0 <= s,
                    t <= cap,
            ;
            assert(prev[i].distance <= s * (t - 1));
            assert(stepped[i] == step_racer(rs[i], prev[i]));
        };
    }
}

/// Points held by the winning reindeer after `race_time` seconds, with one
/// point per second awarded to every racer tied for the lead.
pub fn points_awarded_winning_reindeer(reindeer: &[Reindeer], race_time: u32) -> (r: u32)
    requires
        reindeer@.len() > 0,
        race_time < u32::MAX,
        forall|i: int|
            0 <= i < reindeer@.len() ==> (#[trigger] reindeer@[i]).flying_speed * race_time
                <= u32::MAX,
        forall|i: int, j: int|
            0 <= i < j < reindeer@.len() ==> (#[trigger] reindeer@[i]).name@ != (
            #[trigger] reindeer@[j]).name@,
    ensures
        r == best_points(race_state(reindeer@, race_time as int)),
{
    let n = reindeer.len();
    let mut racers: Vec<Racer> = Vec::new();
    let mut i: usize = 0;
    while i < n
        invariant
            i <= n,
            racers@.len() == i,
            forall|j: int| 0 <= j < i ==> racers@[j] == initial_racer(),
        decreases n - i,
    {
        racers.push(Racer::new());
        i = i + 1;
    }
    proof {
        assert(racers@ =~= race_state(reindeer@, 0));
    }
    let mut sec: u32 = 0;
    while sec < race_time
        invariant
            n == reindeer@.len(),
            n > 0,
            sec <= race_time,
            race_time < u32::MAX,
            forall|i: int|
                0 <= i < reindeer@.len() ==> (#[trigger] reindeer@[i]).flying_speed * race_time
                    <= u32::MAX,
            racers@ == race_state(reindeer@, sec as int),
        decreases race_time - sec,
    {
        let ghost prev = racers@;
        proof {
            lemma_race_state_bounds(reindeer@, sec as int, race_time as int);
        }
        let mut i: usize = 0;
        while i < n
            invariant
                n == reindeer@.len(),
                i <= n,
                sec < race_time,
                race_time < u32::MAX,
                forall|i: int|
                    0 <= i < reindeer@.len() ==> (#[trigger] reindeer@[i]).flying_speed
                        * race_time <= u32::MAX,
                racers@.len() == n,
                prev == race_state(reindeer@, sec as int),
                forall|j: int|
                    0 <= j < i ==> racers@[j] == step_racer(reindeer@[j], #[trigger] prev[j]),
                forall|j: int| i <= j < n ==> #[trigger] racers@[j] == prev[j],
            decreases n - i,
        {
            proof {
                lemma_race_state_bounds(reindeer@, sec as int, race_time as int);
                let s = reindeer@[i as int].flying_speed as int;
                assert(prev[i as int].distance <= s * sec);
                assert(s * sec + s == s * (sec + 1)) by (nonlinear_arith);
                assert(s * (sec + 1) <= s * race_time) by (nonlinear_arith)
                    requires
                        0 <= s,
                        sec + 1 <= race_time,
                ;
            }
            let deer = &reindeer[i];
            let updated = match racers[i].state {
                RacerState::Flying(c) => {
                    if c == deer.flying_time {
                        Racer {
                            state: RacerState::Resting(1),
                            distance: racers[i].distance,
                            points: racers[i].points,
                        }
                    } else {
                        Racer {
                            state: RacerState::Flying(c + 1),
                            distance: racers[i].distance + deer.flying_speed,
                            points: racers[i].points,
                        }
                    }
                },
                RacerState::Resting(c) => {
                    if c == deer.rest_time {
                        Racer {
                            state: RacerState::Flying(1),
                            distance: racers[i].distance + deer.flying_speed,
                            points: racers[i].points,
                        }
                    } else {
                        Racer {
                            state: RacerState::Resting(c + 1),
                            distance: racers[i].distance,
                            points: racers[i].points,
                        }
                    }
                },
            };
            racers.set(i, updated);
            i = i + 1;
        }
        let ghost stepped = Seq::new(
            reindeer@.len(),
            |j: int| step_racer(reindeer@[j], prev[j]),
        );
        proof {
            assert(racers@ =~= stepped);
        }
        let mut lead: u32 = 0;
        let mut i: usize = 0;
        while i < n
            invariant
                i <= n,
                racers@.len() == n,
                lead == lead_distance(racers@.take(i as int)),
            decreases n - i,
        {
            proof {
                assert(racers@.take(i + 1).drop_last() =~= racers@.take(i as int));
                assert(racers@.take(i + 1).last() == racers@[i as int]);
            }
            if racers[i].distance > lead {
                lead = racers[i].distance;
            }
            i = i + 1;
        }
        proof {
            assert(racers@.take(n as int) =~= racers@);
        }
        let ghost before_award = racers@;
        let mut i: usize = 0;
        while i < n
            invariant
                i <= n,
                sec < race_time,
                racers@.len() == n,
                before_award.len() == n,
                lead == lead_distance(before_award),
                before_award == stepped,
                prev == race_state(reindeer@, sec as int),
                stepped == Seq::new(
                    reindeer@.len(),
                    |j: int| step_racer(reindeer@[j], prev[j]),
                ),
                n == reindeer@.len(),
                race_time < u32::MAX,
                forall|i: int|
                    0 <= i < reindeer@.len() ==> (#[trigger] reindeer@[i]).flying_speed
                        * race_time <= u32::MAX,
                forall|j: int|
                    0 <= j < i ==> #[trigger] racers@[j] == award_points(before_award)[j],
                forall|j: int| i <= j < n ==> #[trigger] racers@[j] == before_award[j],
            decreases n - i,
        {
            proof {
                lemma_race_state_bounds(reindeer@, sec as int, race_time as int);
                lemma_race_state_bounds(reindeer@, sec as int + 1, race_time as int);
                assert(race_state(reindeer@, sec as int + 1) == award_points(stepped));
                assert(race_state(reindeer@, sec as int + 1)[i as int].points <= sec + 1);
                assert(award_points(before_award)[i as int].points <= sec + 1);
            }
            if racers[i].distance == lead {
                let bumped = Racer {
                    state: racers[i].state,
                    distance: racers[i].distance,
                    points: racers[i].points + 1,
                };
                racers.set(i, bumped);
            }
            i = i + 1;
        }
        proof {
            assert(racers@ =~= award_points(stepped));
            assert(racers@ == race_state(reindeer@, sec as int + 1));
        }
        sec = sec + 1;
    }
    let mut best: u32 = 0;
    let mut i: usize = 0;
    while i < n
        invariant
            i <= n,
            racers@.len() == n,
            best == best_points(racers@.take(i as int)),
        decreases n - i,
    {
        proof {
            assert(racers@.take(i + 1).drop_last() =~= racers@.take(i as int));
            assert(racers@.take(i + 1).last() == racers@[i as int]);
        }
        if racers[i].points > best {
            best = racers[i].points;
        }
        i = i + 1;
    }
    proof {
        assert(racers@.take(n as int) =~= racers@);
    }
    best
}

pub open spec fn can_word() -> Seq<char> {
    seq!['c', 'a', 'n']
}

pub open spec fn fly_word() -> Seq<char> {
    seq!['f', 'l', 'y']
}

pub open spec fn kms_word() -> Seq<char> {
    seq!['k', 'm', '/', 's']
}

pub open spec fn for_word() -> Seq<char> {
    seq!['f', 'o', 'r']
}

pub open spec fn seconds_comma_word() -> Seq<char> {
    seq!['s', 'e', 'c', 'o', 'n', 'd', 's', ',']
}

pub open spec fn but_word() -> Seq<char> {
    seq!['b', 'u', 't']
}

pub open spec fn then_word() -> Seq<char> {
    seq!['t', 'h', 'e', 'n']
}

pub open spec fn must_word() -> Seq<char> {
    seq!['m', 'u', 's', 't']
}

pub open spec fn rest_word() -> Seq<char> {
    seq!['r', 'e', 's', 't']
}

pub open spec fn seconds_stop_word() -> Seq<char> {
    seq!['s', 'e', 'c', 'o', 'n', 'd', 's', '.']
}

pub open spec fn digits_tok(t: Seq<char>) -> bool {
    t.len() > 0 && crate::util::all_digits(t)
}

/// The racer profile a description line stands for, before any size check:
/// `<name> can fly <speed> km/s for <time> seconds, but then must rest for
/// <time> seconds.`
pub open spec fn reindeer_of(s: Seq<char>) -> Option<(Seq<char>, int, int, int)> {
    let toks = split_char(s, ' ');
    if toks.len() == 15 && is_word(toks[0]) && toks[1] == can_word() && toks[2] == fly_word()
        && digits_tok(toks[3]) && toks[4] == kms_word() && toks[5] == for_word() && digits_tok(
        toks[6],
    ) && toks[7] == seconds_comma_word() && toks[8] == but_word() && toks[9] == then_word()
        && toks[10] == must_word() && toks[11] == rest_word() && toks[12] == for_word()
        && digits_tok(toks[13]) && toks[14] == seconds_stop_word() {
        Some((toks[0], num_val(toks[3]), num_val(toks[6]), num_val(toks[13])))
    } else {
        None
    }
}

impl Reindeer {
    /// Parses one description line. `Ok` exactly when the line fits the
    /// sentence format that [`reindeer_of`] describes; numbers too large for
    /// 32 bits are ruled out by the precondition, as real inputs always fit.
    pub fn from_str(s: &str) -> (r: Result<Reindeer, ()>)
        requires
            reindeer_of(s@) matches Some((n, sp, ft, rt)) ==> sp <= u32::MAX && ft <= u32::MAX
                && rt <= u32::MAX,
        ensures
            match r {
                Ok(deer) => reindeer_of(s@) == Some(
                    (
                        deer.name@,
                        deer.flying_speed as int,
                        deer.flying_time as int,
                        deer.rest_time as int,
                    ),
                ),
                Err(_) => reindeer_of(s@) is None,
            },
    {
        proof {
            reveal_strlit("can");
            reveal_strlit("fly");
            reveal_strlit("km/s");
            reveal_strlit("for");
            reveal_strlit("seconds,");
            reveal_strlit("but");
            reveal_strlit("then");
            reveal_strlit("must");
            reveal_strlit("rest");
            reveal_strlit("seconds.");
            assert("can"@ =~= can_word());
            assert("fly"@ =~= fly_word());
            assert("km/s"@ =~= kms_word());
            assert("for"@ =~= for_word());
            assert("seconds,"@ =~= seconds_comma_word());
            assert("but"@ =~= but_word());
            assert("then"@ =~= then_word());
            assert("must"@ =~= must_word());
            assert("rest"@ =~= rest_word());
            assert("seconds."@ =~= seconds_stop_word());
        }
        let bounds = split_bounds(s, ' ');
        if bounds.len() != 15 {
            return Err(());
        }
        let name = s.substring_char(bounds[0].0, bounds[0].1);
        if !is_word_str(name) {
            return Err(());
        }
        let fixed_ok = str_eq(s.substring_char(bounds[1].0, bounds[1].1), "can") && str_eq(
            s.substring_char(bounds[2].0, bounds[2].1),
            "fly",
        ) && str_eq(s.substring_char(bounds[4].0, bounds[4].1), "km/s") && str_eq(
            s.substring_char(bounds[5].0, bounds[5].1),
            "for",
        ) && str_eq(s.substring_char(bounds[7].0, bounds[7].1), "seconds,") && str_eq(
            s.substring_char(bounds[8].0, bounds[8].1),
            "but",
        ) && str_eq(s.substring_char(bounds[9].0, bounds[9].1), "then") && str_eq(
            s.substring_char(bounds[10].0, bounds[10].1),
            "must",
        ) && str_eq(s.substring_char(bounds[11].0, bounds[11].1), "rest") && str_eq(
            s.substring_char(bounds[12].0, bounds[12].1),
            "for",
        ) && str_eq(s.substring_char(bounds[14].0, bounds[14].1), "seconds.");
        if !fixed_ok {
            return Err(());
        }
        let speed = match parse_decimal(s.substring_char(bounds[3].0, bounds[3].1)) {
            Some(v) => v,
            None => {
                return Err(());
            },
        };
        let ftime = match parse_decimal(s.substring_char(bounds[6].0, bounds[6].1)) {
            Some(v) => v,
            None => {
                return Err(());
            },
        };
        let rtime = match parse_decimal(s.substring_char(bounds[13].0, bounds[13].1)) {
            Some(v) => v,
            None => {
                return Err(());
            },
        };
        proof {
            if speed > u32::MAX || ftime > u32::MAX || rtime > u32::MAX {
                assert(false);
            }
        }
        Ok(
            Reindeer {
                name: name.to_owned(),
                flying_speed: speed as u32,
                flying_time: ftime as u32,
                rest_time: rtime as u32,
            },
        )
    }
}

} // verus!
