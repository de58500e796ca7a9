use vstd::prelude::*;

verus! {

/// A player, identified by name alone. One `Player` exists per distinct
/// name across the whole input; players are never removed.
#[derive(Debug, PartialEq, Eq, Hash, Clone)]
pub struct Player {
    pub name: String,
}

impl Player {
    pub fn new(name: String) -> (p: Player)
        ensures
            p.name@ == name@,
    {
        Player { name }
    }
}

/// One input row: a season year, a player name, and the team the player
/// appeared for. The team is carried through but never read by the
/// graph logic.
#[derive(Debug, Clone)]
pub struct Record {
    pub season: i32,
    pub name: String,
    pub team: String,
}

impl Record {
    pub fn new(season: i32, name: String, team: String) -> (r: Record)
        ensures
            r.season == season,
            r.name@ == name@,
            r.team@ == team@,
    {
        Record { season, name, team }
    }
}

/// Two records taken in input order are close enough for an edge when the
/// later season exceeds the earlier one by at most 1.
pub open spec fn close_seasons(prev: Record, cur: Record) -> bool {
    cur.season - prev.season <= 1
}

/// Runtime test for `close_seasons`; the widening to 64 bits keeps the
/// subtraction exact for every pair of 32-bit seasons.
pub fn close_seasons_check(prev: &Record, cur: &Record) -> (b: bool)
    ensures
        b == close_seasons(*prev, *cur),
{
    (cur.season as i64) - (prev.season as i64) <= 1
}

} // verus!
