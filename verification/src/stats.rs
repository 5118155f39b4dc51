//! Aggregate reporting over a snapshot of the registry: how many rooms and
//! how many members each game label has.

use crate::rooms::Member;
use crate::rooms::Room;
use crate::rooms::Rooms;
use crate::tag::Tagged;
use vstd::prelude::*;

verus! {

/// How many stored records carry the game label `g`.
pub open spec fn rooms_with_game(s: Seq<(u128, Tagged<Room>)>, g: Seq<char>) -> nat
    decreases s.len(),
{
    if s.len() == 0 {
        0
    } else {
        rooms_with_game(s.drop_last(), g) + (if s.last().1.value.preferred_game_name@ == g {
            1nat
        } else {
            0nat
        })
    }
}

/// How many members of one list carry the game label `g`.
pub open spec fn members_in_list(ps: Seq<Member>, g: Seq<char>) -> nat
    decreases ps.len(),
{
    if ps.len() == 0 {
        0
    } else {
        members_in_list(ps.drop_last(), g) + (if ps.last().game_name@ == g {
            1nat
        } else {
            0nat
        })
    }
}

/// How many members across all stored records carry the game label `g`.
pub open spec fn members_with_game(s: Seq<(u128, Tagged<Room>)>, g: Seq<char>) -> nat
    decreases s.len(),
{
    if s.len() == 0 {
        0
    } else {
        members_with_game(s.drop_last(), g) + members_in_list(s.last().1.value.players@, g)
    }
}

/// A tally clipped to what a 64-bit counter can hold.
pub open spec fn cap64(n: nat) -> nat {
    if n > u64::MAX {
        u64::MAX as nat
    } else {
        n
    }
}

/// Room and member tallies per game label; each label appears once per
/// table.
pub struct GameStats {
    pub room_count_by_game: Vec<(String, u64)>,
    pub member_count_by_game: Vec<(String, u64)>,
}

/// Some pair of `keys` carries the label `x`.
pub open spec fn covered(keys: Seq<(String, u64)>, x: Seq<char>) -> bool {
    exists|p: int| 0 <= p < keys.len() && keys[p].0@ == x
}

/// A label stays covered when a pair is appended, and the appended pair's
/// own label becomes covered.
proof fn lemma_covered_push(pre: Seq<(String, u64)>, e: (String, u64), x: Seq<char>)
    requires
        covered(pre, x) || e.0@ == x,
    ensures
        covered(pre.push(e), x),
{
    if covered(pre, x) {
        let p = choose|p: int| 0 <= p < pre.len() && pre[p].0@ == x;
        assert(pre.push(e)[p] == pre[p]);
    } else {
        assert(pre.push(e)[pre.len() as int] == e);
    }
}

/// An uncovered label differs from every stored one.
proof fn lemma_uncovered_all(pre: Seq<(String, u64)>, x: Seq<char>)
    requires
        !covered(pre, x),
    ensures
        forall|p: int| 0 <= p < pre.len() ==> pre[p].0@ != x,
{
    assert forall|p: int| 0 <= p < pre.len() implies pre[p].0@ != x by {
        if pre[p].0@ == x {
            assert(covered(pre, x));
        }
    }
}

/// Whether some pair of `keys` already carries the label `g`.
fn has_label(keys: &Vec<(String, u64)>, g: &String) -> (r: bool)
    ensures
        r <==> covered(keys@, g@),
{
    let mut p: usize = 0;
    while p < keys.len()
        invariant
            p <= keys@.len(),
            forall|i: int| 0 <= i < p ==> keys@[i].0@ != g@,
        decreases keys@.len() - p,
    {
        if keys[p].0 == *g {
            proof {
                assert(0 <= p < keys@.len() && keys@[p as int].0@ == g@);
            }
            return true;
        }
        p += 1;
    }
    proof {
        lemma_uncovered_all(keys@, g@);
        if covered(keys@, g@) {
            let q = choose|q: int| 0 <= q < keys@.len() && keys@[q].0@ == g@;
            assert(keys@[q].0@ != g@);
        }
    }
    false
}

impl Rooms {
    /// Count the stored records whose game label is `g`.
    fn count_rooms_matching(&self, g: &String) -> (n: u64)
        ensures
            n as nat == rooms_with_game(self.entries(), g@),
    {
        let mut n: u64 = 0;
        let mut j: usize = 0;
        while j < self.rooms.len()
            invariant
                j <= self.entries().len(),
                n as nat <= j,
                n as nat == rooms_with_game(self.entries().take(j as int), g@),
            decreases self.entries().len() - j,
        {
            if self.rooms.at(j).1.value.preferred_game_name == *g {
                n += 1;
            }
            proof {
                assert(self.entries().take(j + 1).drop_last() =~= self.entries().take(j as int));
                assert(self.entries().take(j + 1).last() == self.entries()[j as int]);
            }
            j += 1;
        }
        proof {
            assert(self.entries().take(self.entries().len() as int) =~= self.entries());
        }
        n
    }

    /// Count the members across all stored records whose own game label is
    /// `g`; a tally past what 64 bits hold is clipped there.
    fn count_members_matching(&self, g: &String) -> (n: u64)
        ensures
            n as nat == cap64(members_with_game(self.entries(), g@)),
    {
        let mut n: u64 = 0;
        let mut j: usize = 0;
        while j < self.rooms.len()
            invariant
                j <= self.entries().len(),
                n as nat == cap64(members_with_game(self.entries().take(j as int), g@)),
            decreases self.entries().len() - j,
        {
            let players = &self.rooms.at(j).1.value.players;
            let mut m: u64 = 0;
            let mut q: usize = 0;
            while q < players.len()
                invariant
                    q <= players@.len(),
                    m as nat <= q,
                    m as nat == members_in_list(players@.take(q as int), g@),
                decreases players@.len() - q,
            {
                if players[q].game_name == *g {
                    m += 1;
                }
                proof {
                    assert(players@.take(q + 1).drop_last() =~= players@.take(q as int));
                    assert(players@.take(q + 1).last() == players@[q as int]);
                }
                q += 1;
            }
            proof {
                assert(players@.take(players@.len() as int) =~= players@);
            }
            n = if n > u64::MAX - m {
                u64::MAX
            } else {
                n + m
            };
            proof {
                assert(self.entries().take(j + 1).drop_last() =~= self.entries().take(j as int));
                assert(self.entries().take(j + 1).last() == self.entries()[j as int]);
            }
            j += 1;
        }
        proof {
            assert(self.entries().take(self.entries().len() as int) =~= self.entries());
        }
        n
    }

    /// Aggregate, purely from a snapshot of the stored rooms: how many rooms
    /// each game label has, and how many members each game label has. Every
    /// label that occurs appears exactly once in its table, with its exact
    /// tally.
    pub fn stats(&self) -> (r: GameStats)
        ensures
            forall|a: int, b: int|
                0 <= a < b < r.room_count_by_game@.len() ==> r.room_count_by_game@[a].0@
                    != r.room_count_by_game@[b].0@,
            forall|p: int|
                0 <= p < r.room_count_by_game@.len() ==> #[trigger] r.room_count_by_game@[p].1
                    as nat == rooms_with_game(self.entries(), r.room_count_by_game@[p].0@),
            forall|i: int|
                0 <= i < self.entries().len() ==> covered(
                    r.room_count_by_game@,
                    #[trigger] self.entries()[i].1.value.preferred_game_name@,
                ),
            forall|a: int, b: int|
                0 <= a < b < r.member_count_by_game@.len() ==> r.member_count_by_game@[a].0@
                    != r.member_count_by_game@[b].0@,
            forall|p: int|
                0 <= p < r.member_count_by_game@.len() ==> #[trigger] r.member_count_by_game@[p].1
                    as nat == cap64(
                    members_with_game(self.entries(), r.member_count_by_game@[p].0@),
                ),
            forall|i: int, q: int|
                0 <= i < self.entries().len() && 0 <= q
                    < self.entries()[i].1.value.players@.len() ==> covered(
                    r.member_count_by_game@,
                    #[trigger] self.entries()[i].1.value.players@[q].game_name@,
                ),
    {
        let mut room_counts: Vec<(String, u64)> = Vec::new();
        let mut j: usize = 0;
        while j < self.rooms.len()
            invariant
                j <= self.entries().len(),
                forall|a: int, b: int|
                    0 <= a < b < room_counts@.len() ==> room_counts@[a].0@ != room_counts@[b].0@,
                forall|p: int|
                    0 <= p < room_counts@.len() ==> #[trigger] room_counts@[p].1 as nat
                        == rooms_with_game(self.entries(), room_counts@[p].0@),
                forall|i: int|
                    0 <= i < j ==> covered(
                        room_counts@,
                        #[trigger] self.entries()[i].1.value.preferred_game_name@,
                    ),
            decreases self.entries().len() - j,
        {
            let g = &self.rooms.at(j).1.value.preferred_game_name;
            let ghost pre = room_counts@;
            if !has_label(&room_counts, g) {
                let n = self.count_rooms_matching(g);
                room_counts.push((g.clone(), n));
                proof {
                    lemma_uncovered_all(pre, g@);
                    assert forall|a: int, b: int|
                        0 <= a < b < room_counts@.len() implies room_counts@[a].0@
                        != room_counts@[b].0@ by {
                        assert(room_counts@[a] == pre[a]);
                        if b < room_counts@.len() - 1 {
                            assert(room_counts@[b] == pre[b]);
                        } else {
                            assert(room_counts@[b].0@ == g@);
                            assert(pre[a].0@ != g@);
                        }
                    }
                    assert forall|p: int|
                        0 <= p < room_counts@.len() implies #[trigger] room_counts@[p].1 as nat
                        == rooms_with_game(self.entries(), room_counts@[p].0@) by {
                        if p < room_counts@.len() - 1 {
                            assert(room_counts@[p] == pre[p]);
                        } else {
                            assert(room_counts@[p].1 == n && room_counts@[p].0@ == g@);
                        }
                    }
                    assert forall|i: int| 0 <= i < j + 1 implies covered(
                        room_counts@,
                        #[trigger] self.entries()[i].1.value.preferred_game_name@,
                    ) by {
                        if i < j {
                            lemma_covered_push(
                                pre,
                                (room_counts@.last()),
                                self.entries()[i].1.value.preferred_game_name@,
                            );
                            assert(pre.push(room_counts@.last()) =~= room_counts@);
                        } else {
                            lemma_covered_push(
                                pre,
                                (room_counts@.last()),
                                g@,
                            );
                            assert(pre.push(room_counts@.last()) =~= room_counts@);
                        }
                    }
                }
            } else {
                proof {
                    assert forall|i: int| 0 <= i < j + 1 implies covered(
                        room_counts@,
                        #[trigger] self.entries()[i].1.value.preferred_game_name@,
                    ) by {
                        if i == j {
                            assert(covered(room_counts@, g@));
                        }
                    }
                }
            }
            j += 1;
        }
        let mut member_counts: Vec<(String, u64)> = Vec::new();
        let mut i: usize = 0;
        while i < self.rooms.len()
            invariant
                i <= self.entries().len(),
                forall|a: int, b: int|
                    0 <= a < b < member_counts@.len() ==> member_counts@[a].0@
                        != member_counts@[b].0@,
                forall|p: int|
                    0 <= p < member_counts@.len() ==> #[trigger] member_counts@[p].1 as nat
                        == cap64(members_with_game(self.entries(), member_counts@[p].0@)),
                forall|i0: int, q0: int|
                    0 <= i0 < i && 0 <= q0 < self.entries()[i0].1.value.players@.len() ==> covered(
                        member_counts@,
                        #[trigger] self.entries()[i0].1.value.players@[q0].game_name@,
                    ),
            decreases self.entries().len() - i,
        {
            let players = &self.rooms.at(i).1.value.players;
            let mut q: usize = 0;
            while q < players.len()
                invariant
                    q <= players@.len(),
                    i < self.entries().len(),
                    players@ == self.entries()[i as int].1.value.players@,
                    forall|a: int, b: int|
                        0 <= a < b < member_counts@.len() ==> member_counts@[a].0@
                            != member_counts@[b].0@,
                    forall|p: int|
                        0 <= p < member_counts@.len() ==> #[trigger] member_counts@[p].1 as nat
                            == cap64(members_with_game(self.entries(), member_counts@[p].0@)),
                    forall|i0: int, q0: int|
                        0 <= i0 < i && 0 <= q0 < self.entries()[i0].1.value.players@.len()
                            ==> covered(
                            member_counts@,
                            #[trigger] self.entries()[i0].1.value.players@[q0].game_name@,
                        ),
                    forall|q0: int|
                        0 <= q0 < q ==> covered(
                            member_counts@,
                            #[trigger] players@[q0].game_name@,
                        ),
                decreases players@.len() - q,
            {
                let g = &players[q].game_name;
                let ghost pre = member_counts@;
                if !has_label(&member_counts, g) {
                    let n = self.count_members_matching(g);
                    member_counts.push((g.clone(), n));
                    proof {
                        lemma_uncovered_all(pre, g@);
                        assert forall|a: int, b: int|
                            0 <= a < b < member_counts@.len() implies member_counts@[a].0@
                            != member_counts@[b].0@ by {
                            assert(member_counts@[a] == pre[a]);
                            if b < member_counts@.len() - 1 {
                                assert(member_counts@[b] == pre[b]);
                            } else {
                                assert(member_counts@[b].0@ == g@);
                                assert(pre[a].0@ != g@);
                            }
                        }
                        assert forall|p: int|
                            0 <= p < member_counts@.len() implies #[trigger] member_counts@[p].1
                            as nat == cap64(
                            members_with_game(self.entries(), member_counts@[p].0@),
                        ) by {
                            if p < member_counts@.len() - 1 {
                                assert(member_counts@[p] == pre[p]);
                            } else {
                                assert(member_counts@[p].1 == n && member_counts@[p].0@ == g@);
                            }
                        }
                        assert(pre.push(member_counts@.last()) =~= member_counts@);
                        assert forall|i0: int, q0: int|
                            0 <= i0 < i && 0 <= q0
                                < self.entries()[i0].1.value.players@.len() implies covered(
                            member_counts@,
                            #[trigger] self.entries()[i0].1.value.players@[q0].game_name@,
                        ) by {
                            lemma_covered_push(
                                pre,
                                (member_counts@.last()),
                                self.entries()[i0].1.value.players@[q0].game_name@,
                            );
                        }
                        assert forall|q0: int| 0 <= q0 < q + 1 implies covered(
                            member_counts@,
                            #[trigger] players@[q0].game_name@,
                        ) by {
                            lemma_covered_push(
                                pre,
                                (member_counts@.last()),
                                players@[q0].game_name@,
                            );
                        }
                    }
                } else {
                    proof {
                        assert forall|q0: int| 0 <= q0 < q + 1 implies covered(
                            member_counts@,
                            #[trigger] players@[q0].game_name@,
                        ) by {
                            if q0 == q {
                                assert(covered(member_counts@, g@));
                            }
                        }
                    }
                }
                q += 1;
            }
            proof {
                assert forall|i0: int, q0: int|
                    0 <= i0 < i + 1 && 0 <= q0
                        < self.entries()[i0].1.value.players@.len() implies covered(
                    member_counts@,
                    #[trigger] self.entries()[i0].1.value.players@[q0].game_name@,
                ) by {
                    if i0 == i {
                        assert(covered(member_counts@, players@[q0].game_name@));
                    }
                }
            }
            i += 1;
        }
        GameStats { room_count_by_game: room_counts, member_count_by_game: member_counts }
    }
}

} // verus!
