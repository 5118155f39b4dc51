//! The registry: the single authoritative store of all live rooms, and the
//! coordinator that keeps the quota tracker in lock-step with it.

use crate::limit::RateLimited;
use crate::limit::UsageTracker;
use crate::limit::counts_after_decrease;
use crate::limit::counts_after_increase;
use crate::limit::DEFAULT_ROOM_LIMIT;
use crate::store::IdMap;
use crate::store::lemma_map_of_at;
use crate::store::lemma_map_of_dom;
use crate::store::lemma_not_in_map;
use crate::store::map_of;
use crate::tag::Tagged;
use vstd::prelude::*;

verus! {

/// A participant entry attached to a room; its labels are used only for
/// aggregate reporting and are never validated.
pub struct Member {
    pub nickname: String,
    pub username: String,
    pub game_name: String,
    pub avatar_url: String,
    pub game_id: u64,
}

/// A published game lobby. Beyond the identifier fields, the declared
/// address, the name, the game label and the member list, the fields pass
/// through the registry opaquely.
pub struct Room {
    pub external_guid: String,
    pub id: String,
    pub address: Option<u128>,
    pub name: String,
    pub description: String,
    pub owner: String,
    pub port: u16,
    pub preferred_game_name: String,
    pub preferred_game_id: u64,
    pub max_players: u32,
    pub net_version: u32,
    pub has_password: bool,
    pub players: Vec<Member>,
}

/// `a` carries the same data as `b`: every field is equal, the member list
/// elementwise.
pub open spec fn room_like(a: Room, b: Room) -> bool {
    &&& a.external_guid == b.external_guid
    &&& a.id == b.id
    &&& a.address == b.address
    &&& a.name == b.name
    &&& a.description == b.description
    &&& a.owner == b.owner
    &&& a.port == b.port
    &&& a.preferred_game_name == b.preferred_game_name
    &&& a.preferred_game_id == b.preferred_game_id
    &&& a.max_players == b.max_players
    &&& a.net_version == b.net_version
    &&& a.has_password == b.has_password
    &&& a.players@ == b.players@
}

impl Clone for Member {
    fn clone(&self) -> (res: Self)
        ensures
            res == *self,
    {
        Member {
            nickname: self.nickname.clone(),
            username: self.username.clone(),
            game_name: self.game_name.clone(),
            avatar_url: self.avatar_url.clone(),
            game_id: self.game_id,
        }
    }
}

/// An elementwise copy of a member list.
fn clone_members(v: &Vec<Member>) -> (r: Vec<Member>)
    ensures
        r@ == v@,
{
    let mut r: Vec<Member> = Vec::new();
    let mut j: usize = 0;
    while j < v.len()
        invariant
            j <= v@.len(),
            r@.len() == j,
            forall|i: int| 0 <= i < j ==> r@[i] == v@[i],
        decreases v@.len() - j,
    {
        r.push(v[j].clone());
        j += 1;
    }
    proof {
        assert(r@ =~= v@);
    }
    r
}

impl Clone for Room {
    fn clone(&self) -> (res: Self)
        ensures
            room_like(res, *self),
    {
        Room {
            external_guid: self.external_guid.clone(),
            id: self.id.clone(),
            address: self.address,
            name: self.name.clone(),
            description: self.description.clone(),
            owner: self.owner.clone(),
            port: self.port,
            preferred_game_name: self.preferred_game_name.clone(),
            preferred_game_id: self.preferred_game_id,
            max_players: self.max_players,
            net_version: self.net_version,
            has_password: self.has_password,
            players: clone_members(&self.players),
        }
    }
}

impl Room {
    /// The game label used for aggregate reporting.
    pub fn game_name(&self) -> (r: &String)
        ensures
            r@ == self.preferred_game_name@,
    {
        &self.preferred_game_name
    }
}

/// The error returned by a registration call.
#[derive(Clone, Copy, Debug, PartialEq, Eq, Structural)]
pub enum RegisterError {
    /// The registrant already holds as many rooms as its effective limit
    /// allows; nothing was changed.
    QuotaExceeded,
    /// The freshly generated identifier was already in use; the quota
    /// increment was rolled back and nothing was changed.
    IdConflict,
}

/// The error returned when a referenced room id is unknown.
#[derive(Clone, Copy, Debug, PartialEq, Eq, Structural)]
pub struct NotFound;

/// How many records of `s` are owned by `who`.
pub open spec fn owned_count(s: Seq<(u128, Tagged<Room>)>, who: u128) -> nat
    decreases s.len(),
{
    if s.len() == 0 {
        0
    } else {
        owned_count(s.drop_last(), who) + (if s.last().1.real_ip == who {
            1nat
        } else {
            0nat
        })
    }
}

/// Appending a record raises its owner's count by one and no other.
pub proof fn lemma_owned_push(s: Seq<(u128, Tagged<Room>)>, e: (u128, Tagged<Room>), who: u128)
    ensures
        owned_count(s.push(e), who) == owned_count(s, who) + (if e.1.real_ip == who {
            1nat
        } else {
            0nat
        }),
{
    assert(s.push(e).drop_last() =~= s);
    assert(s.push(e).last() == e);
}

/// Removing the record at `j` lowers its owner's count by one and no other.
pub proof fn lemma_owned_remove(s: Seq<(u128, Tagged<Room>)>, j: int, who: u128)
    requires
        0 <= j < s.len(),
    ensures
        owned_count(s, who) == owned_count(s.remove(j), who) + (if s[j].1.real_ip == who {
            1nat
        } else {
            0nat
        }),
    decreases s.len(),
{
    let t = s.remove(j);
    if j == s.len() - 1 {
        assert(t =~= s.drop_last());
    } else {
        lemma_owned_remove(s.drop_last(), j, who);
        assert(t.drop_last() =~= s.drop_last().remove(j));
        assert(t.last() == s.last());
        assert(s.drop_last()[j] == s[j]);
    }
}

/// Replacing the record at `j` with one of the same owner changes no count.
pub proof fn lemma_owned_update(s: Seq<(u128, Tagged<Room>)>, j: int, v: Tagged<Room>, who: u128)
    requires
        0 <= j < s.len(),
        v.real_ip == s[j].1.real_ip,
    ensures
        owned_count(s.update(j, (s[j].0, v)), who) == owned_count(s, who),
    decreases s.len(),
{
    let t = s.update(j, (s[j].0, v));
    if j == s.len() - 1 {
        assert(t.drop_last() =~= s.drop_last());
        assert(t.last() == (s[j].0, v));
    } else {
        lemma_owned_update(s.drop_last(), j, v, who);
        assert(s.drop_last()[j] == s[j]);
        assert(t.drop_last() =~= s.drop_last().update(j, (s[j].0, v)));
        assert(t.last() == s.last());
    }
}

/// A record owned by `who` makes its count positive.
pub proof fn lemma_owned_pos(s: Seq<(u128, Tagged<Room>)>, j: int, who: u128)
    requires
        0 <= j < s.len(),
        s[j].1.real_ip == who,
    ensures
        owned_count(s, who) >= 1,
    decreases s.len(),
{
    if j == s.len() - 1 {
    } else {
        assert(s.drop_last()[j] == s[j]);
        lemma_owned_pos(s.drop_last(), j, who);
    }
}

/// With no record owned by `who`, its count is zero.
pub proof fn lemma_owned_none(s: Seq<(u128, Tagged<Room>)>, who: u128)
    requires
        forall|i: int| 0 <= i < s.len() ==> s[i].1.real_ip != who,
    ensures
        owned_count(s, who) == 0,
    decreases s.len(),
{
    if s.len() == 0 {
    } else {
        assert(s[s.len() - 1].1.real_ip != who);
        assert forall|i: int| 0 <= i < s.drop_last().len() implies s.drop_last()[i].1.real_ip
            != who by {
            assert(s[i].1.real_ip != who);
        }
        lemma_owned_none(s.drop_last(), who);
    }
}

/// `candidate` with its declared address defaulted to the registrant's
/// observed identity when the caller left it unset.
pub open spec fn filled(candidate: Room, registrant: u128) -> Room {
    if candidate.address is Some {
        candidate
    } else {
        Room { address: Some(registrant), ..candidate }
    }
}

/// What `create` hands back on success: the stored data with the assigned
/// identifier written into both identifier fields.
pub open spec fn returned_room(ret: Room, candidate: Room, registrant: u128, id: u128) -> bool {
    &&& ret.external_guid@ == uuid_text_of(id)
    &&& ret.id@ == uuid_text_of(id)
    &&& ret.address == filled(candidate, registrant).address
    &&& ret.name == candidate.name
    &&& ret.description == candidate.description
    &&& ret.owner == candidate.owner
    &&& ret.port == candidate.port
    &&& ret.preferred_game_name == candidate.preferred_game_name
    &&& ret.preferred_game_id == candidate.preferred_game_id
    &&& ret.max_players == candidate.max_players
    &&& ret.net_version == candidate.net_version
    &&& ret.has_password == candidate.has_password
    &&& ret.players@ == candidate.players@
}

/// The text of the hyphenated form of a 128-bit identifier.
pub uninterp spec fn uuid_text_of(n: u128) -> Seq<char>;

/// Relies on uuid::Uuid::new_v4: a freshly drawn random identifier. Nothing
/// is assumed about the value that comes back.
#[verifier::external_body]
fn fresh_id() -> u128 {
    uuid::Uuid::new_v4().as_u128()
}

/// Relies on uuid's `Display` impl, which renders the hyphenated form: 36
/// characters determined by the 128-bit value alone.
#[verifier::external_body]
fn uuid_text(n: u128) -> (r: String)
    ensures
        r@ == uuid_text_of(n),
        r@.len() == 36,
{
    uuid::Uuid::from_u128(n).to_string()
}

/// A record is stale at `now` once `timeout` seconds have passed since it
/// was created or last refreshed; a timestamp in the future never expires.
pub open spec fn expired(time: u64, now: u64, timeout: u64) -> bool {
    time <= now && now - time >= timeout
}

/// The registry: all live rooms, each wrapped with its timestamp and owner,
/// plus the quota tracker that the room collection is kept consistent with.
pub struct Rooms {
    pub rooms: IdMap<Tagged<Room>>,
    pub usage: UsageTracker,
}

impl Rooms {
    /// The stored records as a sequence of id/record pairs, in insertion
    /// order.
    pub open spec fn entries(&self) -> Seq<(u128, Tagged<Room>)> {
        self.rooms.seq()
    }

    /// The stored records as a map from id to record.
    pub open spec fn records(&self) -> Map<u128, Tagged<Room>> {
        self.rooms@
    }

    /// The registry invariant, which every operation preserves:
    /// ids are unique; the tracker's tables are well-formed; for every
    /// identity the tracked active count equals the number of live records
    /// that identity owns; and no identity's count exceeds its effective
    /// limit.
    pub open spec fn inv(&self) -> bool {
        &&& self.rooms.wf()
        &&& self.usage.wf()
        &&& forall|i: u128|
            #![trigger self.usage.count_of(i)]
            #![trigger owned_count(self.entries(), i)]
            self.usage.count_of(i) as nat == owned_count(self.entries(), i)
        &&& forall|i: u128| #[trigger] self.usage.count_of(i) <= self.usage.effective_limit(i)
    }

    /// A fresh registry with no rooms and the given override limits.
    pub fn new(user_limits: Vec<(u128, u16)>) -> (r: Self)
        ensures
            r.inv(),
            r.entries() == Seq::<(u128, Tagged<Room>)>::empty(),
            r.records() == Map::<u128, Tagged<Room>>::empty(),
            r.usage.counts() == Map::<u128, u16>::empty(),
            r.usage.limits() == map_of(user_limits@),
            r.usage.default_limit() == DEFAULT_ROOM_LIMIT,
    {
        let r = Rooms { rooms: IdMap::new(), usage: UsageTracker::new(user_limits) };
        proof {
            assert forall|i: u128| r.usage.count_of(i) as nat == #[trigger] owned_count(
                r.entries(),
                i,
            ) by {
                assert(!r.usage.counts().contains_key(i));
            }
        }
        r
    }

    /// Insert `candidate` under the identifier `id` for `registrant`, at
    /// time `now`. Exactly one of three things happens: the registrant is
    /// already at its effective limit and `QuotaExceeded` comes back with
    /// the registry untouched; `id` is already in use and `IdConflict` comes
    /// back with the quota increment rolled back, as if the call had never
    /// been made; or the room is stored — its address defaulted to the
    /// registrant when unset — and handed back with the identifier text in
    /// both identifier fields.
    pub fn create_with_id(
        &mut self,
        candidate: Room,
        registrant: u128,
        id: u128,
        now: u64,
    ) -> (r: Result<Room, RegisterError>)
        requires
            old(self).inv(),
        ensures
            final(self).inv(),
            final(self).usage.limits() == old(self).usage.limits(),
            final(self).usage.default_limit() == old(self).usage.default_limit(),
            (r matches Err(e) && e == RegisterError::QuotaExceeded) <==> old(self).usage.count_of(
                registrant,
            ) >= old(self).usage.effective_limit(registrant),
            (r matches Err(e) && e == RegisterError::QuotaExceeded) ==> *final(self) == *old(self),
            (r matches Err(e) && e == RegisterError::IdConflict) <==> (old(self).usage.count_of(
                registrant,
            ) < old(self).usage.effective_limit(registrant) && old(self).records().contains_key(
                id,
            )),
            (r matches Err(e) && e == RegisterError::IdConflict) ==> final(self).records() == old(
                self,
            ).records() && final(self).usage.counts() == old(self).usage.counts(),
            r is Ok <==> (old(self).usage.count_of(registrant) < old(self).usage.effective_limit(
                registrant,
            ) && !old(self).records().contains_key(id)),
            r is Ok ==> final(self).records() == old(self).records().insert(
                id,
                (Tagged { time: now, real_ip: registrant, value: filled(candidate, registrant) }),
            ) && final(self).entries() == old(self).entries().push(
                (id, (Tagged { time: now, real_ip: registrant, value: filled(candidate, registrant) })),
            ) && final(self).usage.counts() == counts_after_increase(
                old(self).usage.counts(),
                registrant,
            ),
            r matches Ok(room) ==> returned_room(room, candidate, registrant, id),
    {
        match self.usage.increase(registrant) {
            Err(RateLimited) => {
                return Err(RegisterError::QuotaExceeded);
            },
            Ok(()) => {},
        }
        if self.rooms.get(id).is_some() {
            let ghost mid = *self;
            let _ = self.usage.decrease_by(registrant, 1);
            proof {
                crate::limit::lemma_increase_then_decrease(old(self).usage.counts(), registrant);
                assert forall|i: u128| self.usage.count_of(i) as nat == #[trigger] owned_count(
                    self.entries(),
                    i,
                ) by {
                    assert(old(self).usage.count_of(i) as nat == owned_count(
                        old(self).entries(),
                        i,
                    ));
                }
                assert forall|i: u128| #[trigger] self.usage.count_of(i)
                    <= self.usage.effective_limit(i) by {
                    assert(old(self).usage.count_of(i) <= old(self).usage.effective_limit(i));
                }
            }
            return Err(RegisterError::IdConflict);
        }
        let mut cand = candidate;
        if cand.address.is_none() {
            cand.address = Some(registrant);
        }
        proof {
            assert(cand == filled(candidate, registrant));
        }
        let text = uuid_text(id);
        let mut ret = cand.clone();
        ret.external_guid = text;
        ret.id = uuid_text(id);
        let ghost pre_entries = self.entries();
        self.rooms.insert_new(id, Tagged { time: now, real_ip: registrant, value: cand });
        proof {
            assert forall|i: u128| self.usage.count_of(i) as nat == #[trigger] owned_count(
                self.entries(),
                i,
            ) by {
                lemma_owned_push(
                    pre_entries,
                    (id, (Tagged { time: now, real_ip: registrant, value: filled(candidate, registrant) })),
                    i,
                );
                assert(old(self).usage.count_of(i) as nat == owned_count(old(self).entries(), i));
            }
            assert forall|i: u128| #[trigger] self.usage.count_of(i)
                <= self.usage.effective_limit(i) by {
                if i != registrant {
                    assert(old(self).usage.count_of(i) <= old(self).usage.effective_limit(i));
                }
            }
        }
        Ok(ret)
    }

    /// Register `candidate` for `registrant` at time `now` under a freshly
    /// generated identifier. `QuotaExceeded` comes back exactly when the
    /// registrant is at its effective limit, and leaves the registry
    /// untouched; `IdConflict` signals a collision of the generated
    /// identifier and leaves the registry unchanged; otherwise the stored
    /// room comes back with its assigned identifier in both identifier
    /// fields.
    pub fn create(&mut self, candidate: Room, registrant: u128, now: u64) -> (r: Result<
        Room,
        RegisterError,
    >)
        requires
            old(self).inv(),
        ensures
            final(self).inv(),
            final(self).usage.limits() == old(self).usage.limits(),
            final(self).usage.default_limit() == old(self).usage.default_limit(),
            (r matches Err(e) && e == RegisterError::QuotaExceeded) <==> old(self).usage.count_of(
                registrant,
            ) >= old(self).usage.effective_limit(registrant),
            (r matches Err(e) && e == RegisterError::QuotaExceeded) ==> *final(self) == *old(self),
            (r matches Err(e) && e == RegisterError::IdConflict) ==> final(self).records() == old(
                self,
            ).records() && final(self).usage.counts() == old(self).usage.counts(),
            r matches Ok(room) ==> exists|id: u128|
                #[trigger] returned_room(room, candidate, registrant, id)
                    && !old(self).records().contains_key(id) && final(self).records() == old(
                    self,
                ).records().insert(
                    id,
                    (Tagged {
                        time: now,
                        real_ip: registrant,
                        value: filled(candidate, registrant),
                    }),
                ) && final(self).usage.counts() == counts_after_increase(
                    old(self).usage.counts(),
                    registrant,
                ),
    {
        let id = fresh_id();
        self.create_with_id(candidate, registrant, id, now)
    }

    /// Replace the member list of the room under `id` and reset its
    /// timestamp to `now`; every other field, the owner included, stays as
    /// it was. An unknown id changes nothing and reports `NotFound`.
    pub fn refresh(&mut self, id: u128, players: Vec<Member>, now: u64) -> (r: Result<
        (),
        NotFound,
    >)
        requires
            old(self).inv(),
        ensures
            final(self).inv(),
            final(self).usage == old(self).usage,
            r is Err <==> !old(self).records().contains_key(id),
            r is Err ==> *final(self) == *old(self),
            r is Ok ==> final(self).records() == old(self).records().insert(
                id,
                (Tagged {
                    time: now,
                    real_ip: old(self).records()[id].real_ip,
                    value: (Room { players, ..old(self).records()[id].value }),
                }),
            ),
    {
        let j = match self.rooms.index_of(id) {
            None => {
                proof {
                    assert forall|i: int|
                        0 <= i < self.rooms.entries@.len() implies self.rooms.entries@[i].0
                        != id by {
                        assert(self.rooms.seq()[i].0 != id);
                    }
                    lemma_not_in_map(self.rooms.entries@, id);
                }
                return Err(NotFound);
            },
            Some(j) => j,
        };
        proof {
            lemma_map_of_at(self.rooms.entries@, j as int);
        }
        let rec = self.rooms.at(j);
        let real_ip = rec.1.real_ip;
        let new_room = Room {
            external_guid: rec.1.value.external_guid.clone(),
            id: rec.1.value.id.clone(),
            address: rec.1.value.address,
            name: rec.1.value.name.clone(),
            description: rec.1.value.description.clone(),
            owner: rec.1.value.owner.clone(),
            port: rec.1.value.port,
            preferred_game_name: rec.1.value.preferred_game_name.clone(),
            preferred_game_id: rec.1.value.preferred_game_id,
            max_players: rec.1.value.max_players,
            net_version: rec.1.value.net_version,
            has_password: rec.1.value.has_password,
            players,
        };
        let ghost pre_entries = self.entries();
        self.rooms.update_at(j, Tagged { time: now, real_ip, value: new_room });
        proof {
            assert forall|i: u128| self.usage.count_of(i) as nat == #[trigger] owned_count(
                self.entries(),
                i,
            ) by {
                lemma_owned_update(
                    pre_entries,
                    j as int,
                    (Tagged {
                        time: now,
                        real_ip: old(self).records()[id].real_ip,
                        value: (Room { players, ..old(self).records()[id].value }),
                    }),
                    i,
                );
                assert(old(self).usage.count_of(i) as nat == owned_count(old(self).entries(), i));
            }
            assert forall|i: u128| #[trigger] self.usage.count_of(i)
                <= self.usage.effective_limit(i) by {
                assert(old(self).usage.count_of(i) <= old(self).usage.effective_limit(i));
            }
        }
        Ok(())
    }

    /// Remove the room under `id` and hand it back, decrementing the count
    /// of the identity recorded as its owner at creation — not whatever
    /// address the room itself declares. An unknown id changes nothing.
    pub fn remove(&mut self, id: u128) -> (r: Option<Room>)
        requires
            old(self).inv(),
        ensures
            final(self).inv(),
            final(self).usage.limits() == old(self).usage.limits(),
            final(self).usage.default_limit() == old(self).usage.default_limit(),
            r is None <==> !old(self).records().contains_key(id),
            r is None ==> *final(self) == *old(self),
            r is Some ==> r == Some(old(self).records()[id].value) && final(self).records() == old(
                self,
            ).records().remove(id) && final(self).usage.counts() == counts_after_decrease(
                old(self).usage.counts(),
                old(self).records()[id].real_ip,
                1,
            ),
    {
        let j = match self.rooms.index_of(id) {
            None => {
                proof {
                    assert forall|i: int|
                        0 <= i < self.rooms.entries@.len() implies self.rooms.entries@[i].0
                        != id by {
                        assert(self.rooms.seq()[i].0 != id);
                    }
                    lemma_not_in_map(self.rooms.entries@, id);
                }
                return None;
            },
            Some(j) => j,
        };
        proof {
            lemma_map_of_at(self.rooms.entries@, j as int);
        }
        let ghost pre_entries = self.entries();
        let e = self.rooms.remove_at(j);
        let owner = e.1.real_ip;
        proof {
            lemma_owned_pos(pre_entries, j as int, owner);
            assert(old(self).usage.count_of(owner) as nat == owned_count(pre_entries, owner));
        }
        let _ = self.usage.decrease(owner);
        proof {
            assert forall|i: u128| self.usage.count_of(i) as nat == #[trigger] owned_count(
                self.entries(),
                i,
            ) by {
                lemma_owned_remove(pre_entries, j as int, i);
                assert(old(self).usage.count_of(i) as nat == owned_count(old(self).entries(), i));
            }
            assert forall|i: u128| #[trigger] self.usage.count_of(i)
                <= self.usage.effective_limit(i) by {
                assert(old(self).usage.count_of(i) <= old(self).usage.effective_limit(i));
            }
        }
        Some(e.1.value)
    }

    /// The timeout sweep: remove exactly the records whose age at `now` —
    /// seconds since creation or last refresh — has reached `timeout`, and
    /// decrement each removed record's owner exactly as `remove` does.
    pub fn remove_timed_out_lobbies(&mut self, now: u64, timeout: u64)
        requires
            old(self).inv(),
        ensures
            final(self).inv(),
            final(self).usage.limits() == old(self).usage.limits(),
            final(self).usage.default_limit() == old(self).usage.default_limit(),
            forall|k: u128|
                #[trigger] final(self).records().contains_key(k) <==> old(
                    self,
                ).records().contains_key(k) && !expired(old(self).records()[k].time, now, timeout),
            forall|k: u128|
                #[trigger] final(self).records().contains_key(k) ==> final(self).records()[k]
                    == old(self).records()[k],
    {
        let mut j: usize = 0;
        while j < self.rooms.len()
            invariant
                self.rooms.wf(),
                self.usage.wf(),
                j <= self.entries().len(),
                self.usage.limits() == old(self).usage.limits(),
                self.usage.default_limit() == old(self).usage.default_limit(),
                forall|i: u128|
                    #![trigger self.usage.count_of(i)]
                    #![trigger owned_count(self.entries(), i)]
                    self.usage.count_of(i) as nat == owned_count(self.entries(), i),
                forall|i: u128| #[trigger] self.usage.count_of(i) <= self.usage.effective_limit(i),
                forall|k: u128|
                    #[trigger] self.records().contains_key(k) ==> old(
                        self,
                    ).records().contains_key(k) && self.records()[k] == old(self).records()[k],
                forall|k: u128|
                    old(self).records().contains_key(k) && !expired(
                        old(self).records()[k].time,
                        now,
                        timeout,
                    ) ==> #[trigger] self.records().contains_key(k),
                forall|i: int| 0 <= i < j ==> !expired(self.entries()[i].1.time, now, timeout),
            decreases self.entries().len() - j,
        {
            let rec = self.rooms.at(j);
            let t = rec.1.time;
            let owner = rec.1.real_ip;
            if t <= now && now - t >= timeout {
                proof {
                    lemma_map_of_at(self.rooms.entries@, j as int);
                    lemma_owned_pos(self.entries(), j as int, owner);
                }
                let ghost pre = *self;
                let _ = self.rooms.remove_at(j);
                let _ = self.usage.decrease(owner);
                proof {
                    assert forall|i: u128| self.usage.count_of(i) as nat == #[trigger] owned_count(
                        self.entries(),
                        i,
                    ) by {
                        lemma_owned_remove(pre.entries(), j as int, i);
                        assert(pre.usage.count_of(i) as nat == owned_count(pre.entries(), i));
                    }
                    assert forall|i: u128| #[trigger] self.usage.count_of(i)
                        <= self.usage.effective_limit(i) by {
                        assert(pre.usage.count_of(i) <= pre.usage.effective_limit(i));
                    }
                    assert forall|k: u128| #[trigger] self.records().contains_key(k) implies old(
                        self,
                    ).records().contains_key(k) && self.records()[k] == old(self).records()[k] by {
                        assert(pre.records().contains_key(k));
                    }
                    assert forall|k: u128|
                        old(self).records().contains_key(k) && !expired(
                            old(self).records()[k].time,
                            now,
                            timeout,
                        ) implies #[trigger] self.records().contains_key(k) by {
                        assert(pre.records().contains_key(k));
                        assert(pre.records()[k] == old(self).records()[k]);
                        if k == pre.entries()[j as int].0 {
                            assert(pre.records()[k] == pre.entries()[j as int].1);
                        }
                    }
                    assert forall|i: int| 0 <= i < j implies !expired(
                        self.entries()[i].1.time,
                        now,
                        timeout,
                    ) by {
                        assert(self.entries()[i] == pre.entries()[i]);
                        assert(!expired(pre.entries()[i].1.time, now, timeout));
                    }
                }
            } else {
                j += 1;
            }
        }
        proof {
            lemma_map_of_dom(self.rooms.entries@);
            assert forall|k: u128| #[trigger] self.records().contains_key(k) implies old(
                self,
            ).records().contains_key(k) && !expired(old(self).records()[k].time, now, timeout) by {
                let i = choose|i: int|
                    0 <= i < self.rooms.entries@.len() && self.rooms.entries@[i].0 == k;
                lemma_map_of_at(self.rooms.entries@, i);
                assert(self.entries()[i].1 == self.records()[k]);
                assert(!expired(self.entries()[i].1.time, now, timeout));
            }
        }
    }

    /// Apply an operator override: install `limit` for `ip`, then — if that
    /// identity now owns more records than the new limit — remove its
    /// records, earliest registered first, until exactly `limit` remain,
    /// decrementing the tracker once per removed record. Raising the limit
    /// evicts nothing; no other identity's rooms or counts are touched.
    pub fn add_and_apply_limit(&mut self, ip: u128, limit: u16)
        requires
            old(self).inv(),
        ensures
            final(self).inv(),
            final(self).usage.default_limit() == old(self).usage.default_limit(),
            final(self).usage.limits() == if limit == old(self).usage.default_limit() {
                old(self).usage.limits().remove(ip)
            } else {
                old(self).usage.limits().insert(ip, limit)
            },
            final(self).usage.effective_limit(ip) == limit,
            old(self).usage.count_of(ip) <= limit ==> final(self).records() == old(self).records()
                && final(self).usage.counts() == old(self).usage.counts(),
            old(self).usage.count_of(ip) > limit ==> final(self).usage.count_of(ip) == limit,
            forall|i: u128| i != ip ==> final(self).usage.count_of(i) == old(self).usage.count_of(i),
            forall|k: u128|
                #[trigger] final(self).records().contains_key(k) ==> old(
                    self,
                ).records().contains_key(k) && final(self).records()[k] == old(self).records()[k],
            forall|k: u128|
                old(self).records().contains_key(k) && old(self).records()[k].real_ip != ip
                    ==> #[trigger] final(self).records().contains_key(k),
    {
        self.usage.limit(ip, limit);
        let ghost c0 = old(self).usage.count_of(ip);
        let mut j: usize = 0;
        while j < self.rooms.len()
            invariant
                self.rooms.wf(),
                self.usage.wf(),
                j <= self.entries().len(),
                self.usage.default_limit() == old(self).usage.default_limit(),
                self.usage.limits() == if limit == old(self).usage.default_limit() {
                    old(self).usage.limits().remove(ip)
                } else {
                    old(self).usage.limits().insert(ip, limit)
                },
                self.usage.effective_limit(ip) == limit,
                forall|i: u128|
                    #![trigger self.usage.count_of(i)]
                    #![trigger owned_count(self.entries(), i)]
                    self.usage.count_of(i) as nat == owned_count(self.entries(), i),
                forall|i: u128|
                    i != ip ==> #[trigger] self.usage.count_of(i) == old(self).usage.count_of(i)
                        && self.usage.effective_limit(i) == old(self).usage.effective_limit(i),
                c0 <= limit ==> self.records() == old(self).records() && self.usage.counts() == old(
                    self,
                ).usage.counts() && self.entries() == old(self).entries(),
                c0 > limit ==> self.usage.count_of(ip) >= limit,
                self.usage.count_of(ip) <= c0,
                self.usage.count_of(ip) > limit ==> forall|i: int|
                    0 <= i < j ==> self.entries()[i].1.real_ip != ip,
                forall|k: u128|
                    #[trigger] self.records().contains_key(k) ==> old(
                        self,
                    ).records().contains_key(k) && self.records()[k] == old(self).records()[k],
                forall|k: u128|
                    old(self).records().contains_key(k) && old(self).records()[k].real_ip != ip
                        ==> #[trigger] self.records().contains_key(k),
            decreases self.entries().len() - j,
        {
            let over = self.usage.current_count(ip) > limit;
            let rec = self.rooms.at(j);
            let rec_owner = rec.1.real_ip;
            if over && rec_owner == ip {
                proof {
                    lemma_map_of_at(self.rooms.entries@, j as int);
                    lemma_owned_pos(self.entries(), j as int, ip);
                }
                let ghost pre = *self;
                let _ = self.rooms.remove_at(j);
                let _ = self.usage.decrease(ip);
                proof {
                    assert forall|i: u128| self.usage.count_of(i) as nat == #[trigger] owned_count(
                        self.entries(),
                        i,
                    ) by {
                        lemma_owned_remove(pre.entries(), j as int, i);
                        assert(pre.usage.count_of(i) as nat == owned_count(pre.entries(), i));
                    }
                    assert forall|i: u128| i != ip implies #[trigger] self.usage.count_of(i) == old(
                        self,
                    ).usage.count_of(i) && self.usage.effective_limit(i) == old(
                        self,
                    ).usage.effective_limit(i) by {
                        assert(pre.usage.count_of(i) == old(self).usage.count_of(i));
                        assert(pre.usage.effective_limit(i) == old(self).usage.effective_limit(i));
                    }
                    assert forall|k: u128| #[trigger] self.records().contains_key(k) implies old(
                        self,
                    ).records().contains_key(k) && self.records()[k] == old(self).records()[k] by {
                        assert(pre.records().contains_key(k));
                    }
                    assert forall|k: u128|
                        old(self).records().contains_key(k) && old(self).records()[k].real_ip != ip
                            implies #[trigger] self.records().contains_key(k) by {
                        assert(pre.records().contains_key(k));
                        assert(pre.records()[k] == old(self).records()[k]);
                        if k == pre.entries()[j as int].0 {
                            assert(pre.records()[k] == pre.entries()[j as int].1);
                        }
                    }
                    assert forall|i: int|
                        self.usage.count_of(ip) > limit && 0 <= i < j implies self.entries()[i].1.real_ip
                        != ip by {
                        assert(self.entries()[i] == pre.entries()[i]);
                        assert(pre.usage.count_of(ip) > limit);
                        assert(pre.entries()[i].1.real_ip != ip);
                    }
                }
            } else {
                proof {
                    if self.usage.count_of(ip) > limit {
                        assert(rec_owner != ip);
                    }
                }
                j += 1;
            }
        }
        proof {
            if self.usage.count_of(ip) > limit {
                assert forall|i: int|
                    0 <= i < self.entries().len() implies self.entries()[i].1.real_ip != ip by {}
                lemma_owned_none(self.entries(), ip);
                assert(self.usage.count_of(ip) as nat == owned_count(self.entries(), ip));
                assert(false);
            }
            assert forall|i: u128| #[trigger] self.usage.count_of(i)
                <= self.usage.effective_limit(i) by {
                if i != ip {
                    assert(old(self).usage.count_of(i) <= old(self).usage.effective_limit(i));
                }
            }
        }
    }

    /// A snapshot of all stored room values, in insertion order; the
    /// registry itself is untouched.
    pub fn list(&self) -> (r: Vec<Room>)
        ensures
            r@.len() == self.entries().len(),
            forall|i: int| 0 <= i < r@.len() ==> room_like(r@[i], self.entries()[i].1.value),
    {
        let mut out: Vec<Room> = Vec::new();
        let mut j: usize = 0;
        while j < self.rooms.len()
            invariant
                j <= self.entries().len(),
                out@.len() == j,
                forall|i: int| 0 <= i < j ==> room_like(out@[i], self.entries()[i].1.value),
            decreases self.entries().len() - j,
        {
            out.push(self.rooms.at(j).1.value.clone());
            j += 1;
        }
        out
    }
}

} // verus!
