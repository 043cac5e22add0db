//! Identifiers that grow with the clock: a millisecond time shifted left by 8
//! bits, plus a counter for identifiers made within one tick.
use vstd::prelude::*;

use crate::bytes::{u64_be_bytes, u64_to_be};

verus! {

/// The state of an identifier source.
#[derive(Debug)]
pub struct Id {
    pub time: u64,
    pub id: u8,
}

impl Default for Id {
    fn default() -> (r: Self)
        ensures
            r.time == 0,
            r.id == 255,
    {
        Id { time: 0, id: 255 }
    }
}

/// The state after one identifier is made at clock reading `now`: the counter
/// goes up, or, when it is spent, restarts at 0 with a new time (the old time plus
/// 256 when it equals `now`, else `now` shifted left by 8 bits).
pub open spec fn id_next(s: Id, now: u64) -> Id {
    if s.id == 255 {
        Id {
            time: if s.time == now {
                (s.time + 256) as u64
            } else {
                now << 8u64
            },
            id: 0,
        }
    } else {
        Id { time: s.time, id: (s.id + 1) as u8 }
    }
}

/// Making an identifier at clock reading `now` stays within 64 bits.
pub open spec fn id_fits(s: Id, now: u64) -> bool {
    &&& s.id == 255 && s.time == now ==> s.time + 256 <= u64::MAX
    &&& s.id != 255 ==> s.time + s.id + 1 <= u64::MAX
}

/// The identifier that a state stands for: its time plus its counter, as 8 bytes,
/// most significant first.
pub open spec fn id_bytes(s: Id) -> Seq<u8> {
    u64_be_bytes((s.time + s.id) as u64)
}

/// The number that a state stands for.
pub open spec fn id_value(s: Id) -> int {
    s.time + s.id
}

/// Identifiers grow: within a tick by one; when the counter is spent, past every
/// identifier of the tick, whether the clock reading is unchanged or has moved past
/// the last identifier (`now` shifted left by 8 bits is above it).
pub proof fn lemma_id_grows(s: Id, now: u64)
    requires
        id_fits(s, now),
        s.id == 255 && s.time != now ==> (now << 8u64) > id_value(s),
    ensures
        id_value(id_next(s, now)) > id_value(s),
        s.id != 255 ==> id_value(id_next(s, now)) == id_value(s) + 1,
{
}

impl Id {
    /// Makes the next identifier at clock reading `now`.
    pub fn next_at(&mut self, now: u64) -> (r: [u8; 8])
        requires
            id_fits(*old(self), now),
        ensures
            *final(self) == id_next(*old(self), now),
            r@ == id_bytes(*final(self)),
    {
        if self.id == 255 {
            self.id = 0;
            let time = self.time;
            assert(1u64 << 8u64 == 256) by (bit_vector);
            self.time = if time == now {
                time + (1 << 8)
            } else {
                now << 8
            };
            assert(self.time + self.id <= u64::MAX);
        } else {
            self.id = self.id + 1;
        }
        u64_to_be(self.time + self.id as u64)
    }

    /// Makes the next identifier, given the clock reading `now` in milliseconds cut
    /// to 64 bits (`None` for a clock before the Unix epoch), which is used only when
    /// the counter is spent. Nothing is made, and the state stays, when the counter
    /// is spent and there is no reading, or the reading equals the stored time and
    /// that time cannot move on by 256.
    pub fn get_at(&mut self, now: Option<u64>) -> (r: Option<[u8; 8]>)
        requires
            old(self).id != 255 ==> old(self).time + old(self).id + 1 <= u64::MAX,
        ensures
            old(self).id != 255 ==> r is Some && *final(self) == (Id { time: old(self).time, id: (old(self).id + 1) as u8 }),
            old(self).id == 255 ==> (r is None <==> (now is None || (now->0 == old(self).time && old(self).time > u64::MAX - 256))),
            old(self).id == 255 && r is Some ==> *final(self) == id_next(*old(self), now->0),
            r is None ==> *final(self) == *old(self),
            r matches Some(b) ==> b@ == id_bytes(*final(self)),
    {
        if self.id == 255 {
            match now {
                Some(n) => {
                    if self.time == n && self.time > u64::MAX - 256 {
                        None
                    } else {
                        Some(self.next_at(n))
                    }
                },
                None => None,
            }
        } else {
            let t = self.time;
            Some(self.next_at(t))
        }
    }

    /// Makes the next identifier, reading the clock in milliseconds, cut to 64 bits,
    /// when the counter is spent (see `get_at`).
    pub fn get(&mut self) -> (r: Option<[u8; 8]>)
        requires
            old(self).id != 255 ==> old(self).time + old(self).id + 1 <= u64::MAX,
        ensures
            old(self).id != 255 ==> r is Some && *final(self) == (Id { time: old(self).time, id: (old(self).id + 1) as u8 }),
            old(self).id == 255 && r is Some ==> exists|now: u64| *final(self) == id_next(*old(self), now),
            r is None ==> old(self).id == 255 && *final(self) == *old(self),
            r matches Some(b) ==> b@ == id_bytes(*final(self)),
    {
        let now = if self.id == 255 {
            match crate::time::ms() {
                Some(m) => Some(m as u64),
                None => None,
            }
        } else {
            None
        };
        self.get_at(now)
    }
}

} // verus!
