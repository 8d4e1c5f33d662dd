//! Per-house runtime state of one superweapon.

use vstd::prelude::*;

verus! {

/// Per-house, per-type superweapon state: granted or not, charging, ready,
/// suspended by low power.
#[derive(Debug, Clone, Copy, PartialEq, Eq, Structural)]
pub struct SuperWeaponInstance {
    /// Interned id of the superweapon type.
    pub type_id: u32,
    /// Interned id of the owning house.
    pub owner: u32,
    /// Whether a building grants the superweapon.
    pub is_active: bool,
    /// Whether it is charged and ready to fire.
    pub is_ready: bool,
    /// Whether charging is paused by low power.
    pub is_suspended: bool,
    /// Tick at which charging began; -1 when the timer is stopped.
    pub charge_start_tick: i64,
    /// Charge duration in ticks (the remaining time while suspended).
    pub charge_duration: i32,
    /// Charge/drain state for charge-drain weapons; -1 for the others.
    pub charge_drain_state: i32,
    /// Tick at which it became ready; -1 while not ready.
    pub ready_tick: i64,
}

/// Ticks elapsed since charging began, as the 32-bit count the charge
/// arithmetic uses.
pub open spec fn elapsed_ticks(start: i64, current_tick: u64) -> i32 {
    ((current_tick as i64) - start) as i32
}

/// Whether suspending at `current_tick` stays inside the integer ranges:
/// nothing is computed when the timer is stopped or already suspended.
pub open spec fn suspend_in_range(s: SuperWeaponInstance, current_tick: u64) -> bool {
    s.charge_start_tick < 0 || s.is_suspended || {
        let diff = (current_tick as i64) - s.charge_start_tick;
        &&& i64::MIN <= diff <= i64::MAX
        &&& i32::MIN <= s.charge_duration - elapsed_ticks(s.charge_start_tick, current_tick) <= i32::MAX
    }
}

impl SuperWeaponInstance {
    /// A new, inactive instance with its timer stopped.
    pub fn new(type_id: u32, owner: u32) -> (r: Self)
        ensures
            r.type_id == type_id,
            r.owner == owner,
            !r.is_active,
            !r.is_ready,
            !r.is_suspended,
            r.charge_start_tick == -1,
            r.charge_duration == 0,
            r.charge_drain_state == -1,
            r.ready_tick == -1,
    {
        SuperWeaponInstance {
            type_id,
            owner,
            is_active: false,
            is_ready: false,
            is_suspended: false,
            charge_start_tick: -1,
            charge_duration: 0,
            charge_drain_state: -1,
            ready_tick: -1,
        }
    }

    /// Grant the superweapon and start charging for `recharge_frames` ticks.
    pub fn activate(&mut self, recharge_frames: i32, current_tick: u64)
        ensures
            *final(self) == (SuperWeaponInstance {
                is_active: true,
                is_ready: false,
                is_suspended: false,
                charge_start_tick: current_tick as i64,
                charge_duration: recharge_frames,
                charge_drain_state: -1i32,
                ready_tick: -1i64,
                ..*old(self)
            }),
    {
        self.is_active = true;
        self.is_ready = false;
        self.is_suspended = false;
        self.charge_start_tick = current_tick as i64;
        self.charge_duration = recharge_frames;
        self.charge_drain_state = -1;
        self.ready_tick = -1;
    }

    /// Revoke the superweapon when its granting building is lost.
    pub fn deactivate(&mut self)
        ensures
            *final(self) == (SuperWeaponInstance {
                is_active: false,
                is_ready: false,
                is_suspended: false,
                charge_start_tick: -1i64,
                ready_tick: -1i64,
                ..*old(self)
            }),
    {
        self.is_active = false;
        self.is_ready = false;
        self.is_suspended = false;
        self.charge_start_tick = -1;
        self.ready_tick = -1;
    }

    /// Pause charging on low power, keeping the remaining time (never
    /// negative). Nothing happens when the timer is stopped or already
    /// suspended.
    pub fn suspend(&mut self, current_tick: u64)
        requires
            suspend_in_range(*old(self), current_tick),
        ensures
            old(self).charge_start_tick < 0 || old(self).is_suspended ==> *final(self) == *old(self),
            !(old(self).charge_start_tick < 0 || old(self).is_suspended) ==> *final(self) == (SuperWeaponInstance {
                charge_duration: {
                    let rem = old(self).charge_duration - elapsed_ticks(old(self).charge_start_tick, current_tick);
                    if rem > 0 {
                        rem as i32
                    } else {
                        0i32
                    }
                },
                charge_start_tick: -1i64,
                is_suspended: true,
                ..*old(self)
            }),
    {
        if self.charge_start_tick < 0 || self.is_suspended {
            return;
        }
        let elapsed = (current_tick as i64 - self.charge_start_tick) as i32;
        let rem = self.charge_duration - elapsed;
        let remaining = if rem > 0 {
            rem
        } else {
            0
        };
        self.charge_duration = remaining;
        self.charge_start_tick = -1;
        self.is_suspended = true;
    }

    /// Resume charging when power returns: the timer restarts now with the
    /// remaining time kept by `suspend`. Nothing happens unless suspended.
    pub fn resume(&mut self, current_tick: u64)
        ensures
            !old(self).is_suspended ==> *final(self) == *old(self),
            old(self).is_suspended ==> *final(self) == (SuperWeaponInstance {
                charge_start_tick: current_tick as i64,
                is_suspended: false,
                ..*old(self)
            }),
    {
        if !self.is_suspended {
            return;
        }
        self.charge_start_tick = current_tick as i64;
        self.is_suspended = false;
    }

    /// Restart the full charge after firing.
    pub fn reset_after_fire(&mut self, recharge_frames: i32, current_tick: u64)
        ensures
            *final(self) == (SuperWeaponInstance {
                is_ready: false,
                ready_tick: -1i64,
                charge_start_tick: current_tick as i64,
                charge_duration: recharge_frames,
                ..*old(self)
            }),
    {
        self.is_ready = false;
        self.ready_tick = -1;
        self.charge_start_tick = current_tick as i64;
        self.charge_duration = recharge_frames;
    }
}

/// The instance after one tick's power check: a superweapon that needs
/// power is suspended when its owner is in low power and resumed when the
/// owner has power again.
pub open spec fn power_checked(
    s: SuperWeaponInstance,
    low_power: bool,
    needs_power: bool,
    current_tick: u64,
) -> SuperWeaponInstance {
    if needs_power && low_power && !s.is_suspended && s.charge_start_tick >= 0 {
        SuperWeaponInstance {
            charge_duration: {
                let rem = s.charge_duration - elapsed_ticks(s.charge_start_tick, current_tick);
                if rem > 0 {
                    rem as i32
                } else {
                    0i32
                }
            },
            charge_start_tick: -1i64,
            is_suspended: true,
            ..s
        }
    } else if needs_power && !low_power && s.is_suspended {
        SuperWeaponInstance { charge_start_tick: current_tick as i64, is_suspended: false, ..s }
    } else {
        s
    }
}

/// The instance after one tick of charging: an active superweapon that is
/// not ready yet gets the power check, and a running, unsuspended timer that
/// has reached its duration makes it ready now. Inactive or ready
/// superweapons are unchanged.
pub open spec fn charge_ticked(
    s: SuperWeaponInstance,
    low_power: bool,
    needs_power: bool,
    current_tick: u64,
) -> SuperWeaponInstance {
    if !s.is_active || s.is_ready {
        s
    } else {
        let p = power_checked(s, low_power, needs_power, current_tick);
        if p.charge_start_tick >= 0 && !p.is_suspended && (current_tick as i64) - p.charge_start_tick
            >= p.charge_duration {
            SuperWeaponInstance { is_ready: true, ready_tick: current_tick as i64, ..p }
        } else {
            p
        }
    }
}

/// The charge arithmetic of one tick stays within its integer ranges.
pub open spec fn charge_tick_in_range(s: SuperWeaponInstance, current_tick: u64) -> bool {
    &&& suspend_in_range(s, current_tick)
    &&& i64::MIN <= (current_tick as i64) - s.charge_start_tick <= i64::MAX
}

impl SuperWeaponInstance {
    /// Advance charging by one tick at `current_tick`, with the owner in
    /// low power or not and the superweapon type needing power or not.
    pub fn tick_charge(&mut self, low_power: bool, needs_power: bool, current_tick: u64)
        requires
            charge_tick_in_range(*old(self), current_tick),
        ensures
            *final(self) == charge_ticked(*old(self), low_power, needs_power, current_tick),
    {
        if !self.is_active || self.is_ready {
            return;
        }
        if needs_power {
            if low_power && !self.is_suspended {
                self.suspend(current_tick);
            } else if !low_power && self.is_suspended {
                self.resume(current_tick);
            }
        }
        if self.charge_start_tick >= 0 && !self.is_suspended {
            let elapsed: i64 = current_tick as i64 - self.charge_start_tick;
            if elapsed >= self.charge_duration as i64 {
                self.is_ready = true;
                self.ready_tick = current_tick as i64;
            }
        }
    }
}

/// Suspending a charging superweapon and resuming it later restarts its
/// timer at the resume tick with the time that was still owed at the
/// suspend tick (never negative), and changes nothing else.
pub proof fn law_suspend_then_resume(
    s: SuperWeaponInstance,
    suspended: SuperWeaponInstance,
    resumed: SuperWeaponInstance,
    t1: u64,
    t2: u64,
)
    requires
        s.charge_start_tick >= 0,
        !s.is_suspended,
        suspend_in_range(s, t1),
        suspended == (SuperWeaponInstance {
            charge_duration: {
                let rem = s.charge_duration - elapsed_ticks(s.charge_start_tick, t1);
                if rem > 0 {
                    rem as i32
                } else {
                    0i32
                }
            },
            charge_start_tick: -1i64,
            is_suspended: true,
            ..s
        }),
        resumed == (SuperWeaponInstance { charge_start_tick: t2 as i64, is_suspended: false, ..suspended }),
    ensures
        resumed.charge_start_tick == t2 as i64,
        resumed.charge_duration >= 0,
        resumed.charge_duration == if s.charge_duration - elapsed_ticks(s.charge_start_tick, t1) > 0 {
            s.charge_duration - elapsed_ticks(s.charge_start_tick, t1)
        } else {
            0
        },
        !resumed.is_suspended,
        resumed.is_active == s.is_active,
        resumed.is_ready == s.is_ready,
        resumed.ready_tick == s.ready_tick,
        resumed.type_id == s.type_id && resumed.owner == s.owner,
{
}

/// Charging: a superweapon that is not granted, or already ready, does not
/// change; one whose owner lacks the power it needs never becomes ready;
/// one that does not need power, or whose owner has power, becomes ready
/// at the current tick once its running timer has reached its duration and
/// stays not ready before; and a tick never changes its type or owner.
pub proof fn law_charging_needs_time_and_power(s: SuperWeaponInstance, low_power: bool, needs_power: bool, t: u64)
    requires
        charge_tick_in_range(s, t),
    ensures
        ({
            let n = charge_ticked(s, low_power, needs_power, t);
            &&& n.type_id == s.type_id && n.owner == s.owner && n.is_active == s.is_active
            &&& (!s.is_active || s.is_ready) ==> n == s
            &&& (!s.is_ready && needs_power && low_power) ==> !n.is_ready
            &&& (s.is_active && !s.is_ready && !s.is_suspended && s.charge_start_tick >= 0 && (!needs_power || !low_power))
                ==> (n.is_ready == ((t as i64) - s.charge_start_tick >= s.charge_duration))
            &&& (n.is_ready && !s.is_ready) ==> n.ready_tick == t as i64
        }),
{
}

} // verus!
