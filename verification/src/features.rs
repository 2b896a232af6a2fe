//! Kill-switches for the engine's optional passes.
//!
//! Every feature runs on a default setting and answers to two masters: the
//! process environment (read by the caller into an [`EnvFlags`]) and an
//! in-process override. The override is tri-state: `Unset` falls back to
//! default-plus-environment, `On` and `Off` are orders that no environment
//! variable can overrule.

use vstd::prelude::*;

verus! {

/// One tri-state override.
#[derive(Clone, Copy, PartialEq, Eq, Debug)]
pub enum Override {
    Unset,
    On,
    Off,
}

/// The in-process overrides, one per switch.
#[derive(Clone, Copy, PartialEq, Eq, Debug)]
pub struct Overrides {
    pub tdemand: Override,
    pub tdecomp: Override,
    pub tconc: Override,
    pub escalate: Override,
    pub espc: Override,
}

/// Which of the environment variables that steer the switches are set.
#[derive(Clone, Copy, PartialEq, Eq, Debug)]
pub struct EnvFlags {
    /// `FF_TDEMAND`
    pub ff_tdemand: bool,
    /// `FF_NO_TDEMAND`
    pub ff_no_tdemand: bool,
    /// `FF_TDECOMP`
    pub ff_tdecomp: bool,
    /// `FF_NO_ESCALATE`
    pub ff_no_escalate: bool,
    /// `FF_TCONC`
    pub ff_tconc: bool,
    /// `FF_NO_ESPC`
    pub ff_no_espc: bool,
}

/// How hard the temporal-demand guidance pushes.
#[derive(Clone, Copy, PartialEq, Eq, Debug)]
pub enum DemandMode {
    /// No demand guidance, no relevance pruning.
    Off,
    /// The default: demand seeded from numeric goals alone.
    Numeric,
    /// Demand also seeded from predicate-goal thresholds.
    Full,
}

pub open spec fn order(on: bool) -> Override {
    if on {
        Override::On
    } else {
        Override::Off
    }
}

/// What an override resolves to, given the default-plus-environment value.
pub open spec fn resolved(state: Override, default: bool) -> bool {
    match state {
        Override::On => true,
        Override::Off => false,
        Override::Unset => default,
    }
}

pub open spec fn spec_demand_mode(o: Overrides, env: EnvFlags) -> DemandMode {
    match o.tdemand {
        Override::On => DemandMode::Full,
        Override::Off => DemandMode::Off,
        Override::Unset => if env.ff_tdemand {
            DemandMode::Full
        } else if env.ff_no_tdemand {
            DemandMode::Off
        } else {
            DemandMode::Numeric
        },
    }
}

impl Overrides {
    /// No override standing: every switch answers to default-plus-environment.
    pub fn new() -> (o: Self)
        ensures
            o == Overrides::unset(),
    {
        Overrides {
            tdemand: Override::Unset,
            tdecomp: Override::Unset,
            tconc: Override::Unset,
            escalate: Override::Unset,
            espc: Override::Unset,
        }
    }

    pub open spec fn unset() -> Overrides {
        Overrides {
            tdemand: Override::Unset,
            tdecomp: Override::Unset,
            tconc: Override::Unset,
            escalate: Override::Unset,
            espc: Override::Unset,
        }
    }
}

/// Put standing orders on the three temporal switches: `true` lights the
/// feature, `false` cuts it. The escalation and ESPC overrides are left as
/// they were.
pub fn set_overrides(o: &mut Overrides, tdemand: bool, tdecomp: bool, tconc: bool)
    ensures
        *final(o) == (Overrides {
            tdemand: order(tdemand),
            tdecomp: order(tdecomp),
            tconc: order(tconc),
            ..*old(o)
        }),
{
    o.tdemand = if tdemand {
        Override::On
    } else {
        Override::Off
    };
    o.tdecomp = if tdecomp {
        Override::On
    } else {
        Override::Off
    };
    o.tconc = if tconc {
        Override::On
    } else {
        Override::Off
    };
}

/// Standing order for the escalation ladder.
pub fn set_escalate_override(o: &mut Overrides, on: bool)
    ensures
        *final(o) == (Overrides { escalate: order(on), ..*old(o) }),
{
    o.escalate = if on {
        Override::On
    } else {
        Override::Off
    };
}

/// Standing order for the ESPC penalty loop.
pub fn set_espc_override(o: &mut Overrides, on: bool)
    ensures
        *final(o) == (Overrides { espc: order(on), ..*old(o) }),
{
    o.espc = if on {
        Override::On
    } else {
        Override::Off
    };
}

/// Wipe every override back to `Unset`.
pub fn clear_overrides(o: &mut Overrides)
    ensures
        *final(o) == Overrides::unset(),
{
    *o = Overrides::new();
}

/// An override's verdict, falling back to `default` when unset.
pub fn resolve(state: Override, default: bool) -> (b: bool)
    ensures
        b == resolved(state, default),
{
    match state {
        Override::On => true,
        Override::Off => false,
        Override::Unset => default,
    }
}

/// The active demand tier: override first, then environment, then the
/// `Numeric` default.
pub fn demand_mode(o: &Overrides, env: &EnvFlags) -> (m: DemandMode)
    ensures
        m == spec_demand_mode(*o, *env),
{
    match o.tdemand {
        Override::On => DemandMode::Full,
        Override::Off => DemandMode::Off,
        Override::Unset => {
            if env.ff_tdemand {
                DemandMode::Full
            } else if env.ff_no_tdemand {
                DemandMode::Off
            } else {
                DemandMode::Numeric
            }
        },
    }
}

/// Whether any demand seeding runs at all.
pub fn tdemand(o: &Overrides, env: &EnvFlags) -> (b: bool)
    ensures
        b == (spec_demand_mode(*o, *env) != DemandMode::Off),
{
    match demand_mode(o, env) {
        DemandMode::Off => false,
        _ => true,
    }
}

/// The partition-and-resolve decomposer: off unless `FF_TDECOMP` is set.
pub fn tdecomp(o: &Overrides, env: &EnvFlags) -> (b: bool)
    ensures
        b == resolved(o.tdecomp, env.ff_tdecomp),
{
    resolve(o.tdecomp, env.ff_tdecomp)
}

/// The escalation ladder: on by default; `FF_NO_ESCALATE` takes it down,
/// and so does `FF_NO_TDEMAND`, the master switch back to the path without
/// demand guidance.
pub fn escalate(o: &Overrides, env: &EnvFlags) -> (b: bool)
    ensures
        b == resolved(o.escalate, !env.ff_no_escalate && !env.ff_no_tdemand),
{
    resolve(o.escalate, !env.ff_no_escalate && !env.ff_no_tdemand)
}

/// The concurrent-scheduling pass: off unless `FF_TCONC` is set.
pub fn tconc(o: &Overrides, env: &EnvFlags) -> (b: bool)
    ensures
        b == resolved(o.tconc, env.ff_tconc),
{
    resolve(o.tconc, env.ff_tconc)
}

/// The ESPC penalty loop: on unless `FF_NO_ESPC` is set.
pub fn espc(o: &Overrides, env: &EnvFlags) -> (b: bool)
    ensures
        b == resolved(o.espc, !env.ff_no_espc),
{
    resolve(o.espc, !env.ff_no_espc)
}

/// An order is an order: after `set_overrides(t, d, c)` the three temporal
/// switches read exactly `t`, `d` and `c`, whatever the environment says.
pub proof fn law_orders_beat_the_environment(
    before: Overrides,
    after: Overrides,
    env: EnvFlags,
    t: bool,
    d: bool,
    c: bool,
)
    requires
        after == (Overrides { tdemand: order(t), tdecomp: order(d), tconc: order(c), ..before }),
    ensures
        (spec_demand_mode(after, env) != DemandMode::Off) == t,
        resolved(after.tdecomp, env.ff_tdecomp) == d,
        resolved(after.tconc, env.ff_tconc) == c,
        after.escalate == before.escalate && after.espc == before.espc,
{
}

/// Clearing hands every decision back to default-plus-environment: the
/// switches then read exactly what they read before any override was set.
pub proof fn law_clear_restores_defaults(cleared: Overrides, env: EnvFlags)
    requires
        cleared == Overrides::unset(),
    ensures
        spec_demand_mode(cleared, env) == (if env.ff_tdemand {
            DemandMode::Full
        } else if env.ff_no_tdemand {
            DemandMode::Off
        } else {
            DemandMode::Numeric
        }),
        resolved(cleared.tdecomp, env.ff_tdecomp) == env.ff_tdecomp,
        resolved(cleared.tconc, env.ff_tconc) == env.ff_tconc,
        resolved(cleared.escalate, !env.ff_no_escalate && !env.ff_no_tdemand) == (!env.ff_no_escalate
            && !env.ff_no_tdemand),
        resolved(cleared.espc, !env.ff_no_espc) == !env.ff_no_espc,
{
}

} // verus!
