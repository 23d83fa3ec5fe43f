//! Branch-and-bound scheduler for robot-building blueprints: within a time
//! budget, at most one robot is started per tick, each robot adds one unit of
//! its resource per tick, and the payoff is the geode count at the end.
//!
//! `recurse` is the pruned depth-first search, pinned to its own functional
//! description. `optimize` is the exhaustive optimum,
//! against which pruning can be checked, and for which the payoff is proved
//! monotone in the budget.

use vstd::prelude::*;

verus! {

#[derive(Debug, Clone, Copy, PartialEq, Eq)]
pub struct Blueprint {
    /// ore cost of an ore robot
    pub ore: u32,
    /// ore cost of a clay robot
    pub clay: u32,
    /// ore and clay cost of an obsidian robot
    pub obsidian: (u32, u32),
    /// ore and obsidian cost of a geode robot
    pub geode: (u32, u32),
}

#[derive(Debug, Default, Clone, Copy, PartialEq, Eq, Structural)]
pub struct Counters {
    pub ore: u32,
    pub clay: u32,
    pub obsidian: u32,
    pub geode: u32,
}

#[derive(Debug, Clone, Copy)]
pub struct Ctx {
    pub blueprint: Blueprint,
    pub robots: Counters,
    pub resources: Counters,
    pub time_left: u32,
}

/// The four robot kinds a tick can start building.
#[derive(Debug, Clone, Copy, PartialEq, Eq, Structural)]
pub enum Build {
    Ore,
    Clay,
    Obsidian,
    Geode,
}

/// Headroom for one counter: even building a robot every tick, the resource
/// cannot leave `u32`.
pub open spec fn fits(res: int, rob: int, t: int) -> bool {
    res + (rob + t) * t <= u32::MAX && rob + t <= u32::MAX
}

/// The context cannot overflow within its remaining time.
pub open spec fn ctx_ok(ctx: Ctx) -> bool {
    let t = ctx.time_left as int;
    &&& fits(ctx.resources.ore as int, ctx.robots.ore as int, t)
    &&& fits(ctx.resources.clay as int, ctx.robots.clay as int, t)
    &&& fits(ctx.resources.obsidian as int, ctx.robots.obsidian as int, t)
    &&& fits(ctx.resources.geode as int, ctx.robots.geode as int, t)
}

/// One tick of production: every robot yields one unit.
pub open spec fn collect_spec(ctx: Ctx) -> Ctx {
    Ctx {
        resources: Counters {
            ore: (ctx.resources.ore + ctx.robots.ore) as u32,
            clay: (ctx.resources.clay + ctx.robots.clay) as u32,
            obsidian: (ctx.resources.obsidian + ctx.robots.obsidian) as u32,
            geode: (ctx.resources.geode + ctx.robots.geode) as u32,
        },
        ..ctx
    }
}

/// The resources on hand cover the chosen robot's cost.
pub open spec fn enough_resources_spec(resources: Counters, blueprint: Blueprint, next: Build) -> bool {
    match next {
        Build::Ore => resources.ore >= blueprint.ore,
        Build::Clay => resources.ore >= blueprint.clay,
        Build::Obsidian => resources.ore >= blueprint.obsidian.0 && resources.clay
            >= blueprint.obsidian.1,
        Build::Geode => resources.ore >= blueprint.geode.0 && resources.obsidian
            >= blueprint.geode.1,
    }
}

/// Commit the chosen robot's cost.
pub open spec fn start_build_spec(ctx: Ctx, next: Build) -> Ctx {
    let r = ctx.resources;
    let b = ctx.blueprint;
    let resources = match next {
        Build::Ore => Counters { ore: (r.ore - b.ore) as u32, ..r },
        Build::Clay => Counters { ore: (r.ore - b.clay) as u32, ..r },
        Build::Obsidian => Counters {
            ore: (r.ore - b.obsidian.0) as u32,
            clay: (r.clay - b.obsidian.1) as u32,
            ..r
        },
        Build::Geode => Counters {
            ore: (r.ore - b.geode.0) as u32,
            obsidian: (r.obsidian - b.geode.1) as u32,
            ..r
        },
    };
    Ctx { resources, ..ctx }
}

/// The finished robot joins the fleet.
pub open spec fn update_robots_spec(ctx: Ctx, next: Build) -> Ctx {
    let r = ctx.robots;
    let robots = match next {
        Build::Ore => Counters { ore: (r.ore + 1) as u32, ..r },
        Build::Clay => Counters { clay: (r.clay + 1) as u32, ..r },
        Build::Obsidian => Counters { obsidian: (r.obsidian + 1) as u32, ..r },
        Build::Geode => Counters { geode: (r.geode + 1) as u32, ..r },
    };
    Ctx { robots, ..ctx }
}

/// Ticks until `missing` units accumulate at `rate` per tick, rounded up;
/// never, encoded as `u32::MAX`, when nothing is produced.
pub open spec fn ceil_div_spec(missing: u32, rate: u32) -> u32 {
    if missing == 0 {
        0u32
    } else if rate == 0 {
        u32::MAX
    } else {
        ((missing + rate - 1) as int / rate as int) as u32
    }
}

pub open spec fn sat_add_spec(a: u32, b: u32) -> u32 {
    if a + b > u32::MAX {
        u32::MAX
    } else {
        (a + b) as u32
    }
}

pub open spec fn umax_spec(a: u32, b: u32) -> u32 {
    if a >= b {
        a
    } else {
        b
    }
}

/// The feasibility pre-check: can the missing resources for `next` accumulate
/// soon enough that building it still pays within the remaining time?
pub open spec fn enough_time_spec(ctx: Ctx, next: Build) -> bool {
    let b = ctx.blueprint;
    let r = ctx.resources;
    let rob = ctx.robots;
    match next {
        Build::Ore => sat_add_spec(1, ceil_div_spec((b.ore - r.ore) as u32, rob.ore))
            <= ctx.time_left,
        Build::Clay => sat_add_spec(1, ceil_div_spec((b.clay - r.ore) as u32, rob.ore))
            <= ctx.time_left,
        Build::Obsidian => {
            let needed_ore = if b.obsidian.0 >= r.ore { (b.obsidian.0 - r.ore) as u32 } else { 0u32 };
            let needed_clay = if b.obsidian.1 >= r.clay {
                (b.obsidian.1 - r.clay) as u32
            } else {
                0u32
            };
            sat_add_spec(
                1,
                umax_spec(ceil_div_spec(needed_ore, rob.ore), ceil_div_spec(needed_clay, rob.clay)),
            ) <= ctx.time_left
        },
        Build::Geode => {
            let needed_ore = if b.geode.0 >= r.ore { (b.geode.0 - r.ore) as u32 } else { 0u32 };
            let needed_obs = if b.geode.1 >= r.obsidian {
                (b.geode.1 - r.obsidian) as u32
            } else {
                0u32
            };
            sat_add_spec(
                1,
                umax_spec(ceil_div_spec(needed_ore, rob.ore), ceil_div_spec(needed_obs, rob.obsidian)),
            ) <= ctx.time_left
        },
    }
}

/// The value the pruned branch-and-bound computes when committed to starting
/// `next`: build it as soon as affordable; if it can never pay off in time,
/// settle for what the current geode robots still deliver; otherwise branch
/// over every choice of the following robot.
pub open spec fn recurse_spec(ctx: Ctx, next: Build) -> int
    decreases ctx.time_left,
{
    if ctx.time_left == 0 {
        ctx.resources.geode as int
    } else {
        let afford = enough_resources_spec(ctx.resources, ctx.blueprint, next);
        if !afford && !enough_time_spec(ctx, next) {
            ctx.resources.geode + ctx.robots.geode * ctx.time_left
        } else if afford {
            let built = collect_spec(start_build_spec(ctx, next));
            let armed = update_robots_spec(built, next);
            let child = Ctx { time_left: (armed.time_left - 1) as u32, ..armed };
            let g0 = recurse_spec(child, Build::Ore);
            let g1 = recurse_spec(child, Build::Clay);
            let g2 = recurse_spec(child, Build::Obsidian);
            let g3 = recurse_spec(child, Build::Geode);
            vstd::math::max(vstd::math::max(g0, g1), vstd::math::max(g2, g3))
        } else {
            let waited = collect_spec(ctx);
            let child = Ctx { time_left: (waited.time_left - 1) as u32, ..waited };
            recurse_spec(child, next)
        }
    }
}

/// `ctx_ok` survives a tick, with or without a build.
proof fn lemma_fits_step(res: int, rob: int, t: int)
    requires
        t >= 1,
        res >= 0,
        rob >= 0,
        fits(res, rob, t),
    ensures
        fits(res + rob, rob, t - 1),
        fits(res + rob, rob + 1, t - 1),
        res + rob <= u32::MAX,
{
    assert(res + rob + (rob + (t - 1)) * (t - 1) <= res + (rob + t) * t) by (nonlinear_arith)
        requires
            t >= 1,
    ;
    assert(res + rob + (rob + 1 + (t - 1)) * (t - 1) <= res + (rob + t) * t) by (nonlinear_arith)
        requires
            t >= 1,
    ;
    assert(res + rob <= res + (rob + t) * t) by (nonlinear_arith)
        requires
            t >= 1,
            rob >= 0,
            res >= 0,
    ;
}

/// A build tick keeps the context inside `u32`.
proof fn lemma_ctx_step_build(ctx: Ctx, next: Build)
    requires
        ctx_ok(ctx),
        ctx.time_left >= 1,
        enough_resources_spec(ctx.resources, ctx.blueprint, next),
    ensures
        ({
            let built = collect_spec(start_build_spec(ctx, next));
            let armed = update_robots_spec(built, next);
            ctx_ok(Ctx { time_left: (armed.time_left - 1) as u32, ..armed })
        }),
{
    let t = ctx.time_left as int;
    lemma_fits_step(ctx.resources.ore as int, ctx.robots.ore as int, t);
    lemma_fits_step(ctx.resources.clay as int, ctx.robots.clay as int, t);
    lemma_fits_step(ctx.resources.obsidian as int, ctx.robots.obsidian as int, t);
    lemma_fits_step(ctx.resources.geode as int, ctx.robots.geode as int, t);
}

/// A waiting tick keeps the context inside `u32`.
proof fn lemma_ctx_step_wait(ctx: Ctx)
    requires
        ctx_ok(ctx),
        ctx.time_left >= 1,
    ensures
        ({
            let waited = collect_spec(ctx);
            ctx_ok(Ctx { time_left: (waited.time_left - 1) as u32, ..waited })
        }),
{
    let t = ctx.time_left as int;
    lemma_fits_step(ctx.resources.ore as int, ctx.robots.ore as int, t);
    lemma_fits_step(ctx.resources.clay as int, ctx.robots.clay as int, t);
    lemma_fits_step(ctx.resources.obsidian as int, ctx.robots.obsidian as int, t);
    lemma_fits_step(ctx.resources.geode as int, ctx.robots.geode as int, t);
}

/// Ticks until `missing` units accumulate at `rate` per tick, rounded up.
fn ceil_div(missing: u32, rate: u32) -> (r: u32)
    ensures
        r == ceil_div_spec(missing, rate),
{
    if missing == 0 {
        0
    } else if rate == 0 {
        u32::MAX
    } else {
        let q = (missing - 1) / rate + 1;
        proof {
            vstd::arithmetic::div_mod::lemma_div_plus_one(missing - 1, rate as int);
            assert((missing - 1 + rate) / rate as int == (missing + rate - 1) as int
                / rate as int);
        }
        q
    }
}

fn sat_add1(x: u32) -> (r: u32)
    ensures
        r == sat_add_spec(1, x),
{
    if x == u32::MAX {
        u32::MAX
    } else {
        1 + x
    }
}

fn umax(a: u32, b: u32) -> (r: u32)
    ensures
        r == umax_spec(a, b),
{
    if a >= b {
        a
    } else {
        b
    }
}

/// The resources on hand cover the chosen robot's cost.
pub fn enough_resources(resources: &Counters, blueprint: &Blueprint, next: Build) -> (r: bool)
    ensures
        r == enough_resources_spec(*resources, *blueprint, next),
{
    match next {
        Build::Ore => resources.ore >= blueprint.ore,
        Build::Clay => resources.ore >= blueprint.clay,
        Build::Obsidian => {
            resources.ore >= blueprint.obsidian.0 && resources.clay >= blueprint.obsidian.1
        },
        Build::Geode => {
            resources.ore >= blueprint.geode.0 && resources.obsidian >= blueprint.geode.1
        },
    }
}

/// Feasibility pre-check: with current production rates, can the missing
/// resources for `next` accumulate soon enough that building it still pays
/// within the remaining time?
pub fn enough_time(ctx: &Ctx, next: Build) -> (r: bool)
    requires
        !enough_resources_spec(ctx.resources, ctx.blueprint, next),
    ensures
        r == enough_time_spec(*ctx, next),
{
    match next {
        Build::Ore => {
            let needed_ore = ctx.blueprint.ore - ctx.resources.ore;
            let needed_time = sat_add1(ceil_div(needed_ore, ctx.robots.ore));
            needed_time <= ctx.time_left
        },
        Build::Clay => {
            let needed_ore = ctx.blueprint.clay - ctx.resources.ore;
            let needed_time = sat_add1(ceil_div(needed_ore, ctx.robots.ore));
            needed_time <= ctx.time_left
        },
        Build::Obsidian => {
            let needed_ore = if ctx.blueprint.obsidian.0 >= ctx.resources.ore {
                ctx.blueprint.obsidian.0 - ctx.resources.ore
            } else {
                0
            };
            let needed_clay = if ctx.blueprint.obsidian.1 >= ctx.resources.clay {
                ctx.blueprint.obsidian.1 - ctx.resources.clay
            } else {
                0
            };
            let ore_time = ceil_div(needed_ore, ctx.robots.ore);
            let clay_time = ceil_div(needed_clay, ctx.robots.clay);
            let needed_time = sat_add1(umax(ore_time, clay_time));
            needed_time <= ctx.time_left
        },
        Build::Geode => {
            let needed_ore = if ctx.blueprint.geode.0 >= ctx.resources.ore {
                ctx.blueprint.geode.0 - ctx.resources.ore
            } else {
                0
            };
            let needed_obs = if ctx.blueprint.geode.1 >= ctx.resources.obsidian {
                ctx.blueprint.geode.1 - ctx.resources.obsidian
            } else {
                0
            };
            let ore_time = ceil_div(needed_ore, ctx.robots.ore);
            let obs_time = ceil_div(needed_obs, ctx.robots.obsidian);
            let needed_time = sat_add1(umax(ore_time, obs_time));
            needed_time <= ctx.time_left
        },
    }
}

/// One tick of production: every robot yields one unit of its resource.
pub fn collect_resources(ctx: &mut Ctx)
    requires
        ctx_ok(*old(ctx)),
        old(ctx).time_left >= 1,
    ensures
        *final(ctx) == collect_spec(*old(ctx)),
{
    proof {
        let t = old(ctx).time_left as int;
        lemma_fits_step(old(ctx).resources.ore as int, old(ctx).robots.ore as int, t);
        lemma_fits_step(old(ctx).resources.clay as int, old(ctx).robots.clay as int, t);
        lemma_fits_step(old(ctx).resources.obsidian as int, old(ctx).robots.obsidian as int, t);
        lemma_fits_step(old(ctx).resources.geode as int, old(ctx).robots.geode as int, t);
    }
    ctx.resources.ore = ctx.resources.ore + ctx.robots.ore;
    ctx.resources.clay = ctx.resources.clay + ctx.robots.clay;
    ctx.resources.obsidian = ctx.resources.obsidian + ctx.robots.obsidian;
    ctx.resources.geode = ctx.resources.geode + ctx.robots.geode;
}

/// Commit the chosen robot's cost.
pub fn start_build(ctx: &mut Ctx, next: Build)
    requires
        enough_resources_spec(old(ctx).resources, old(ctx).blueprint, next),
    ensures
        *final(ctx) == start_build_spec(*old(ctx), next),
{
    match next {
        Build::Ore => {
            ctx.resources.ore = ctx.resources.ore - ctx.blueprint.ore;
        },
        Build::Clay => {
            ctx.resources.ore = ctx.resources.ore - ctx.blueprint.clay;
        },
        Build::Obsidian => {
            ctx.resources.ore = ctx.resources.ore - ctx.blueprint.obsidian.0;
            ctx.resources.clay = ctx.resources.clay - ctx.blueprint.obsidian.1;
        },
        Build::Geode => {
            ctx.resources.ore = ctx.resources.ore - ctx.blueprint.geode.0;
            ctx.resources.obsidian = ctx.resources.obsidian - ctx.blueprint.geode.1;
        },
    }
}

/// The robot started last tick joins the fleet.
pub fn update_robots(ctx: &mut Ctx, next: Build)
    requires
        old(ctx).robots.ore < u32::MAX,
        old(ctx).robots.clay < u32::MAX,
        old(ctx).robots.obsidian < u32::MAX,
        old(ctx).robots.geode < u32::MAX,
    ensures
        *final(ctx) == update_robots_spec(*old(ctx), next),
{
    match next {
        Build::Ore => {
            ctx.robots.ore = ctx.robots.ore + 1;
        },
        Build::Clay => {
            ctx.robots.clay = ctx.robots.clay + 1;
        },
        Build::Obsidian => {
            ctx.robots.obsidian = ctx.robots.obsidian + 1;
        },
        Build::Geode => {
            ctx.robots.geode = ctx.robots.geode + 1;
        },
    }
}

/// Pruned branch-and-bound, committed to `next` as the robot to build:
/// returns exactly `recurse_spec`.
pub fn recurse(ctx: Ctx, next: Build) -> (geodes: u32)
    requires
        ctx_ok(ctx),
    ensures
        geodes == recurse_spec(ctx, next),
    decreases ctx.time_left,
{
    if ctx.time_left == 0 {
        return ctx.resources.geode;
    }

    let mut ctx = ctx;
    let ghost ctx0 = ctx;
    let mut built = false;
    if enough_resources(&ctx.resources, &ctx.blueprint, next) {
        built = true;
        start_build(&mut ctx, next);
        proof {
            assert(fits(
                ctx.resources.ore as int,
                ctx.robots.ore as int,
                ctx.time_left as int,
            ));
            assert(ctx_ok(ctx));
        }
    } else if !enough_time(&ctx, next) {
        proof {
            let t = ctx.time_left as int;
            lemma_fits_step(ctx.resources.geode as int, ctx.robots.geode as int, t);
            assert(ctx.resources.geode + ctx.robots.geode * t <= u32::MAX) by (nonlinear_arith)
                requires
                    t >= 1,
                    ctx.robots.geode >= 0,
                    ctx.resources.geode as int + (ctx.robots.geode as int + t) * t <= u32::MAX,
            ;
        }
        let last_geodes = ctx.robots.geode * ctx.time_left;
        return ctx.resources.geode + last_geodes;
    }

    collect_resources(&mut ctx);

    if built {
        proof {
            lemma_ctx_step_build(ctx0, next);
        }
        update_robots(&mut ctx, next);
        ctx.time_left = ctx.time_left - 1;
        let g0 = recurse(ctx, Build::Ore);
        let g1 = recurse(ctx, Build::Clay);
        let g2 = recurse(ctx, Build::Obsidian);
        let g3 = recurse(ctx, Build::Geode);
        let mut max_geodes = g0;
        if g1 > max_geodes {
            max_geodes = g1;
        }
        if g2 > max_geodes {
            max_geodes = g2;
        }
        if g3 > max_geodes {
            max_geodes = g3;
        }
        max_geodes
    } else {
        proof {
            lemma_ctx_step_wait(ctx0);
        }
        ctx.time_left = ctx.time_left - 1;
        recurse(ctx, next)
    }
}

/// Integer views of the four counters.
pub open spec fn quad(c: Counters) -> (int, int, int, int) {
    (c.ore as int, c.clay as int, c.obsidian as int, c.geode as int)
}

/// The exact optimum payoff: each tick either waits or starts one affordable
/// robot; production is collected with the robots present at the start of the
/// tick; the payoff is the final geode count.
pub open spec fn best_spec(
    bp: Blueprint,
    rob: (int, int, int, int),
    res: (int, int, int, int),
    t: int,
) -> int
    decreases t,
{
    if t <= 0 {
        res.3
    } else {
        let coll = (res.0 + rob.0, res.1 + rob.1, res.2 + rob.2, res.3 + rob.3);
        let w = best_spec(bp, rob, coll, t - 1);
        let w = if res.0 >= bp.ore {
            vstd::math::max(
                w,
                best_spec(
                    bp,
                    (rob.0 + 1, rob.1, rob.2, rob.3),
                    (coll.0 - bp.ore, coll.1, coll.2, coll.3),
                    t - 1,
                ),
            )
        } else {
            w
        };
        let w = if res.0 >= bp.clay {
            vstd::math::max(
                w,
                best_spec(
                    bp,
                    (rob.0, rob.1 + 1, rob.2, rob.3),
                    (coll.0 - bp.clay, coll.1, coll.2, coll.3),
                    t - 1,
                ),
            )
        } else {
            w
        };
        let w = if res.0 >= bp.obsidian.0 && res.1 >= bp.obsidian.1 {
            vstd::math::max(
                w,
                best_spec(
                    bp,
                    (rob.0, rob.1, rob.2 + 1, rob.3),
                    (coll.0 - bp.obsidian.0, coll.1 - bp.obsidian.1, coll.2, coll.3),
                    t - 1,
                ),
            )
        } else {
            w
        };
        let w = if res.0 >= bp.geode.0 && res.2 >= bp.geode.1 {
            vstd::math::max(
                w,
                best_spec(
                    bp,
                    (rob.0, rob.1, rob.2, rob.3 + 1),
                    (coll.0 - bp.geode.0, coll.1, coll.2 - bp.geode.1, coll.3),
                    t - 1,
                ),
            )
        } else {
            w
        };
        w
    }
}

/// The optimum never falls below the geodes already on hand.
proof fn lemma_best_at_least(
    bp: Blueprint,
    rob: (int, int, int, int),
    res: (int, int, int, int),
    t: int,
)
    requires
        rob.3 >= 0,
    ensures
        best_spec(bp, rob, res, t) >= res.3,
    decreases t,
{
    if t > 0 {
        let coll = (res.0 + rob.0, res.1 + rob.1, res.2 + rob.2, res.3 + rob.3);
        lemma_best_at_least(bp, rob, coll, t - 1);
    }
}

/// Scheduler monotonicity: with one more tick of budget, the optimal payoff
/// cannot decrease.
pub proof fn lemma_best_monotone(
    bp: Blueprint,
    rob: (int, int, int, int),
    res: (int, int, int, int),
    t: int,
)
    requires
        t >= 0,
        rob.0 >= 0,
        rob.1 >= 0,
        rob.2 >= 0,
        rob.3 >= 0,
    ensures
        best_spec(bp, rob, res, t + 1) >= best_spec(bp, rob, res, t),
    decreases t,
{
    let coll = (res.0 + rob.0, res.1 + rob.1, res.2 + rob.2, res.3 + rob.3);
    if t == 0 {
        lemma_best_at_least(bp, rob, coll, 0);
    } else {
        lemma_best_monotone(bp, rob, coll, t - 1);
        if res.0 >= bp.ore {
            lemma_best_monotone(
                bp,
                (rob.0 + 1, rob.1, rob.2, rob.3),
                (coll.0 - bp.ore, coll.1, coll.2, coll.3),
                t - 1,
            );
        }
        if res.0 >= bp.clay {
            lemma_best_monotone(
                bp,
                (rob.0, rob.1 + 1, rob.2, rob.3),
                (coll.0 - bp.clay, coll.1, coll.2, coll.3),
                t - 1,
            );
        }
        if res.0 >= bp.obsidian.0 && res.1 >= bp.obsidian.1 {
            lemma_best_monotone(
                bp,
                (rob.0, rob.1, rob.2 + 1, rob.3),
                (coll.0 - bp.obsidian.0, coll.1 - bp.obsidian.1, coll.2, coll.3),
                t - 1,
            );
        }
        if res.0 >= bp.geode.0 && res.2 >= bp.geode.1 {
            lemma_best_monotone(
                bp,
                (rob.0, rob.1, rob.2, rob.3 + 1),
                (coll.0 - bp.geode.0, coll.1, coll.2 - bp.geode.1, coll.3),
                t - 1,
            );
        }
    }
}

/// Exhaustive optimum for a context: tries waiting and every affordable
/// build at every tick.
pub fn exhaustive(ctx: Ctx) -> (g: u32)
    requires
        ctx_ok(ctx),
    ensures
        g == best_spec(ctx.blueprint, quad(ctx.robots), quad(ctx.resources), ctx.time_left as int),
    decreases ctx.time_left,
{
    if ctx.time_left == 0 {
        return ctx.resources.geode;
    }
    let ghost ctx0 = ctx;
    let mut base = ctx;
    proof {
        lemma_ctx_step_wait(ctx0);
    }
    collect_resources(&mut base);
    proof {
        let t = ctx0.time_left as int;
        lemma_fits_step(ctx0.resources.ore as int, ctx0.robots.ore as int, t);
        lemma_fits_step(ctx0.resources.clay as int, ctx0.robots.clay as int, t);
        lemma_fits_step(ctx0.resources.obsidian as int, ctx0.robots.obsidian as int, t);
        lemma_fits_step(ctx0.resources.geode as int, ctx0.robots.geode as int, t);
        assert(base.resources.ore == ctx0.resources.ore + ctx0.robots.ore);
        assert(base.resources.clay == ctx0.resources.clay + ctx0.robots.clay);
        assert(base.resources.obsidian == ctx0.resources.obsidian + ctx0.robots.obsidian);
        assert(base.resources.geode == ctx0.resources.geode + ctx0.robots.geode);
    }
    base.time_left = base.time_left - 1;
    let mut best = exhaustive(base);

    if ctx.resources.ore >= ctx.blueprint.ore {
        proof {
            lemma_ctx_step_build(ctx0, Build::Ore);
        }
        let mut ch = base;
        ch.resources.ore = ch.resources.ore - ctx.blueprint.ore;
        ch.robots.ore = ch.robots.ore + 1;
        proof {
            assert(ch == ({
                let built = collect_spec(start_build_spec(ctx0, Build::Ore));
                let armed = update_robots_spec(built, Build::Ore);
                Ctx { time_left: (armed.time_left - 1) as u32, ..armed }
            }));
        }
        let g = exhaustive(ch);
        if g > best {
            best = g;
        }
    }
    if ctx.resources.ore >= ctx.blueprint.clay {
        proof {
            lemma_ctx_step_build(ctx0, Build::Clay);
        }
        let mut ch = base;
        ch.resources.ore = ch.resources.ore - ctx.blueprint.clay;
        ch.robots.clay = ch.robots.clay + 1;
        proof {
            assert(ch == ({
                let built = collect_spec(start_build_spec(ctx0, Build::Clay));
                let armed = update_robots_spec(built, Build::Clay);
                Ctx { time_left: (armed.time_left - 1) as u32, ..armed }
            }));
        }
        let g = exhaustive(ch);
        if g > best {
            best = g;
        }
    }
    if ctx.resources.ore >= ctx.blueprint.obsidian.0 && ctx.resources.clay
        >= ctx.blueprint.obsidian.1 {
        proof {
            lemma_ctx_step_build(ctx0, Build::Obsidian);
        }
        let mut ch = base;
        ch.resources.ore = ch.resources.ore - ctx.blueprint.obsidian.0;
        ch.resources.clay = ch.resources.clay - ctx.blueprint.obsidian.1;
        ch.robots.obsidian = ch.robots.obsidian + 1;
        proof {
            assert(ch == ({
                let built = collect_spec(start_build_spec(ctx0, Build::Obsidian));
                let armed = update_robots_spec(built, Build::Obsidian);
                Ctx { time_left: (armed.time_left - 1) as u32, ..armed }
            }));
        }
        let g = exhaustive(ch);
        if g > best {
            best = g;
        }
    }
    if ctx.resources.ore >= ctx.blueprint.geode.0 && ctx.resources.obsidian
        >= ctx.blueprint.geode.1 {
        proof {
            lemma_ctx_step_build(ctx0, Build::Geode);
        }
        let mut ch = base;
        ch.resources.ore = ch.resources.ore - ctx.blueprint.geode.0;
        ch.resources.obsidian = ch.resources.obsidian - ctx.blueprint.geode.1;
        ch.robots.geode = ch.robots.geode + 1;
        proof {
            assert(ch == ({
                let built = collect_spec(start_build_spec(ctx0, Build::Geode));
                let armed = update_robots_spec(built, Build::Geode);
                Ctx { time_left: (armed.time_left - 1) as u32, ..armed }
            }));
        }
        let g = exhaustive(ch);
        if g > best {
            best = g;
        }
    }
    best
}

/// Optimal payoff for a blueprint within `budget` ticks, starting from one
/// ore robot and empty stores.
pub fn optimize(blueprint: &Blueprint, budget: u32) -> (g: u32)
    requires
        (1 + budget as int + budget) * budget <= u32::MAX,
    ensures
        g == best_spec(*blueprint, (1, 0, 0, 0), (0, 0, 0, 0), budget as int),
{
    let ctx = Ctx {
        blueprint: *blueprint,
        robots: Counters { ore: 1, clay: 0, obsidian: 0, geode: 0 },
        resources: Counters { ore: 0, clay: 0, obsidian: 0, geode: 0 },
        time_left: budget,
    };
    proof {
        assert((0 + budget as int) * budget <= (1 + budget as int + budget) * budget)
            by (nonlinear_arith)
            requires
                budget >= 0,
        ;
        assert((1 + budget as int) * budget <= (1 + budget as int + budget) * budget)
            by (nonlinear_arith)
            requires
                budget >= 0,
        ;
        assert(budget as int + 1 <= (1 + budget as int + budget) * budget || budget == 0)
            by (nonlinear_arith)
            requires
                budget >= 0,
        ;
    }
    exhaustive(ctx)
}


/// Waiting out the clock is always available: the optimum is at least the
/// geodes on hand plus what the current geode robots still deliver.
proof fn lemma_best_wait_floor(
    bp: Blueprint,
    rob: (int, int, int, int),
    res: (int, int, int, int),
    t: int,
)
    requires
        t >= 0,
        rob.3 >= 0,
    ensures
        best_spec(bp, rob, res, t) >= res.3 + rob.3 * t,
    decreases t,
{
    if t == 0 {
        assert(rob.3 * 0 == 0) by (nonlinear_arith);
    } else {
        let coll = (res.0 + rob.0, res.1 + rob.1, res.2 + rob.2, res.3 + rob.3);
        lemma_best_wait_floor(bp, rob, coll, t - 1);
        assert((res.3 + rob.3) + rob.3 * (t - 1) == res.3 + rob.3 * t) by (nonlinear_arith);
    }
}

/// Pruning never invents payoff: whatever robot the pruned search commits
/// to next, its result stays at or below the exhaustive optimum. (That the
/// two coincide is checked on the concrete scenario by a test; the converse
/// inequality needs an exchange argument over whole schedules.)
pub proof fn lemma_recurse_le_best(ctx: Ctx, next: Build)
    requires
        ctx_ok(ctx),
    ensures
        recurse_spec(ctx, next) <= best_spec(
            ctx.blueprint,
            quad(ctx.robots),
            quad(ctx.resources),
            ctx.time_left as int,
        ),
    decreases ctx.time_left,
{
    let bp = ctx.blueprint;
    let rob = quad(ctx.robots);
    let res = quad(ctx.resources);
    let t = ctx.time_left as int;
    if ctx.time_left == 0 {
    } else {
        let afford = enough_resources_spec(ctx.resources, ctx.blueprint, next);
        let coll = (res.0 + rob.0, res.1 + rob.1, res.2 + rob.2, res.3 + rob.3);
        if !afford && !enough_time_spec(ctx, next) {
            lemma_best_wait_floor(bp, rob, res, t);
        } else if afford {
            let built = collect_spec(start_build_spec(ctx, next));
            let armed = update_robots_spec(built, next);
            let child = Ctx { time_left: (armed.time_left - 1) as u32, ..armed };
            lemma_ctx_step_build(ctx, next);
            lemma_recurse_le_best(child, Build::Ore);
            lemma_recurse_le_best(child, Build::Clay);
            lemma_recurse_le_best(child, Build::Obsidian);
            lemma_recurse_le_best(child, Build::Geode);
            // the child state is one of the optimum's build branches
            let t2 = ctx.time_left as int;
            lemma_fits_step(res.0, rob.0, t2);
            lemma_fits_step(res.1, rob.1, t2);
            lemma_fits_step(res.2, rob.2, t2);
            lemma_fits_step(res.3, rob.3, t2);
            match next {
                Build::Ore => {
                    assert(quad(child.robots) == (rob.0 + 1, rob.1, rob.2, rob.3));
                    assert(quad(child.resources) == (
                        coll.0 - bp.ore,
                        coll.1,
                        coll.2,
                        coll.3,
                    ));
                },
                Build::Clay => {
                    assert(quad(child.robots) == (rob.0, rob.1 + 1, rob.2, rob.3));
                    assert(quad(child.resources) == (
                        coll.0 - bp.clay,
                        coll.1,
                        coll.2,
                        coll.3,
                    ));
                },
                Build::Obsidian => {
                    assert(quad(child.robots) == (rob.0, rob.1, rob.2 + 1, rob.3));
                    assert(quad(child.resources) == (
                        coll.0 - bp.obsidian.0,
                        coll.1 - bp.obsidian.1,
                        coll.2,
                        coll.3,
                    ));
                },
                Build::Geode => {
                    assert(quad(child.robots) == (rob.0, rob.1, rob.2, rob.3 + 1));
                    assert(quad(child.resources) == (
                        coll.0 - bp.geode.0,
                        coll.1,
                        coll.2 - bp.geode.1,
                        coll.3,
                    ));
                },
            }
        } else {
            let waited = collect_spec(ctx);
            let child = Ctx { time_left: (waited.time_left - 1) as u32, ..waited };
            lemma_ctx_step_wait(ctx);
            lemma_recurse_le_best(child, next);
            let t2 = ctx.time_left as int;
            lemma_fits_step(res.0, rob.0, t2);
            lemma_fits_step(res.1, rob.1, t2);
            lemma_fits_step(res.2, rob.2, t2);
            lemma_fits_step(res.3, rob.3, t2);
            assert(quad(child.robots) == rob);
            assert(quad(child.resources) == coll);
        }
    }
}

} // verus!
